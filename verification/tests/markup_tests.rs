//! The markup model: flattening, annotations, cleanup and display.
use carp::markup::{Card, Markup, Style, StyleAnnotation};

fn ann(start: usize, end: usize, style: Style) -> StyleAnnotation {
    StyleAnnotation { start, end, style }
}

#[test]
fn styled_segments() {
    let card = Card {
        content: vec![
            Markup::Plain("Hello".to_string()),
            Markup::Blank,
            Markup::Italic(vec![
                Markup::Plain("World".to_string()),
                Markup::Tiny(vec![
                    Markup::Plain("!".to_string()),
                    Markup::Italic(vec![Markup::Plain(" Italic inside Tiny ".to_string())]),
                ]),
            ]),
            Markup::Blank,
            Markup::Italic(vec![Markup::Plain("Italic".to_string())]),
            Markup::Bottom(vec![Markup::Plain("Bottom".to_string())]),
        ],
    };

    let (render, annotations) = card.annotated_top().unwrap();

    assert_eq!(render, "Hello____World! Italic inside Tiny ____Italic");
    assert_eq!(&"Hello____World"[9..14], "World");
    assert_eq!(
        annotations,
        vec![
            ann(9, 35, Style::Italic),
            ann(14, 35, Style::Size(500)),
            ann(15, 35, Style::Italic),
            ann(39, 45, Style::Italic),
        ]
    );

    let (render, annotations) = card.annotated_bottom().unwrap();

    assert_eq!(render, "Bottom");
    assert_eq!(annotations, vec![]);
}

#[test]
fn styled_segments2() {
    let card = Card {
        content: vec![
            Markup::Plain("Gl\u{fc}ck".to_string()),
            Markup::Bottom(vec![Markup::Tiny(vec![
                Markup::Plain("Auf der ".to_string()),
                Markup::Italic(vec![
                    Markup::Plain("Steiger".to_string()),
                    Markup::Plain(" kommt".to_string()),
                ]),
            ])]),
        ],
    };

    let (render, _) = card.annotated_top().unwrap();
    assert_eq!(render, "Gl\u{fc}ck");

    let (render, annotations) = card.annotated_bottom().unwrap();
    assert_eq!(render, "Auf der Steiger kommt");
    assert_eq!(
        annotations,
        vec![ann(0, 21, Style::Size(500)), ann(8, 21, Style::Italic)]
    );
}

#[test]
fn display_round_trip() {
    // a card built purely from Plain, Blank and Italic nodes reproduces the
    // expected human-readable markup
    let card = Card {
        content: vec![
            Markup::Plain("Hello".to_string()),
            Markup::Blank,
            Markup::Italic(vec![Markup::Plain("World".to_string())]),
        ],
    };
    assert_eq!(card.rendered(), "Hello____*World*");
}

#[test]
fn display_unknown_and_bottom() {
    let card = Card {
        content: vec![
            Markup::Unknown {
                tag: "x".to_string(),
                attributes: vec![("k".to_string(), "v".to_string())],
                content: vec![Markup::Plain("inner".to_string())],
            },
            Markup::Bottom(vec![Markup::Plain("foot".to_string())]),
        ],
    };
    assert_eq!(card.rendered(), "<x k=\"v\">inner</x>\n\nfoot");
}

#[test]
fn cleanup_trims_and_drops() {
    let mut card = Card {
        content: vec![
            Markup::Plain("  hi there  ".to_string()),
            Markup::Italic(vec![]),
            Markup::Bottom(vec![Markup::Plain("  foot  ".to_string())]),
        ],
    };
    card.cleanup();
    assert_eq!(
        card,
        Card {
            content: vec![
                Markup::Plain("hi there  ".to_string()),
                Markup::Bottom(vec![Markup::Plain("foot".to_string())]),
            ],
        }
    );
}

#[test]
fn cleanup_idempotent_on_cleaned_card() {
    let mut card = Card {
        content: vec![
            Markup::Plain("  a  ".to_string()),
            Markup::Plain("".to_string()),
            Markup::Plain(" b ".to_string()),
        ],
    };
    card.cleanup();
    let once = format!("{card:?}");
    card.cleanup();
    let twice = format!("{card:?}");
    assert_eq!(once, twice);
}

#[test]
fn cleanup_idempotent_when_an_edge_node_empties() {
    // trimming empties the first node; the newly exposed neighbour is
    // trimmed in the same pass, so a second cleanup changes nothing
    let mut card = Card {
        content: vec![
            Markup::Plain(" ".to_string()),
            Markup::Plain(" x".to_string()),
        ],
    };
    card.cleanup();
    assert_eq!(
        card,
        Card {
            content: vec![Markup::Plain("x".to_string())],
        }
    );
    card.cleanup();
    assert_eq!(
        card,
        Card {
            content: vec![Markup::Plain("x".to_string())],
        }
    );
}

#[test]
fn empty_card_flattens_blank() {
    let card = Card { content: vec![] };
    assert!(card.annotated_top().is_none());
    assert!(card.annotated_bottom().is_none());
    assert_eq!(card.rendered(), "");
}

#[test]
fn font_annotations_stack() {
    let card = Card {
        content: vec![Markup::Font {
            family: Some("Serif".to_string()),
            size: Some(2000),
            content: vec![Markup::Plain("big".to_string())],
        }],
    };
    let (render, annotations) = card.annotated_top().unwrap();
    assert_eq!(render, "big");
    assert_eq!(
        annotations,
        vec![
            ann(0, 3, Style::Font("Serif".to_string())),
            ann(0, 3, Style::Size(2000)),
        ]
    );
}

#[test]
fn annotations_sorted_within_bounds() {
    // nested same-kind annotations each keep their own interval, sorted by
    // (start, end), all within the text
    let card = Card {
        content: vec![Markup::Italic(vec![
            Markup::Italic(vec![Markup::Plain("ab".to_string())]),
            Markup::Plain("cd".to_string()),
        ])],
    };
    let (render, annotations) = card.annotated_top().unwrap();
    assert_eq!(render, "abcd");
    assert_eq!(
        annotations,
        vec![ann(0, 2, Style::Italic), ann(0, 4, Style::Italic)]
    );
    for a in &annotations {
        assert!(a.start <= a.end && a.end <= render.chars().count());
    }
}
