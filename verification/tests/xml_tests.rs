//! Reading deck documents: structure, display, trimming and errors.
use carp::error::Kind;
use carp::markup::{Card, Markup};
use carp::xml::{
    card_of, check_card_tag, deck_from_parts, markup_of, parse_deck, text_markup, Deck, RawNode,
    Theme,
};
use carp::Backside;

const TEST_DATA: &str = "<deck name=\"My Name\" theme=\"dark\"><card>The first card contains a <blank/>.</card><card><i><blank/></i></card><card>This is <i>very</i> good.</card></deck>";

#[test]
fn xml_it_works() {
    let deck: Deck = parse_deck(TEST_DATA).unwrap();

    assert_eq!(
        deck,
        Deck {
            name: "My Name".to_string(),
            theme: Theme::Dark,
            back: Backside::Shared,
            cards: vec![
                Card {
                    content: vec![
                        Markup::Plain("The first card contains a ".to_string()),
                        Markup::Blank,
                        Markup::Plain(".".to_string()),
                    ],
                },
                Card {
                    content: vec![Markup::Italic(vec![Markup::Blank])],
                },
                Card {
                    content: vec![
                        Markup::Plain("This is ".to_string()),
                        Markup::Italic(vec![Markup::Plain("very".to_string())]),
                        Markup::Plain(" good.".to_string()),
                    ],
                },
            ],
        }
    );
}

#[test]
fn xml_display() {
    let deck: Deck = parse_deck(TEST_DATA).unwrap();

    assert_eq!(deck.cards[0].rendered(), "The first card contains a ____.");
    assert_eq!(deck.cards[1].rendered(), "*____*");
    assert_eq!(deck.cards[2].rendered(), "This is *very* good.");
}

#[test]
fn xml_trimming() {
    let deck: Deck = parse_deck(
        "<deck name=\"hi\"><card>\n        Hallo!!!!!<blank/> </card></deck>",
    )
    .unwrap();

    assert_eq!(deck.cards[0].rendered(), "Hallo!!!!!____");
}

#[test]
fn bottom() {
    let deck: Deck = parse_deck(
        "<deck name=\"hi\"><card>\n        \u{d6}\u{d6}\u{d6}\u{d6}\u{d6}\u{d6}\u{d6}\u{c4}???ASD<blank/><bottom>ASDF</bottom>\n        </card></deck>",
    )
    .unwrap();

    assert_eq!(
        deck.cards[0].rendered(),
        "\u{d6}\u{d6}\u{d6}\u{d6}\u{d6}\u{d6}\u{d6}\u{c4}???ASD____\n\nASDF"
    );
}

#[test]
fn missing_deck_name_is_an_error() {
    let err = parse_deck("<deck><card>x</card></deck>").unwrap_err();
    assert_eq!(err, Kind::MissingDeckName);
    assert_eq!(
        err.message(),
        "the deck has no name attribute set like <deck name=\"example\">...</deck>"
    );
}

#[test]
fn invalid_theme_is_an_error() {
    let err = parse_deck("<deck name=\"hi\" theme=\"sepia\"></deck>").unwrap_err();
    assert_eq!(
        err,
        Kind::InvalidAttributeValue {
            tag: "deck".to_string(),
            attribute: "theme".to_string(),
            value: "sepia".to_string(),
            allowed: vec!["light".to_string(), "dark".to_string()],
        }
    );
    assert_eq!(
        err.message(),
        "invalid value for attribute: <deck ... theme=\"sepia\" ... />, allowed values are [\"light\", \"dark\"]"
    );
}

#[test]
fn invalid_back_is_an_error() {
    let err = parse_deck("<deck name=\"hi\" back=\"mirrored\"></deck>").unwrap_err();
    assert_eq!(
        err,
        Kind::InvalidAttributeValue {
            tag: "deck".to_string(),
            attribute: "back".to_string(),
            value: "mirrored".to_string(),
            allowed: vec!["shared".to_string(), "unique".to_string()],
        }
    );
}

#[test]
fn unparseable_document_is_an_error() {
    let err = parse_deck("<deck name=").unwrap_err();
    assert_eq!(err, Kind::Parse);
    assert_eq!(err.message(), "couldn't parse the xml file");
}

#[test]
fn mismatched_close_tag_is_reported() {
    let err = parse_deck("<deck name=\"hi\"><card>x</deck>").unwrap_err();
    assert_eq!(
        err,
        Kind::UnexpectedTag {
            expected: "card".to_string(),
            actual: "deck".to_string(),
        }
    );
    assert_eq!(err.message(), "expected card, but got deck");
}

#[test]
fn back_and_theme_attributes_are_read() {
    let deck = parse_deck("<deck name=\"n\" theme=\"LIGHT\" back=\"unique\"></deck>").unwrap();
    assert_eq!(deck.theme, Theme::Light);
    assert_eq!(deck.back, Backside::Unique);
    assert!(deck.cards.is_empty());
}

#[test]
fn font_size_attribute_in_thousandths() {
    let deck = parse_deck(
        "<deck name=\"n\"><card><font family=\"Serif\" size=\" 0.5 \">x</font></card></deck>",
    )
    .unwrap();
    assert_eq!(
        deck.cards[0].content[0],
        Markup::Font {
            family: Some("Serif".to_string()),
            size: Some(500),
            content: vec![Markup::Plain("x".to_string())],
        }
    );
    let bad = parse_deck(
        "<deck name=\"n\"><card><font size=\"huge\">x</font></card></deck>",
    )
    .unwrap();
    assert_eq!(
        bad.cards[0].content[0],
        Markup::Font {
            family: None,
            size: Some(1000),
            content: vec![Markup::Plain("x".to_string())],
        }
    );
}

#[test]
fn deck_assembly_decisions() {
    let err = deck_from_parts(None, None, None, vec![]).unwrap_err();
    assert_eq!(err, Kind::MissingDeckName);

    let deck = deck_from_parts(
        Some("n".to_string()),
        None,
        None,
        vec![Card { content: vec![Markup::Blank] }],
    )
    .unwrap();
    assert_eq!(deck.theme, Theme::Light);
    assert_eq!(deck.back, Backside::Shared);
    assert_eq!(deck.cards.len(), 1);

    let err = deck_from_parts(
        Some("n".to_string()),
        Some("sepia".to_string()),
        Some("mirrored".to_string()),
        vec![],
    )
    .unwrap_err();
    // a bad theme is reported before a bad back
    assert!(matches!(err, Kind::InvalidAttributeValue { ref attribute, .. } if attribute == "theme"));
}

#[test]
fn text_and_card_tag_decisions() {
    assert_eq!(text_markup(Some("hi".to_string())), Markup::Plain("hi".to_string()));
    assert_eq!(text_markup(None), Markup::Plain(String::new()));
    assert!(check_card_tag("card".to_string()).is_ok());
    assert_eq!(
        check_card_tag("deck".to_string()).unwrap_err(),
        Kind::UnexpectedTag { expected: "card".to_string(), actual: "deck".to_string() }
    );
}

#[test]
fn plain_tree_walk() {
    let node = RawNode::Element {
        tag: "i".to_string(),
        attributes: vec![],
        children: vec![RawNode::Text(Some("x".to_string()))],
    };
    assert_eq!(
        markup_of(node),
        Markup::Italic(vec![Markup::Plain("x".to_string())])
    );

    let card = RawNode::Element {
        tag: "card".to_string(),
        attributes: vec![],
        children: vec![RawNode::Text(Some("  y  ".to_string()))],
    };
    assert_eq!(
        card_of(card).unwrap(),
        Card { content: vec![Markup::Plain("y".to_string())] }
    );

    let wrong = RawNode::Element {
        tag: "deck".to_string(),
        attributes: vec![],
        children: vec![],
    };
    assert_eq!(
        card_of(wrong).unwrap_err(),
        Kind::UnexpectedTag { expected: "card".to_string(), actual: "deck".to_string() }
    );
}
