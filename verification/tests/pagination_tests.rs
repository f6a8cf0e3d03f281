//! Pagination, artifact naming and ordering, the device-pool arbiter, the
//! PNG exporter and the record importer.
use carp::artifact::{Amount, Artifact, Content};
use carp::export::{PNGExporter, RawImage};
use carp::import_csv::texts_from_records;
use carp::pool::Pool;
use carp::tts::{cell_position, global_index, order_artifacts, PagePlan, TTS};
use carp::{Backside, Side};

#[test]
fn single_page_deck() {
    // 3 cards with a shared back: one front sheet, one back card
    let plan = TTS::build("demo", 3, Backside::Shared);
    assert_eq!(plan.len(), 2);
    assert_eq!(plan[0].side, Side::Front);
    assert_eq!(
        plan[0].content,
        Content::Sheet { rows: 7, columns: 10, total: 3 }
    );
    assert_eq!(plan[0].amount, Amount::Single);
    assert_eq!(plan[0].data, PagePlan { side: Side::Front, start: 0, count: 3 });
    assert_eq!(plan[1].side, Side::Back);
    assert_eq!(plan[1].content, Content::Single);
    assert_eq!(plan[1].amount, Amount::Single);
    assert_eq!(plan[1].data, PagePlan { side: Side::Back, start: 0, count: 1 });
}

#[test]
fn multi_page_front_count_is_ceiling() {
    // 145 cards at 70 per page fill ceil(145 / 70) = 3 front sheets, and
    // every amount carries that same total
    let plan = TTS::build("demo", 145, Backside::Shared);
    let fronts: Vec<_> = plan.iter().filter(|a| a.side == Side::Front).collect();
    assert_eq!(fronts.len(), 3);
    for (i, a) in fronts.iter().enumerate() {
        assert_eq!(
            a.amount,
            Amount::Multiple { index: (i + 1) as u16, total: 3 }
        );
    }
    assert_eq!(
        fronts[2].content,
        Content::Sheet { rows: 7, columns: 10, total: 5 }
    );
    assert_eq!(
        fronts[2].data,
        PagePlan { side: Side::Front, start: 140, count: 5 }
    );
}

#[test]
fn shared_back_is_always_one_artifact() {
    for n in [1usize, 69, 70, 71, 200] {
        let plan = TTS::build("demo", n, Backside::Shared);
        let backs = plan.iter().filter(|a| a.side == Side::Back).count();
        assert_eq!(backs, 1);
    }
}

#[test]
fn unique_backs_paginate_like_fronts() {
    for n in [0usize, 1, 70, 71, 200] {
        let plan = TTS::build("demo", n, Backside::Unique);
        let fronts = plan.iter().filter(|a| a.side == Side::Front).count();
        let backs = plan.iter().filter(|a| a.side == Side::Back).count();
        assert_eq!(fronts, n.div_ceil(70));
        assert_eq!(backs, fronts);
    }
}

#[test]
fn canonical_names() {
    let plan = TTS::build("demo", 145, Backside::Shared);
    assert_eq!(plan[0].name(), "demo-front-r7c10t70-1of3");
    assert_eq!(plan[2].name(), "demo-front-r7c10t5-3of3");
    assert_eq!(plan[3].name(), "demo-back-single-1of1");

    let small = TTS::build("demo", 3, Backside::Unique);
    assert_eq!(small[0].name(), "demo-front-r7c10t3-1of1");
    assert_eq!(small[1].name(), "demo-back-r7c10t3-1of1");
}

#[test]
fn names_unique_within_a_run() {
    let plan = TTS::build("demo", 145, Backside::Unique);
    let mut names: Vec<String> = plan.iter().map(|a| a.name()).collect();
    names.sort();
    let before = names.len();
    names.dedup();
    assert_eq!(names.len(), before);
}

#[test]
fn ordering_pairs_fronts_with_backs() {
    let plan = TTS::build("demo", 145, Backside::Unique);
    let ordered = order_artifacts(plan);
    // stable by page index: front page 1, back page 1, front page 2, ...
    let pairs: Vec<(Side, Amount)> = ordered.iter().map(|a| (a.side, a.amount)).collect();
    assert_eq!(
        pairs,
        vec![
            (Side::Front, Amount::Multiple { index: 1, total: 3 }),
            (Side::Back, Amount::Multiple { index: 1, total: 3 }),
            (Side::Front, Amount::Multiple { index: 2, total: 3 }),
            (Side::Back, Amount::Multiple { index: 2, total: 3 }),
            (Side::Front, Amount::Multiple { index: 3, total: 3 }),
            (Side::Back, Amount::Multiple { index: 3, total: 3 }),
        ]
    );
}

#[test]
fn cells_and_global_indices() {
    assert_eq!(cell_position(0), (0, 0));
    assert_eq!(cell_position(9), (9, 0));
    assert_eq!(cell_position(10), (0, 1));
    assert_eq!(cell_position(69), (9, 6));
    assert_eq!(global_index(140, 4), 144);
}

#[test]
fn with_data_preserves_identity() {
    let plan = TTS::build("demo", 1, Backside::Shared);
    let first = plan.into_iter().next().unwrap();
    let name_before = first.name();
    let swapped = first.with_data(42u32);
    assert_eq!(swapped.data, 42);
    assert_eq!(swapped.name(), name_before);
    let (data, identity) = swapped.extract_data();
    assert_eq!(data, 42);
    assert_eq!(identity.name(), name_before);
}

#[test]
fn pool_reuses_and_grows() {
    // k non-overlapping acquire/release cycles keep one slot; k overlapping
    // holders grow the pool to exactly k slots, each exclusively held
    let mut pool = Pool::new();
    for _ in 0..5 {
        let i = pool.acquire();
        assert_eq!(i, 0);
        pool.release(i);
    }
    assert_eq!(pool.len(), 1);

    let mut held = Vec::new();
    for expect in 1..4usize {
        let i = pool.acquire();
        assert!(!held.contains(&i));
        held.push(i);
        assert_eq!(pool.len(), expect.max(1));
    }
    assert_eq!(pool.len(), 3);
    for i in held {
        pool.release(i);
    }
    assert_eq!(pool.len(), 3);
}

#[test]
fn png_export_encodes_and_keeps_identity() {
    let artifact = Artifact {
        deck: "demo".to_string(),
        shared: Backside::Shared,
        data: RawImage { width: 1, height: 1, pixels: vec![255, 0, 0, 255] },
        side: Side::Front,
        content: Content::Single,
        amount: Amount::Single,
        aspect_ratio: None,
        extension: None,
    };
    let out = PNGExporter.export(artifact).unwrap();
    assert_eq!(out.name(), "demo-front-single-1of1");
    assert_eq!(out.extension, Some("png".to_string()));
    let ar = out.aspect_ratio.unwrap();
    assert_eq!((ar.num, ar.den), (1, 1));
    // a real PNG stream, not the pixels handed back
    assert_eq!(&out.data[..4], &[0x89, b'P', b'N', b'G']);
}

#[test]
fn record_texts_with_fallback() {
    let texts = texts_from_records(vec![
        Some("first".to_string()),
        None,
        Some("third".to_string()),
    ]);
    assert_eq!(
        texts,
        vec![
            "first".to_string(),
            "COULDN'T IMPORT".to_string(),
            "third".to_string(),
        ]
    );
}
