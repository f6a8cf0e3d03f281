//! Sheet pagination and artifact addressing: a deck's cards are chunked
//! into fixed-capacity grid pages, backs are shared or paginated like the
//! fronts, and every produced image gets deterministic identity metadata.
//!
//! The planning here is pure; a driver renders each plan with an
//! exclusively-held device and wraps the image via [`Artifact::with_data`].
use vstd::prelude::*;
use vstd::string::StringExecFns;

use crate::artifact::{Amount, Artifact, Content};
use crate::{Backside, Side};

verus! {

/// One image to produce: which side, and which run of deck-global card
/// indices `[start, start + count)` it shows.  A shared back has
/// `count == 1` and is rendered card-sized; everything else is sheet-sized.
#[derive(Clone, Copy, Debug, PartialEq, Eq, Structural)]
pub struct PagePlan {
    pub side: Side,
    pub start: usize,
    pub count: usize,
}

/// How many sheets a deck of `len` cards needs: `ceil(len / capacity)`.
pub open spec fn spec_page_count(len: int) -> int {
    (len + 69) / 70
}

/// How many cards page `page` holds.
pub open spec fn spec_chunk_len(len: int, page: int) -> int {
    if (page + 1) * 70 <= len {
        70
    } else {
        len - page * 70
    }
}

/// The content shape of sheet `page` of a deck of `len` cards.
pub open spec fn spec_sheet_content(len: int, page: int) -> Content {
    Content::Sheet { rows: 7, columns: 10, total: spec_chunk_len(len, page) as u16 }
}

/// The amount of sheet `page`: `Single` when the whole deck fits one page,
/// else 1-based page `page + 1` of the total page count.
pub open spec fn spec_sheet_amount(len: int, page: int) -> Amount {
    if len <= 70 {
        Amount::Single
    } else {
        Amount::Multiple { index: (page + 1) as u16, total: spec_page_count(len) as u16 }
    }
}

/// Law: pagination fills exactly `ceil(len / capacity)` sheets — one more
/// than the full pages when a remainder is left — every multi-page amount
/// carries that same total, and a deck that fits one page gets `Single`
/// amounts only.
pub proof fn lemma_pagination(len: int)
    requires
        0 <= len <= 70 * 0xFFFF,
    ensures
        spec_page_count(len) == len / 70 + if len % 70 == 0 {
            0int
        } else {
            1int
        },
        forall|page: int|
            0 <= page < spec_page_count(len) && len > 70 ==> #[trigger] spec_sheet_amount(
                len,
                page,
            ) == (Amount::Multiple {
                index: (page + 1) as u16,
                total: spec_page_count(len) as u16,
            }),
        len <= 70 ==> forall|page: int|
            0 <= page < spec_page_count(len) ==> #[trigger] spec_sheet_amount(len, page)
                == Amount::Single,
{
    assert(spec_page_count(len) == len / 70 + if len % 70 == 0 {
        0int
    } else {
        1int
    }) by (nonlinear_arith)
        requires
            len >= 0,
    ;
}

/// The column and row of the card at `local` position within its sheet.
pub fn cell_position(local: usize) -> (r: (usize, usize))
    requires
        local < 70,
    ensures
        r.0 == local % 10,
        r.1 == local / 10,
        r.0 < 10 && r.1 < 7,
    {
    (local % 10, local / 10)
}

/// The deck-global index of the card at `local` position of the page
/// starting at `start`.
pub fn global_index(start: usize, local: usize) -> (r: usize)
    requires
        start + local <= usize::MAX,
    ensures
        r == start + local,
{
    start + local
}

/// The sheet production plan for one deck: every front page in order, and
/// after them the backs — one card-sized shared back rendered from the
/// first card, or one back sheet per front page.
///
/// Every artifact carries the deck's name, its side, the back mode, its
/// content shape and amount, and as payload the plan of card indices to
/// draw.  A driver replaces the payload with the rendered image.
pub struct TTS;

impl TTS {
    /// Plan the artifacts for a deck of `deck_len` cards.
    ///
    /// A shared-back deck must hold at least one card: its single back is
    /// rendered from the first card.
    pub fn build(deck_name: &str, deck_len: usize, back: Backside) -> (r: Vec<
        Artifact<PagePlan>,
    >)
        requires
            back == Backside::Shared ==> deck_len >= 1,
            deck_len <= 70 * 0xFFFF,
        ensures
            ({
                let fronts = spec_page_count(deck_len as int);
                let backs = if back == Backside::Shared {
                    1int
                } else {
                    fronts
                };
                &&& r@.len() == fronts + backs
                &&& forall|i: int|
                    0 <= i < fronts ==> sheet_artifact_matches(
                        #[trigger] r@[i],
                        deck_name@,
                        back,
                        deck_len as int,
                        i,
                        Side::Front,
                    )
                &&& back == Backside::Shared ==> (r@[fronts].deck@ == deck_name@
                    && r@[fronts].side == Side::Back && r@[fronts].shared == back
                    && r@[fronts].content == Content::Single && r@[fronts].amount
                    == Amount::Single && r@[fronts].data == (PagePlan {
                    side: Side::Back,
                    start: 0,
                    count: 1,
                }) && r@[fronts].aspect_ratio is None && r@[fronts].extension is None)
                &&& back == Backside::Unique ==> forall|i: int|
                    fronts <= i < fronts + backs ==> sheet_artifact_matches(
                        #[trigger] r@[i],
                        deck_name@,
                        back,
                        deck_len as int,
                        i - fronts,
                        Side::Back,
                    )
            }),
    {
        let mut out: Vec<Artifact<PagePlan>> = Vec::new();
        Self::push_sheets(&mut out, deck_name, deck_len, back, Side::Front);
        let ghost fronts = out@.len() as int;
        match back {
            Backside::Shared => {
                out.push(
                    Artifact {
                        deck: String::from_str(deck_name),
                        shared: back,
                        data: PagePlan { side: Side::Back, start: 0, count: 1 },
                        side: Side::Back,
                        content: Content::Single,
                        amount: Amount::Single,
                        aspect_ratio: Option::None,
                        extension: Option::None,
                    },
                );
            },
            Backside::Unique => {
                Self::push_sheets(&mut out, deck_name, deck_len, back, Side::Back);
            },
        }
        out
    }

    /// Append one sheet artifact per page of the deck.
    fn push_sheets(
        out: &mut Vec<Artifact<PagePlan>>,
        deck_name: &str,
        deck_len: usize,
        back: Backside,
        side: Side,
    )
        requires
            deck_len <= 70 * 0xFFFF,
        ensures
            final(out)@.len() == old(out)@.len() + spec_page_count(deck_len as int),
            forall|i: int|
                0 <= i < old(out)@.len() ==> #[trigger] final(out)@[i] == old(out)@[i],
            forall|i: int|
                old(out)@.len() <= i < final(out)@.len() ==> sheet_artifact_matches(
                    #[trigger] final(out)@[i],
                    deck_name@,
                    back,
                    deck_len as int,
                    i - old(out)@.len(),
                    side,
                ),
    {
        let ghost base = out@.len() as int;
        let total_pages = (deck_len + 69) / 70;
        proof {
            assert(total_pages <= 0xFFFF + 1) by (nonlinear_arith)
                requires
                    deck_len <= 70 * 0xFFFF,
                    total_pages == (deck_len + 69) / 70,
            ;
            assert(spec_page_count(deck_len as int) <= 0xFFFF) by (nonlinear_arith)
                requires
                    deck_len <= 70 * 0xFFFF,
            ;
        }
        let mut page: usize = 0;
        while page < total_pages
            invariant
                total_pages == spec_page_count(deck_len as int),
                total_pages <= 0xFFFF,
                deck_len <= 70 * 0xFFFF,
                0 <= page <= total_pages,
                0 <= base == old(out)@.len(),
                out@.len() == base + page,
                base <= out@.len(),
                forall|i: int| 0 <= i < base ==> #[trigger] out@[i] == old(out)@[i],
                forall|i: int|
                    base <= i < out@.len() ==> sheet_artifact_matches(
                        #[trigger] out@[i],
                        deck_name@,
                        back,
                        deck_len as int,
                        i - base,
                        side,
                    ),
            decreases total_pages - page,
        {
            let start = page * 70;
            proof {
                assert(page * 70 <= 0xFFFF * 70) by (nonlinear_arith)
                    requires
                        0 <= page <= 0xFFFF,
                ;
                assert((page + 1) * 70 == page * 70 + 70) by (nonlinear_arith);
                assert(page * 70 < deck_len || deck_len == 0) by (nonlinear_arith)
                    requires
                        0 <= page,
                        page < (deck_len + 69) / 70,
                ;
            }
            let count = if start + 70 <= deck_len {
                70
            } else {
                deck_len - start
            };
            let amount = if deck_len <= 70 {
                Amount::Single
            } else {
                Amount::Multiple { index: (page + 1) as u16, total: total_pages as u16 }
            };
            let ghost ob = out@;
            out.push(
                Artifact {
                    deck: String::from_str(deck_name),
                    shared: back,
                    data: PagePlan { side, start, count },
                    side,
                    content: Content::Sheet { rows: 7, columns: 10, total: count as u16 },
                    amount,
                    aspect_ratio: Option::None,
                    extension: Option::None,
                },
            );
            proof {
                assert(forall|i: int| 0 <= i < ob.len() ==> #[trigger] out@[i] == ob[i]);
                assert(count as int == spec_chunk_len(deck_len as int, page as int));
                assert(amount == spec_sheet_amount(deck_len as int, page as int));
                assert(sheet_artifact_matches(
                    out@[base + page],
                    deck_name@,
                    back,
                    deck_len as int,
                    page as int,
                    side,
                ));
                assert forall|i: int|
                    base <= i < out@.len() implies sheet_artifact_matches(
                    out@[i],
                    deck_name@,
                    back,
                    deck_len as int,
                    i - base,
                    side,
                ) by {
                    if i < base + page {
                        assert(out@.drop_last() =~= ob);
                        assert(out@[i] == ob[i]);
                        assert(sheet_artifact_matches(
                            ob[i],
                            deck_name@,
                            back,
                            deck_len as int,
                            i - base,
                            side,
                        ));
                    } else {
                        assert(i == base + page);
                    }
                }
            }
            page = page + 1;
        }
    }
}

/// Whether `a` is the front or back sheet artifact of page `page` of a deck
/// of `len` cards named `deck`.
pub open spec fn sheet_artifact_matches(
    a: Artifact<PagePlan>,
    deck: Seq<char>,
    back: Backside,
    len: int,
    page: int,
    side: Side,
) -> bool {
    &&& a.deck@ == deck
    &&& a.shared == back
    &&& a.side == side
    &&& a.content == spec_sheet_content(len, page)
    &&& a.amount == spec_sheet_amount(len, page)
    &&& a.data == (PagePlan {
        side,
        start: (page * 70) as usize,
        count: spec_chunk_len(len, page) as usize,
    })
    &&& a.aspect_ratio is None
    &&& a.extension is None
}

proof fn lemma_names_differ_by_side(
    deck: Seq<char>,
    s1: Side,
    c1: Content,
    a1: Amount,
    s2: Side,
    c2: Content,
    a2: Amount,
)
    requires
        s1 != s2,
    ensures
        crate::artifact::spec_artifact_name(deck, s1, c1, a1)
            != crate::artifact::spec_artifact_name(deck, s2, c2, a2),
{
    let n1 = crate::artifact::spec_artifact_name(deck, s1, c1, a1);
    let n2 = crate::artifact::spec_artifact_name(deck, s2, c2, a2);
    if n1 == n2 {
        let k = deck.len() as int + 1;
        let p1 = deck + seq!['-'] + crate::artifact::spec_side_label(s1);
        let p2 = deck + seq!['-'] + crate::artifact::spec_side_label(s2);
        assert(p1[k] == crate::artifact::spec_side_label(s1)[0]);
        assert(p2[k] == crate::artifact::spec_side_label(s2)[0]);
        assert(n1[k] == p1[k]);
        assert(n2[k] == p2[k]);
        assert(crate::artifact::spec_side_label(s1)[0] != crate::artifact::spec_side_label(
            s2,
        )[0]);
        assert(false);
    }
}

/// Law: within one pagination run the canonical names collide nowhere.
/// Two sheet artifacts of one deck that differ in side or page get
/// different names; the law for the shared back stands beside this one.
#[verifier::rlimit(100)]
pub proof fn lemma_sheet_names_collision_free(
    deck: Seq<char>,
    len: int,
    i: int,
    j: int,
    si: Side,
    sj: Side,
)
    requires
        0 < len <= 70 * 0xFFFF,
        0 <= i < spec_page_count(len),
        0 <= j < spec_page_count(len),
        i != j || si != sj,
    ensures
        crate::artifact::spec_artifact_name(
            deck,
            si,
            spec_sheet_content(len, i),
            spec_sheet_amount(len, i),
        ) != crate::artifact::spec_artifact_name(
            deck,
            sj,
            spec_sheet_content(len, j),
            spec_sheet_amount(len, j),
        ),
{
    let c1 = spec_sheet_content(len, i);
    let a1 = spec_sheet_amount(len, i);
    let c2 = spec_sheet_content(len, j);
    let a2 = spec_sheet_amount(len, j);
    if si != sj {
        lemma_names_differ_by_side(deck, si, c1, a1, sj, c2, a2);
    } else {
        // same side: the pages must differ, so the deck spans several pages
        assert(i != j);
        assert(len > 70) by {
            if len <= 70 {
                assert(spec_page_count(len) == 1);
            }
        }
        let n1 = crate::artifact::spec_artifact_name(deck, si, c1, a1);
        let n2 = crate::artifact::spec_artifact_name(deck, sj, c2, a2);
        if n1 == n2 {
            // cancel the common prefix up to the content label
            let head = deck + seq!['-'] + crate::artifact::spec_side_label(si) + seq!['-'];
            let tail1 = crate::artifact::spec_content_label(c1) + seq!['-']
                + crate::artifact::spec_amount_label(a1);
            let tail2 = crate::artifact::spec_content_label(c2) + seq!['-']
                + crate::artifact::spec_amount_label(a2);
            assert(n1 =~= head + tail1);
            assert(n2 =~= head + tail2);
            assert(tail1 =~= tail2) by {
                assert(tail1.len() == tail2.len());
                assert(forall|x: int|
                    0 <= x < tail1.len() ==> #[trigger] tail1[x] == (head + tail1)[head.len()
                        + x]);
                assert(forall|x: int|
                    0 <= x < tail2.len() ==> #[trigger] tail2[x] == (head + tail2)[head.len()
                        + x]);
            }
            // cancel the constant part of the sheet content label
            let t1 = spec_chunk_len(len, i) as nat;
            let t2 = spec_chunk_len(len, j) as nat;
            let fixed = seq!['r'] + crate::artifact::dec_digits(7) + seq!['c']
                + crate::artifact::dec_digits(10) + seq!['t'];
            let rest1 = seq!['-'] + crate::artifact::spec_amount_label(a1);
            let rest2 = seq!['-'] + crate::artifact::spec_amount_label(a2);
            assert(tail1 =~= fixed + (crate::artifact::dec_digits(t1) + rest1));
            assert(tail2 =~= fixed + (crate::artifact::dec_digits(t2) + rest2));
            let u1 = crate::artifact::dec_digits(t1) + rest1;
            let u2 = crate::artifact::dec_digits(t2) + rest2;
            assert(u1 =~= u2) by {
                assert(u1.len() == u2.len());
                assert(forall|x: int|
                    0 <= x < u1.len() ==> #[trigger] u1[x] == (fixed + u1)[fixed.len() + x]);
                assert(forall|x: int|
                    0 <= x < u2.len() ==> #[trigger] u2[x] == (fixed + u2)[fixed.len() + x]);
            }
            crate::artifact::lemma_dec_digits_shape(t1);
            crate::artifact::lemma_dec_digits_shape(t2);
            assert(!crate::dimensions::is_digit('-'));
            crate::artifact::lemma_digits_then_sep(
                crate::artifact::dec_digits(t1),
                rest1,
                crate::artifact::dec_digits(t2),
                rest2,
            );
            // the amount labels agree, so the page indices do
            let m1 = crate::artifact::spec_amount_label(a1);
            let m2 = crate::artifact::spec_amount_label(a2);
            assert(m1 =~= m2) by {
                assert(rest1 == rest2);
                assert(forall|x: int|
                    0 <= x < m1.len() ==> #[trigger] m1[x] == rest1[1 + x]);
                assert(forall|x: int|
                    0 <= x < m2.len() ==> #[trigger] m2[x] == rest2[1 + x]);
            }
            let of1 = seq!['o', 'f'] + crate::artifact::dec_digits(spec_page_count(len) as nat);
            assert(m1 =~= crate::artifact::dec_digits((i + 1) as nat) + of1);
            assert(m2 =~= crate::artifact::dec_digits((j + 1) as nat) + of1);
            crate::artifact::lemma_dec_digits_shape((i + 1) as nat);
            crate::artifact::lemma_dec_digits_shape((j + 1) as nat);
            assert(!crate::dimensions::is_digit('o'));
            crate::artifact::lemma_digits_then_sep(
                crate::artifact::dec_digits((i + 1) as nat),
                of1,
                crate::artifact::dec_digits((j + 1) as nat),
                of1,
            );
            crate::artifact::lemma_dec_digits_injective((i + 1) as nat, (j + 1) as nat);
            assert(false);
        }
    }
}

/// Law: the single back of a shared-back deck never shares a name with a
/// front sheet.
pub proof fn lemma_shared_back_name_distinct(deck: Seq<char>, len: int, i: int)
    requires
        0 <= i < spec_page_count(len),
    ensures
        crate::artifact::spec_artifact_name(deck, Side::Back, Content::Single, Amount::Single)
            != crate::artifact::spec_artifact_name(
            deck,
            Side::Front,
            spec_sheet_content(len, i),
            spec_sheet_amount(len, i),
        ),
{
    lemma_names_differ_by_side(
        deck,
        Side::Back,
        Content::Single,
        Amount::Single,
        Side::Front,
        spec_sheet_content(len, i),
        spec_sheet_amount(len, i),
    );
}

/// The order downstream consumers see artifacts in: `Single` before
/// `Multiple`, and `Multiple` by ascending page index.  Fronts and their
/// matching backs become adjacent.
pub open spec fn amount_le<Format>(a: Artifact<Format>, b: Artifact<Format>) -> bool {
    match (a.amount, b.amount) {
        (Amount::Single, _) => true,
        (Amount::Multiple { .. }, Amount::Single) => false,
        (Amount::Multiple { index: ia, .. }, Amount::Multiple { index: ib, .. }) => ia <= ib,
    }
}

/// `x` placed into `s` before the longest suffix of artifacts that do not
/// come at-or-before `x`; on sorted `s` a stable insertion.
pub open spec fn insert_by_amount<Format>(s: Seq<Artifact<Format>>, x: Artifact<Format>) -> Seq<
    Artifact<Format>,
>
    decreases s,
{
    if s.len() == 0 {
        seq![x]
    } else if amount_le(s.last(), x) {
        s.push(x)
    } else {
        insert_by_amount(s.drop_last(), x).push(s.last())
    }
}

/// Stable insertion sort of artifacts by amount.
pub open spec fn sort_by_amount<Format>(s: Seq<Artifact<Format>>) -> Seq<Artifact<Format>>
    decreases s,
{
    if s.len() == 0 {
        Seq::empty()
    } else {
        insert_by_amount(sort_by_amount(s.drop_last()), s.last())
    }
}

/// Whether a list of artifacts is in consumer order.
pub open spec fn sorted_by_amounts<Format>(s: Seq<Artifact<Format>>) -> bool {
    forall|i: int, j: int| 0 <= i < j < s.len() ==> amount_le(s[i], s[j])
}

/// Law: the consumer ordering is a stable sort — the ordered list is
/// sorted by amount and holds exactly the artifacts that went in.
pub proof fn lemma_sort_by_amount_props<Format>(s: Seq<Artifact<Format>>)
    ensures
        sorted_by_amounts(sort_by_amount(s)),
        sort_by_amount(s).len() == s.len(),
        forall|y: Artifact<Format>| #[trigger] sort_by_amount(s).contains(y) <==> s.contains(y),
    decreases s,
{
    if s.len() == 0 {
    } else {
        let d = s.drop_last();
        lemma_sort_by_amount_props(d);
        lemma_insert_by_amount_props(sort_by_amount(d), s.last());
        assert forall|y: Artifact<Format>| #[trigger] sort_by_amount(s).contains(y) implies s.contains(
            y,
        ) by {
            if sort_by_amount(d).contains(y) {
                let k = choose|k: int| 0 <= k < d.len() && d[k] == y;
                assert(s[k] == y);
            } else {
                assert(s[s.len() - 1] == y);
            }
        }
        assert forall|y: Artifact<Format>| s.contains(y) implies #[trigger] sort_by_amount(
            s,
        ).contains(y) by {
            let k = choose|k: int| 0 <= k < s.len() && s[k] == y;
            if k < s.len() - 1 {
                assert(d[k] == y);
            }
        }
    }
}

proof fn lemma_insert_by_amount_props<Format>(s: Seq<Artifact<Format>>, x: Artifact<Format>)
    requires
        sorted_by_amounts(s),
    ensures
        sorted_by_amounts(insert_by_amount(s, x)),
        insert_by_amount(s, x).len() == s.len() + 1,
        forall|y: Artifact<Format>|
            #[trigger] insert_by_amount(s, x).contains(y) <==> (s.contains(y) || y == x),
    decreases s,
{
    let r = insert_by_amount(s, x);
    if s.len() == 0 {
        assert forall|y: Artifact<Format>| #[trigger] r.contains(y) implies (s.contains(y) || y
            == x) by {
            assert(r[0] == x);
        }
        assert(r.contains(x)) by {
            assert(r[0] == x);
        }
    } else if amount_le(s.last(), x) {
        assert(r == s.push(x));
        assert forall|i: int, j: int| 0 <= i < j < r.len() implies amount_le(r[i], r[j]) by {
            if j == r.len() - 1 {
                if i < s.len() - 1 {
                    assert(amount_le(s[i], s[s.len() - 1]));
                }
                assert(amount_le(s.last(), x));
            }
        }
        assert forall|y: Artifact<Format>| #[trigger] r.contains(y) implies (s.contains(y) || y
            == x) by {
            let k = choose|k: int| 0 <= k < r.len() && r[k] == y;
            if k < s.len() {
                assert(s[k] == y);
            }
        }
        assert forall|y: Artifact<Format>| (s.contains(y) || y == x) implies #[trigger] r.contains(
            y,
        ) by {
            if s.contains(y) {
                let k = choose|k: int| 0 <= k < s.len() && s[k] == y;
                assert(r[k] == y);
            } else {
                assert(r[s.len() as int] == x);
            }
        }
    } else {
        let d = s.drop_last();
        assert(sorted_by_amounts(d)) by {
            assert(forall|i: int, j: int|
                0 <= i < j < d.len() ==> amount_le(#[trigger] d[i], #[trigger] d[j]));
        }
        lemma_insert_by_amount_props(d, x);
        let q = insert_by_amount(d, x);
        assert(r == q.push(s.last()));
        assert forall|i: int, j: int| 0 <= i < j < r.len() implies amount_le(r[i], r[j]) by {
            if j == r.len() - 1 {
                assert(q.contains(q[i]));
                if q[i] == x {
                    assert(!amount_le(s.last(), x));
                    assert(amount_le(x, s.last()) || amount_le(s.last(), x));
                } else {
                    assert(d.contains(q[i]));
                    let k = choose|k: int| 0 <= k < d.len() && d[k] == q[i];
                    assert(amount_le(s[k], s[s.len() - 1]));
                }
            }
        }
        assert forall|y: Artifact<Format>| #[trigger] r.contains(y) implies (s.contains(y) || y
            == x) by {
            let k = choose|k: int| 0 <= k < r.len() && r[k] == y;
            if k < q.len() {
                assert(q.contains(y));
                if y != x {
                    assert(d.contains(y));
                    let k2 = choose|k2: int| 0 <= k2 < d.len() && d[k2] == y;
                    assert(s[k2] == y);
                }
            } else {
                assert(y == s.last());
                assert(s[s.len() - 1] == y);
            }
        }
        assert forall|y: Artifact<Format>| (s.contains(y) || y == x) implies #[trigger] r.contains(
            y,
        ) by {
            if y == s.last() {
                assert(r[r.len() - 1] == y);
            } else if s.contains(y) {
                let k = choose|k: int| 0 <= k < s.len() && s[k] == y;
                if k < s.len() - 1 {
                    assert(d[k] == y);
                    assert(q.contains(y));
                    let k2 = choose|k2: int| 0 <= k2 < q.len() && q[k2] == y;
                    assert(r[k2] == y);
                } else {
                    assert(r[r.len() - 1] == y);
                }
            } else if y == x {
                assert(q.contains(x));
                let k2 = choose|k2: int| 0 <= k2 < q.len() && q[k2] == x;
                assert(r[k2] == x);
            }
        }
    }
}

fn amount_le_exec<Format>(a: &Artifact<Format>, b: &Artifact<Format>) -> (r: bool)
    ensures
        r == amount_le(*a, *b),
{
    match (&a.amount, &b.amount) {
        (Amount::Single, _) => true,
        (Amount::Multiple { .. }, Amount::Single) => false,
        (Amount::Multiple { index: ia, .. }, Amount::Multiple { index: ib, .. }) => ia <= ib,
    }
}

proof fn lemma_insert_by_amount_at<Format>(s: Seq<Artifact<Format>>, x: Artifact<Format>, j: int)
    requires
        0 <= j <= s.len(),
        j > 0 ==> amount_le(s[j - 1], x),
        forall|k: int| j <= k < s.len() ==> !amount_le(#[trigger] s[k], x),
    ensures
        insert_by_amount(s, x) == s.insert(j, x),
    decreases s,
{
    if s.len() == 0 {
        assert(s.insert(0, x) =~= seq![x]);
    } else if j == s.len() {
        assert(amount_le(s.last(), x));
        assert(s.insert(j, x) =~= s.push(x));
    } else {
        assert(!amount_le(s.last(), x));
        let d = s.drop_last();
        lemma_insert_by_amount_at(d, x, j);
        assert(d.insert(j, x).push(s.last()) =~= s.insert(j, x));
    }
}

/// Order a deck's artifacts for downstream consumers: stable, by amount,
/// so that same-shaped fronts and backs pair up adjacently.
pub fn order_artifacts<Format>(v: Vec<Artifact<Format>>) -> (r: Vec<Artifact<Format>>)
    ensures
        r@ == sort_by_amount(v@),
{
    let mut src = v;
    let mut out: Vec<Artifact<Format>> = Vec::new();
    let ghost all = src@;
    let ghost mut done: Seq<Artifact<Format>> = Seq::empty();
    proof {
        assert(done =~= all.subrange(0, 0));
        assert(out@ =~= sort_by_amount(done));
    }
    while src.len() > 0
        invariant
            done.len() + src@.len() == all.len(),
            done == all.subrange(0, done.len() as int),
            src@ == all.subrange(done.len() as int, all.len() as int),
            out@ == sort_by_amount(done),
        decreases src@.len(),
    {
        let ghost sb = src@;
        let a = src.remove(0);
        proof {
            assert(sb.remove(0) =~= sb.drop_first());
            assert(a == all[done.len() as int]);
        }
        let mut j = out.len();
        while j > 0 && !amount_le_exec(&out[j - 1], &a)
            invariant
                0 <= j <= out@.len(),
                forall|k: int| j <= k < out@.len() ==> !amount_le(#[trigger] out@[k], a),
            decreases j,
        {
            j = j - 1;
        }
        let ghost out_before = out@;
        out.insert(j, a);
        proof {
            lemma_insert_by_amount_at(out_before, a, j as int);
            let done2 = done.push(a);
            assert(done2 =~= all.subrange(0, done2.len() as int));
            assert(done2.drop_last() =~= done);
            assert(src@ =~= all.subrange(done2.len() as int, all.len() as int));
            done = done2;
        }
    }
    proof {
        assert(done =~= all);
    }
    out
}

} // verus!
