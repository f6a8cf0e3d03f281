//! The recursive rich-text model of a card and its flattening into plain
//! text plus style intervals.
use vstd::prelude::*;
use vstd::string::{StrSliceExecFns, StringExecFns};

verus! {

/// Fixed placeholder run that a `Blank` node renders as.
pub open spec fn blank_run() -> Seq<char> {
    seq!['_', '_', '_', '_']
}

/// Mathematical model of one markup node; text is a sequence of characters.
///
/// A `Font` size factor is held in thousandths of the base text size, so a
/// factor of one half is `500`.
pub enum MarkupModel {
    Plain(Seq<char>),
    Blank,
    Italic(Seq<MarkupModel>),
    Font { family: Option<Seq<char>>, size: Option<u32>, content: Seq<MarkupModel> },
    Tiny(Seq<MarkupModel>),
    Bottom(Seq<MarkupModel>),
    Unknown { tag: Seq<char>, attributes: Seq<(Seq<char>, Seq<char>)>, content: Seq<MarkupModel> },
}

/// One node of a card's rich-text tree.
///
/// `Bottom` routes its content to the card's footer region; it contributes
/// nothing to the main flattened body.  `Unknown` is an opaque passthrough
/// that keeps its tag and attributes for display but adds no styling.
#[derive(Debug, PartialEq)]
pub enum Markup {
    Plain(String),
    Blank,
    Italic(Vec<Markup>),
    Font { family: Option<String>, size: Option<u32>, content: Vec<Markup> },
    Tiny(Vec<Markup>),
    Bottom(Vec<Markup>),
    Unknown { tag: String, attributes: Vec<(String, String)>, content: Vec<Markup> },
}

/// A card is an ordered sequence of markup nodes.
#[derive(Debug, PartialEq)]
pub struct Card {
    pub content: Vec<Markup>,
}

pub open spec fn attr_views(attrs: Seq<(String, String)>) -> Seq<(Seq<char>, Seq<char>)> {
    attrs.map_values(|kv: (String, String)| (kv.0@, kv.1@))
}

/// The model of one exec markup node.
pub open spec fn markup_model(m: Markup) -> MarkupModel
    decreases m,
{
    match m {
        Markup::Plain(t) => MarkupModel::Plain(t@),
        Markup::Blank => MarkupModel::Blank,
        Markup::Italic(c) => MarkupModel::Italic(markup_models(c@)),
        Markup::Font { family, size, content } => MarkupModel::Font {
            family: match family {
                Option::Some(f) => Option::Some(f@),
                Option::None => Option::None,
            },
            size,
            content: markup_models(content@),
        },
        Markup::Tiny(c) => MarkupModel::Tiny(markup_models(c@)),
        Markup::Bottom(c) => MarkupModel::Bottom(markup_models(c@)),
        Markup::Unknown { tag, attributes, content } => MarkupModel::Unknown {
            tag: tag@,
            attributes: attr_views(attributes@),
            content: markup_models(content@),
        },
    }
}

/// The models of a sequence of exec markup nodes, in order.
pub open spec fn markup_models(ms: Seq<Markup>) -> Seq<MarkupModel>
    decreases ms,
{
    if ms.len() == 0 {
        Seq::empty()
    } else {
        markup_models(ms.drop_last()).push(markup_model(ms.last()))
    }
}

impl View for Markup {
    type V = MarkupModel;

    open spec fn view(&self) -> MarkupModel {
        markup_model(*self)
    }
}

impl View for Card {
    type V = Seq<MarkupModel>;

    open spec fn view(&self) -> Seq<MarkupModel> {
        markup_models(self.content@)
    }
}

pub broadcast proof fn lemma_markup_models_len(ms: Seq<Markup>)
    ensures
        #[trigger] markup_models(ms).len() == ms.len(),
    decreases ms,
{
    if ms.len() > 0 {
        lemma_markup_models_len(ms.drop_last());
    }
}

pub broadcast proof fn lemma_markup_models_index(ms: Seq<Markup>, i: int)
    requires
        0 <= i < ms.len(),
    ensures
        #[trigger] markup_models(ms)[i] == markup_model(ms[i]),
    decreases ms,
{
    lemma_markup_models_len(ms);
    if ms.len() > 0 {
        if i < ms.len() - 1 {
            lemma_markup_models_len(ms.drop_last());
            lemma_markup_models_index(ms.drop_last(), i);
        }
    }
}

/// The characters that count as whitespace when a card's edges are trimmed:
/// the Unicode white-space code points.
pub open spec fn is_ws(c: char) -> bool {
    c == ' ' || c == '\t' || c == '\n' || c == '\r' || c == '\u{000B}' || c == '\u{000C}'
        || c == '\u{0085}' || c == '\u{00A0}' || c == '\u{1680}' || c == '\u{2000}'
        || c == '\u{2001}' || c == '\u{2002}' || c == '\u{2003}' || c == '\u{2004}'
        || c == '\u{2005}' || c == '\u{2006}' || c == '\u{2007}' || c == '\u{2008}'
        || c == '\u{2009}' || c == '\u{200A}' || c == '\u{2028}' || c == '\u{2029}'
        || c == '\u{202F}' || c == '\u{205F}' || c == '\u{3000}'
}

pub(crate) fn is_ws_char(c: char) -> (r: bool)
    ensures
        r == is_ws(c),
{
    c == ' ' || c == '\t' || c == '\n' || c == '\r' || c == '\u{000B}' || c == '\u{000C}'
        || c == '\u{0085}' || c == '\u{00A0}' || c == '\u{1680}' || c == '\u{2000}'
        || c == '\u{2001}' || c == '\u{2002}' || c == '\u{2003}' || c == '\u{2004}'
        || c == '\u{2005}' || c == '\u{2006}' || c == '\u{2007}' || c == '\u{2008}'
        || c == '\u{2009}' || c == '\u{200A}' || c == '\u{2028}' || c == '\u{2029}'
        || c == '\u{202F}' || c == '\u{205F}' || c == '\u{3000}'
}

/// Text with its leading whitespace removed.
pub open spec fn trim_start_text(t: Seq<char>) -> Seq<char>
    decreases t,
{
    if t.len() == 0 {
        t
    } else if is_ws(t[0]) {
        trim_start_text(t.drop_first())
    } else {
        t
    }
}

/// Text with its trailing whitespace removed.
pub open spec fn trim_end_text(t: Seq<char>) -> Seq<char>
    decreases t,
{
    if t.len() == 0 {
        t
    } else if is_ws(t.last()) {
        trim_end_text(t.drop_last())
    } else {
        t
    }
}

pub(crate) proof fn lemma_trim_start_chars(t: Seq<char>, k: int)
    requires
        0 <= k <= t.len(),
        forall|j: int| 0 <= j < k ==> is_ws(t[j]),
        k < t.len() ==> !is_ws(t[k]),
    ensures
        trim_start_text(t) == t.subrange(k, t.len() as int),
    decreases k,
{
    if k == 0 {
        assert(t.subrange(0, t.len() as int) =~= t);
    } else {
        let d = t.drop_first();
        assert(forall|j: int| 0 <= j < k - 1 ==> is_ws(#[trigger] d[j]));
        lemma_trim_start_chars(d, k - 1);
        assert(d.subrange(k - 1, d.len() as int) =~= t.subrange(k, t.len() as int));
    }
}

pub(crate) proof fn lemma_trim_end_chars(t: Seq<char>, k: int)
    requires
        0 <= k <= t.len(),
        forall|j: int| k <= j < t.len() ==> is_ws(t[j]),
        k > 0 ==> !is_ws(t[k - 1]),
    ensures
        trim_end_text(t) == t.subrange(0, k),
    decreases t.len() - k,
{
    if k == t.len() {
        assert(t.subrange(0, t.len() as int) =~= t);
        if t.len() > 0 {
            assert(!is_ws(t.last()));
        }
    } else {
        let d = t.drop_last();
        assert(is_ws(t.last()));
        lemma_trim_end_chars(d, k);
        assert(d.subrange(0, k) =~= t.subrange(0, k));
    }
}

/// Owned copy of `s` with leading whitespace removed.
fn trimmed_start(s: &String) -> (r: String)
    ensures
        r@ == trim_start_text(s@),
{
    let n = s.as_str().unicode_len();
    let mut k: usize = 0;
    while k < n && is_ws_char(s.as_str().get_char(k))
        invariant
            0 <= k <= n,
            n == s@.len(),
            forall|j: int| 0 <= j < k ==> is_ws(s@[j]),
        decreases n - k,
    {
        k = k + 1;
    }
    let r = s.as_str().substring_char(k, n).to_owned();
    proof {
        lemma_trim_start_chars(s@, k as int);
    }
    r
}

/// Owned copy of `s` with trailing whitespace removed.
fn trimmed_end(s: &String) -> (r: String)
    ensures
        r@ == trim_end_text(s@),
{
    let n = s.as_str().unicode_len();
    let mut k: usize = n;
    while k > 0 && is_ws_char(s.as_str().get_char(k - 1))
        invariant
            0 <= k <= n,
            n == s@.len(),
            forall|j: int| k <= j < n ==> is_ws(s@[j]),
        decreases k,
    {
        k = k - 1;
    }
    let r = s.as_str().substring_char(0, k).to_owned();
    proof {
        lemma_trim_end_chars(s@, k as int);
    }
    r
}

/// A node with leading whitespace removed from its text, when it is plain
/// text; any other node is unchanged.
pub open spec fn trim_start_model(m: MarkupModel) -> MarkupModel {
    match m {
        MarkupModel::Plain(t) => MarkupModel::Plain(trim_start_text(t)),
        _ => m,
    }
}

/// A node with trailing whitespace removed from its text, when it is plain
/// text; any other node is unchanged.
pub open spec fn trim_end_model(m: MarkupModel) -> MarkupModel {
    match m {
        MarkupModel::Plain(t) => MarkupModel::Plain(trim_end_text(t)),
        _ => m,
    }
}

/// Whether a node is empty after cleanup: empty plain text, or a container
/// with no children.  A `Blank` is never empty.
pub open spec fn is_empty_model(m: MarkupModel) -> bool {
    match m {
        MarkupModel::Plain(t) => t.len() == 0,
        MarkupModel::Blank => false,
        MarkupModel::Italic(c) => c.len() == 0,
        MarkupModel::Font { content, .. } => content.len() == 0,
        MarkupModel::Tiny(c) => c.len() == 0,
        MarkupModel::Bottom(c) => c.len() == 0,
        MarkupModel::Unknown { content, .. } => content.len() == 0,
    }
}

/// The first node start-trimmed and the last node end-trimmed; a sequence of
/// one node gets both.
pub open spec fn trim_edges(s: Seq<MarkupModel>) -> Seq<MarkupModel> {
    if s.len() == 0 {
        s
    } else {
        let a = s.update(0, trim_start_model(s[0]));
        a.update(a.len() - 1, trim_end_model(a[a.len() - 1]))
    }
}

/// A `Bottom` node with the edges of its own content trimmed; any other node
/// is unchanged.
pub open spec fn bottom_trim_model(m: MarkupModel) -> MarkupModel {
    match m {
        MarkupModel::Bottom(c) => MarkupModel::Bottom(trim_edges(c)),
        _ => m,
    }
}

/// Every node bottom-trimmed, in order.
pub open spec fn bottom_trimmed(s: Seq<MarkupModel>) -> Seq<MarkupModel> {
    s.map_values(|m: MarkupModel| bottom_trim_model(m))
}

/// The leading edge settled: start-trim the first node, and while that
/// leaves it empty, drop it and start over with the newly exposed first
/// node.
pub open spec fn drop_start(s: Seq<MarkupModel>) -> Seq<MarkupModel>
    decreases s,
{
    if s.len() == 0 {
        s
    } else {
        let h = trim_start_model(s[0]);
        if is_empty_model(h) {
            drop_start(s.drop_first())
        } else {
            s.update(0, h)
        }
    }
}

/// The trailing edge settled, symmetrically: end-trim the last node, and
/// while that leaves it empty, drop it and start over.
pub open spec fn drop_end(s: Seq<MarkupModel>) -> Seq<MarkupModel>
    decreases s,
{
    if s.len() == 0 {
        s
    } else {
        let l = trim_end_model(s.last());
        if is_empty_model(l) {
            drop_end(s.drop_last())
        } else {
            s.update(s.len() - 1, l)
        }
    }
}

/// The subsequence of non-empty nodes, in order.
pub open spec fn keep_nonempty(s: Seq<MarkupModel>) -> Seq<MarkupModel>
    decreases s,
{
    if s.len() == 0 {
        Seq::empty()
    } else {
        let rest = keep_nonempty(s.drop_last());
        if is_empty_model(s.last()) {
            rest
        } else {
            rest.push(s.last())
        }
    }
}

/// What `Card::cleanup` leaves of a card's content: every `Bottom` node's
/// own edges trimmed, whitespace trimmed off both ends of the card — with
/// a node the trimming empties dropped and the newly exposed edge trimmed
/// in turn — and the remaining empty nodes removed.
pub open spec fn cleanup_model(s: Seq<MarkupModel>) -> Seq<MarkupModel> {
    keep_nonempty(drop_end(drop_start(bottom_trimmed(s))))
}

impl Markup {
    /// Whether this node would be dropped by cleanup.
    pub fn is_empty(&self) -> (r: bool)
        ensures
            r == is_empty_model(self@),
    {
        proof {
            broadcast use lemma_markup_models_len;

        }
        match self {
            Markup::Plain(t) => t.as_str().is_empty(),
            Markup::Blank => false,
            Markup::Italic(c) => c.len() == 0,
            Markup::Font { content, .. } => content.len() == 0,
            Markup::Tiny(c) => c.len() == 0,
            Markup::Bottom(c) => c.len() == 0,
            Markup::Unknown { content, .. } => content.len() == 0,
        }
    }

    /// Remove leading whitespace from a plain-text node.
    pub fn trim_start(&mut self)
        ensures
            final(self)@ == trim_start_model(old(self)@),
    {
        let mut tmp = Markup::Blank;
        core::mem::swap(self, &mut tmp);
        tmp = match tmp {
            Markup::Plain(t) => Markup::Plain(trimmed_start(&t)),
            other => other,
        };
        core::mem::swap(self, &mut tmp);
    }

    /// Remove trailing whitespace from a plain-text node.
    pub fn trim_end(&mut self)
        ensures
            final(self)@ == trim_end_model(old(self)@),
    {
        let mut tmp = Markup::Blank;
        core::mem::swap(self, &mut tmp);
        tmp = match tmp {
            Markup::Plain(t) => Markup::Plain(trimmed_end(&t)),
            other => other,
        };
        core::mem::swap(self, &mut tmp);
    }
}

/// A node with the edges of its `Bottom` content trimmed.
fn bottom_trim(m: Markup) -> (r: Markup)
    ensures
        r@ == bottom_trim_model(m@),
{
    match m {
        Markup::Bottom(mut inner) => {
            let ghost orig = inner@;
            if inner.len() > 0 {
                let mut x = inner.remove(0);
                x.trim_start();
                inner.insert(0, x);
                let li = inner.len() - 1;
                let mut y = inner.remove(li);
                y.trim_end();
                inner.push(y);
                proof {
                    broadcast use lemma_markup_models_len, lemma_markup_models_index;

                    let s = markup_models(orig);
                    let a = s.update(0, trim_start_model(s[0]));
                    let t = a.update(a.len() - 1, trim_end_model(a[a.len() - 1]));
                    assert(markup_models(inner@) =~= t) by {
                        lemma_markup_models_len(orig);
                        lemma_markup_models_len(inner@);
                        assert forall|i: int| 0 <= i < inner@.len() implies markup_models(
                            inner@,
                        )[i] == t[i] by {
                            lemma_markup_models_index(inner@, i);
                            lemma_markup_models_index(orig, i);
                        }
                    }
                }
            }
            Markup::Bottom(inner)
        },
        other => other,
    }
}

impl Card {
    /// Trim edge whitespace at the top level of the card and inside its
    /// `Bottom` nodes, dropping an edge node the trimming empties and
    /// trimming the newly exposed edge in turn, and drop the nodes that end
    /// up empty.  This runs once after parsing, before any layout, and a
    /// second run changes nothing.
    pub fn cleanup(&mut self)
        ensures
            final(self)@ == cleanup_model(old(self)@),
    {
        let mut work: Vec<Markup> = Vec::new();
        core::mem::swap(&mut self.content, &mut work);
        let ghost morig = markup_models(work@);

        // trim the edges inside every Bottom node
        let mut b: Vec<Markup> = Vec::new();
        let ghost worig = work@;
        proof {
            lemma_markup_models_len(worig);
            assert(markup_models(b@) =~= bottom_trimmed(morig).subrange(0, 0));
        }
        let n = work.len();
        let mut i: usize = 0;
        while i < n
            invariant
                n == worig.len(),
                morig == markup_models(worig),
                morig.len() == n,
                0 <= i <= n,
                work@ == worig.subrange(i as int, n as int),
                markup_models(b@) == bottom_trimmed(morig).subrange(0, i as int),
            decreases n - i,
        {
            let ghost bb = b@;
            let m = work.remove(0);
            proof {
                assert(worig.subrange(i as int, n as int).drop_first() =~= worig.subrange(
                    i as int + 1,
                    n as int,
                ));
                lemma_markup_models_index(worig, i as int);
            }
            let m = bottom_trim(m);
            b.push(m);
            proof {
                assert(b@.drop_last() =~= bb);
                assert(markup_models(b@) =~= bottom_trimmed(morig).subrange(0, i as int + 1));
            }
            i = i + 1;
        }
        proof {
            assert(bottom_trimmed(morig).subrange(0, n as int) =~= bottom_trimmed(morig));
        }

        // settle the leading edge
        let ghost ds_target = drop_start(bottom_trimmed(morig));
        let mut start_done = false;
        while !start_done && b.len() > 0
            invariant
                !start_done ==> drop_start(markup_models(b@)) == ds_target,
                start_done ==> markup_models(b@) == ds_target,
            decreases b@.len(), (if start_done { 0int } else { 1int }),
        {
            let ghost before = markup_models(b@);
            proof {
                lemma_markup_models_len(b@);
            }
            let ghost bfull = b@;
            let mut x = b.remove(0);
            proof {
                assert(bfull.remove(0) =~= bfull.drop_first());
                lemma_markup_models_index(bfull, 0);
                assert(markup_models(bfull.drop_first()) =~= before.drop_first()) by {
                    lemma_markup_models_len(bfull.drop_first());
                    assert forall|k: int|
                        0 <= k < bfull.drop_first().len() implies markup_models(
                        bfull.drop_first(),
                    )[k] == before.drop_first()[k] by {
                        lemma_markup_models_index(bfull.drop_first(), k);
                        lemma_markup_models_index(bfull, k + 1);
                    }
                }
            }
            x.trim_start();
            if x.is_empty() {
                proof {
                    assert(drop_start(before) == drop_start(before.drop_first()));
                }
            } else {
                let ghost xm = x@;
                b.insert(0, x);
                start_done = true;
                proof {
                    assert(drop_start(before) == before.update(0, xm));
                    assert(markup_models(b@) =~= before.update(0, xm)) by {
                        lemma_markup_models_len(b@);
                        lemma_markup_models_len(bfull.drop_first());
                        assert(b@ =~= bfull.drop_first().insert(0, x));
                        assert forall|k: int|
                            0 <= k < b@.len() implies markup_models(b@)[k] == before.update(
                            0,
                            xm,
                        )[k] by {
                            lemma_markup_models_index(b@, k);
                            if k > 0 {
                                lemma_markup_models_index(bfull, k);
                            }
                        }
                    }
                }
            }
        }
        proof {
            if !start_done {
                assert(b@.len() == 0);
                assert(markup_models(b@) =~= Seq::<MarkupModel>::empty());
                assert(drop_start(markup_models(b@)) == markup_models(b@));
            }
            assert(markup_models(b@) == ds_target);
        }

        // settle the trailing edge
        let ghost de_target = drop_end(ds_target);
        let mut end_done = false;
        while !end_done && b.len() > 0
            invariant
                !end_done ==> drop_end(markup_models(b@)) == de_target,
                end_done ==> markup_models(b@) == de_target,
            decreases b@.len(), (if end_done { 0int } else { 1int }),
        {
            let ghost before = markup_models(b@);
            proof {
                lemma_markup_models_len(b@);
            }
            let ghost bfull = b@;
            let mut y = match b.pop() {
                Option::Some(y) => y,
                Option::None => {
                    proof {
                        assert(false);
                    }
                    Markup::Blank
                },
            };
            proof {
                assert(b@ =~= bfull.drop_last());
                assert(y@ == before.last()) by {
                    lemma_markup_models_index(bfull, bfull.len() - 1);
                }
                assert(before.drop_last() =~= markup_models(bfull.drop_last()));
            }
            y.trim_end();
            if y.is_empty() {
                proof {
                    assert(drop_end(before) == drop_end(before.drop_last()));
                }
            } else {
                let ghost ym = y@;
                b.push(y);
                end_done = true;
                proof {
                    assert(drop_end(before) == before.update(before.len() - 1, ym));
                    assert(markup_models(b@) =~= before.update(before.len() - 1, ym)) by {
                        lemma_markup_models_len(b@);
                        lemma_markup_models_len(bfull.drop_last());
                        assert forall|k: int|
                            0 <= k < b@.len() implies markup_models(b@)[k] == before.update(
                            before.len() - 1,
                            ym,
                        )[k] by {
                            lemma_markup_models_index(b@, k);
                            if k < b@.len() - 1 {
                                lemma_markup_models_index(bfull, k);
                            }
                        }
                    }
                }
            }
        }
        proof {
            if !end_done {
                assert(b@.len() == 0);
                assert(markup_models(b@) =~= Seq::<MarkupModel>::empty());
                assert(drop_end(markup_models(b@)) == markup_models(b@));
            }
            assert(markup_models(b@) == de_target);
        }

        // drop the remaining empty nodes
        let ghost settled = markup_models(b@);
        let ghost bsettled = b@;
        proof {
            lemma_markup_models_len(bsettled);
        }
        let nk = b.len();
        let mut out: Vec<Markup> = Vec::new();
        let mut j: usize = 0;
        while j < nk
            invariant
                nk == bsettled.len(),
                settled == markup_models(bsettled),
                settled.len() == nk,
                0 <= j <= nk,
                b@ == bsettled.subrange(j as int, nk as int),
                markup_models(out@) == keep_nonempty(settled.subrange(0, j as int)),
            decreases nk - j,
        {
            let m = b.remove(0);
            proof {
                assert(bsettled.subrange(j as int, nk as int).drop_first() =~= bsettled.subrange(
                    j as int + 1,
                    nk as int,
                ));
                lemma_markup_models_index(bsettled, j as int);
            }
            let keep = !m.is_empty();
            let ghost out_before = out@;
            let ghost mm = m@;
            if keep {
                out.push(m);
            }
            proof {
                let p = settled.subrange(0, j as int);
                let q = settled.subrange(0, j as int + 1);
                assert(q.drop_last() =~= p);
                assert(q.last() == mm);
                if keep {
                    assert(out@.drop_last() =~= out_before);
                    assert(markup_models(out@) == markup_models(out_before).push(mm));
                }
                assert(markup_models(out@) == keep_nonempty(q));
            }
            j = j + 1;
        }
        proof {
            assert(settled.subrange(0, nk as int) =~= settled);
        }
        self.content = out;
    }
}

/// A style carried by an annotation.  A `Size` factor is in thousandths of
/// the base text size.
#[derive(Debug, PartialEq, Clone)]
pub enum Style {
    Italic,
    Font(String),
    Size(u32),
}

/// Model of a style.
pub enum StyleModel {
    Italic,
    Font(Seq<char>),
    Size(u32),
}

/// A style over a half-open range of character positions of the flattened
/// text.  Positions count characters, not bytes: the text's model is a
/// character sequence, and a renderer that needs byte offsets converts at
/// its boundary.  Overlapping and nested annotations are all retained; a
/// renderer applies every annotation whose range covers a character.
#[derive(Debug, PartialEq, Clone)]
pub struct StyleAnnotation {
    pub start: usize,
    pub end: usize,
    pub style: Style,
}

/// Model of a style annotation, over unbounded positions.
pub struct AnnModel {
    pub start: int,
    pub end: int,
    pub style: StyleModel,
}

impl View for Style {
    type V = StyleModel;

    open spec fn view(&self) -> StyleModel {
        match self {
            Style::Italic => StyleModel::Italic,
            Style::Font(f) => StyleModel::Font(f@),
            Style::Size(s) => StyleModel::Size(*s),
        }
    }
}

impl View for StyleAnnotation {
    type V = AnnModel;

    open spec fn view(&self) -> AnnModel {
        AnnModel { start: self.start as int, end: self.end as int, style: self.style@ }
    }
}

/// The models of a list of annotations, in order.
pub open spec fn ann_views(s: Seq<StyleAnnotation>) -> Seq<AnnModel> {
    s.map_values(|a: StyleAnnotation| a@)
}

/// The flattened body text of one node.  Plain text is kept verbatim, a
/// `Blank` is the fixed placeholder run, containers contribute their
/// children's text, and a `Bottom` node contributes nothing.
pub open spec fn text_of(m: MarkupModel) -> Seq<char>
    decreases m,
{
    match m {
        MarkupModel::Plain(t) => t,
        MarkupModel::Blank => blank_run(),
        MarkupModel::Italic(c) => text_of_seq(c),
        MarkupModel::Font { content, .. } => text_of_seq(content),
        MarkupModel::Tiny(c) => text_of_seq(c),
        MarkupModel::Bottom(_) => Seq::empty(),
        MarkupModel::Unknown { content, .. } => text_of_seq(content),
    }
}

/// The flattened body text of a node sequence, concatenated in order.
pub open spec fn text_of_seq(ms: Seq<MarkupModel>) -> Seq<char>
    decreases ms,
{
    if ms.len() == 0 {
        Seq::empty()
    } else {
        text_of(ms[0]) + text_of_seq(ms.drop_first())
    }
}

/// The annotations of one node whose text starts at position `base` of the
/// flattened output: first the annotations of its children, and after them
/// the node's own span.  `Italic` adds an italic span; `Tiny` a half-size
/// span; `Font` a family span and a size span for whichever parts it has;
/// `Unknown` and the leaves add nothing.
pub open spec fn anns_of(m: MarkupModel, base: int) -> Seq<AnnModel>
    decreases m,
{
    match m {
        MarkupModel::Plain(_) => Seq::empty(),
        MarkupModel::Blank => Seq::empty(),
        MarkupModel::Italic(c) => anns_of_seq(c, base).push(
            AnnModel { start: base, end: base + text_of_seq(c).len(), style: StyleModel::Italic },
        ),
        MarkupModel::Font { family, size, content } => {
            let span_end = base + text_of_seq(content).len();
            let with_family = match family {
                Option::Some(f) => anns_of_seq(content, base).push(
                    AnnModel { start: base, end: span_end, style: StyleModel::Font(f) },
                ),
                Option::None => anns_of_seq(content, base),
            };
            match size {
                Option::Some(sz) => with_family.push(
                    AnnModel { start: base, end: span_end, style: StyleModel::Size(sz) },
                ),
                Option::None => with_family,
            }
        },
        MarkupModel::Tiny(c) => anns_of_seq(c, base).push(
            AnnModel {
                start: base,
                end: base + text_of_seq(c).len(),
                style: StyleModel::Size(500),
            },
        ),
        MarkupModel::Bottom(_) => Seq::empty(),
        MarkupModel::Unknown { content, .. } => anns_of_seq(content, base),
    }
}

/// The annotations of a node sequence whose text starts at `base`, collected
/// left to right at cumulative offsets.
pub open spec fn anns_of_seq(ms: Seq<MarkupModel>, base: int) -> Seq<AnnModel>
    decreases ms,
{
    if ms.len() == 0 {
        Seq::empty()
    } else {
        anns_of(ms[0], base) + anns_of_seq(ms.drop_first(), base + text_of(ms[0]).len())
    }
}

fn push_ann(annotations: &mut Vec<StyleAnnotation>, a: StyleAnnotation)
    ensures
        ann_views(final(annotations)@) == ann_views(old(annotations)@).push(a@),
{
    let ghost before = annotations@;
    let ghost av = a@;
    annotations.push(a);
    proof {
        assert(annotations@.drop_last() =~= before);
        assert(ann_views(annotations@) =~= ann_views(before).push(av));
    }
}

impl Card {
    /// Append the flattened text of `content` to `render` and its style
    /// annotations, at offsets into the grown text, to `annotations`.
    /// Annotations arrive in collection order; the callers sort them.
    fn styled_segments(
        content: &Vec<Markup>,
        render: &mut String,
        annotations: &mut Vec<StyleAnnotation>,
    )
        ensures
            final(render)@ == old(render)@ + text_of_seq(markup_models(content@)),
            ann_views(final(annotations)@) == ann_views(old(annotations)@) + anns_of_seq(
                markup_models(content@),
                old(render)@.len() as int,
            ),
        decreases content,
    {
        let ghost models = markup_models(content@);
        let ghost base0 = old(render)@.len() as int;
        proof {
            lemma_markup_models_len(content@);
        }
        let n = content.len();
        let mut i: usize = 0;
        let ghost mut done_text: Seq<char> = Seq::empty();
        let ghost mut done_anns: Seq<AnnModel> = Seq::empty();
        proof {
            assert(models.skip(0) =~= models);
            assert(render@ =~= old(render)@ + done_text);
            assert(ann_views(annotations@) =~= ann_views(old(annotations)@) + done_anns);
        }
        while i < n
            invariant
                n == content@.len(),
                models == markup_models(content@),
                models.len() == n,
                base0 == old(render)@.len() as int,
                0 <= i <= n,
                render@ == old(render)@ + done_text,
                done_text + text_of_seq(models.skip(i as int)) == text_of_seq(models),
                ann_views(annotations@) == ann_views(old(annotations)@) + done_anns,
                done_anns + anns_of_seq(models.skip(i as int), base0 + done_text.len()) == anns_of_seq(
                    models,
                    base0,
                ),
            decreases n - i,
        {
            let ghost mi = models[i as int];
            let ghost base_i = base0 + done_text.len();
            proof {
                lemma_markup_models_index(content@, i as int);
                assert(models.skip(i as int)[0] == mi);
                assert(models.skip(i as int).drop_first() =~= models.skip(i as int + 1));
            }
            let ghost entry_anns = ann_views(annotations@);
            let m = &content[i];
            match m {
                Markup::Plain(t) => {
                    render.append(t.as_str());
                },
                Markup::Blank => {
                    render.append("____");
                    proof {
                        reveal_strlit("____");
                        assert("____"@ =~= blank_run());
                    }
                },
                Markup::Bottom(_) => {},
                Markup::Italic(c) => {
                    let start = render.as_str().unicode_len();
                    Card::styled_segments(c, render, annotations);
                    let end = render.as_str().unicode_len();
                    push_ann(annotations, StyleAnnotation { start, end, style: Style::Italic });
                    proof {
                        let child = anns_of_seq(markup_models(c@), base_i);
                        assert(ann_views(annotations@) =~= entry_anns + anns_of(mi, base_i)) by {
                            assert((entry_anns + child).push(
                                AnnModel {
                                    start: base_i,
                                    end: base_i + text_of_seq(markup_models(c@)).len(),
                                    style: StyleModel::Italic,
                                },
                            ) =~= entry_anns + anns_of(mi, base_i));
                        }
                    }
                },
                Markup::Tiny(c) => {
                    let start = render.as_str().unicode_len();
                    Card::styled_segments(c, render, annotations);
                    let end = render.as_str().unicode_len();
                    push_ann(annotations, StyleAnnotation { start, end, style: Style::Size(500) });
                    proof {
                        let child = anns_of_seq(markup_models(c@), base_i);
                        assert(ann_views(annotations@) =~= entry_anns + anns_of(mi, base_i)) by {
                            assert((entry_anns + child).push(
                                AnnModel {
                                    start: base_i,
                                    end: base_i + text_of_seq(markup_models(c@)).len(),
                                    style: StyleModel::Size(500),
                                },
                            ) =~= entry_anns + anns_of(mi, base_i));
                        }
                    }
                },
                Markup::Font { family, size, content: c } => {
                    let start = render.as_str().unicode_len();
                    Card::styled_segments(c, render, annotations);
                    let end = render.as_str().unicode_len();
                    let ghost span_end = base_i + text_of_seq(markup_models(c@)).len();
                    let ghost child = anns_of_seq(markup_models(c@), base_i);
                    if let Option::Some(f) = family {
                        push_ann(
                            annotations,
                            StyleAnnotation { start, end, style: Style::Font(f.clone()) },
                        );
                    }
                    let ghost with_family = ann_views(annotations@);
                    if let Option::Some(sz) = size {
                        push_ann(
                            annotations,
                            StyleAnnotation { start, end, style: Style::Size(*sz) },
                        );
                    }
                    proof {
                        assert(ann_views(annotations@) =~= entry_anns + anns_of(mi, base_i)) by {
                            match family {
                                Option::Some(f) => {
                                    assert(with_family =~= (entry_anns + child).push(
                                        AnnModel {
                                            start: base_i,
                                            end: span_end,
                                            style: StyleModel::Font(f@),
                                        },
                                    ));
                                    assert(with_family =~= entry_anns + child.push(
                                        AnnModel {
                                            start: base_i,
                                            end: span_end,
                                            style: StyleModel::Font(f@),
                                        },
                                    ));
                                },
                                Option::None => {
                                    assert(with_family =~= entry_anns + child);
                                },
                            }
                            match size {
                                Option::Some(sz) => {
                                    let own = AnnModel {
                                        start: base_i,
                                        end: span_end,
                                        style: StyleModel::Size(*sz),
                                    };
                                    assert(ann_views(annotations@) =~= with_family.push(own));
                                    assert(forall|s: Seq<AnnModel>, t: Seq<AnnModel>, x: AnnModel|
                                        (s + t).push(x) =~= s + t.push(x));
                                },
                                Option::None => {},
                            }
                        }
                    }
                },
                Markup::Unknown { content: c, .. } => {
                    Card::styled_segments(c, render, annotations);
                },
            }
            proof {
                done_text = done_text + text_of(mi);
                done_anns = done_anns + anns_of(mi, base_i);
                assert(render@ =~= old(render)@ + done_text);
                assert(ann_views(annotations@) =~= ann_views(old(annotations)@) + done_anns);
                assert(done_text + text_of_seq(models.skip(i as int + 1)) =~= text_of_seq(models));
                assert(done_anns + anns_of_seq(models.skip(i as int + 1), base_i + text_of(
                    mi,
                ).len()) =~= anns_of_seq(models, base0));
            }
            i = i + 1;
        }
        proof {
            assert(models.skip(n as int) =~= Seq::<MarkupModel>::empty());
            assert(render@ =~= old(render)@ + text_of_seq(models));
            assert(ann_views(annotations@) =~= ann_views(old(annotations)@) + anns_of_seq(
                models,
                base0,
            ));
        }
    }
}

/// The order annotations are kept in: by start ascending, ties by end
/// ascending.  Annotations with equal ranges are not ordered further; the
/// sort is stable, so they keep their collection order.
pub open spec fn ann_le(a: AnnModel, b: AnnModel) -> bool {
    a.start < b.start || (a.start == b.start && a.end <= b.end)
}

/// Whether a list of annotations is sorted by (start, end) ascending.
pub open spec fn sorted_anns(s: Seq<AnnModel>) -> bool {
    forall|i: int, j: int| 0 <= i < j < s.len() ==> ann_le(s[i], s[j])
}

/// `x` placed into `s` before the longest suffix of elements that do not
/// come at-or-before `x`; on a sorted `s` this is a stable insertion.
pub open spec fn insert_sorted(s: Seq<AnnModel>, x: AnnModel) -> Seq<AnnModel>
    decreases s,
{
    if s.len() == 0 {
        seq![x]
    } else if ann_le(s.last(), x) {
        s.push(x)
    } else {
        insert_sorted(s.drop_last(), x).push(s.last())
    }
}

/// Stable insertion sort of annotations by (start, end).
pub open spec fn sort_anns(s: Seq<AnnModel>) -> Seq<AnnModel>
    decreases s,
{
    if s.len() == 0 {
        Seq::empty()
    } else {
        insert_sorted(sort_anns(s.drop_last()), s.last())
    }
}

proof fn lemma_insert_sorted_at(s: Seq<AnnModel>, x: AnnModel, j: int)
    requires
        0 <= j <= s.len(),
        j > 0 ==> ann_le(s[j - 1], x),
        forall|k: int| j <= k < s.len() ==> !ann_le(s[k], x),
    ensures
        insert_sorted(s, x) == s.insert(j, x),
    decreases s,
{
    if s.len() == 0 {
        assert(s.insert(0, x) =~= seq![x]);
    } else if j == s.len() {
        assert(ann_le(s.last(), x));
        assert(s.insert(j, x) =~= s.push(x));
    } else {
        assert(!ann_le(s.last(), x));
        let d = s.drop_last();
        lemma_insert_sorted_at(d, x, j);
        assert(d.insert(j, x).push(s.last()) =~= s.insert(j, x));
    }
}

proof fn lemma_insert_sorted_props(s: Seq<AnnModel>, x: AnnModel)
    requires
        sorted_anns(s),
    ensures
        sorted_anns(insert_sorted(s, x)),
        insert_sorted(s, x).len() == s.len() + 1,
        forall|y: AnnModel|
            #[trigger] insert_sorted(s, x).contains(y) <==> (s.contains(y) || y == x),
    decreases s,
{
    let r = insert_sorted(s, x);
    if s.len() == 0 {
        assert forall|y: AnnModel| #[trigger] r.contains(y) implies (s.contains(y) || y == x) by {
            assert(r[0] == x);
        }
        assert(r.contains(x)) by {
            assert(r[0] == x);
        }
    } else if ann_le(s.last(), x) {
        assert(r == s.push(x));
        assert forall|i: int, j: int| 0 <= i < j < r.len() implies ann_le(r[i], r[j]) by {
            if j < s.len() {
            } else {
                if i < s.len() - 1 {
                    assert(ann_le(s[i], s[s.len() - 1]));
                }
                assert(ann_le(s.last(), x));
            }
        }
        assert forall|y: AnnModel| #[trigger] r.contains(y) implies (s.contains(y) || y == x) by {
            let k = choose|k: int| 0 <= k < r.len() && r[k] == y;
            if k < s.len() {
                assert(s[k] == y);
            }
        }
        assert forall|y: AnnModel| (s.contains(y) || y == x) implies #[trigger] r.contains(y) by {
            if s.contains(y) {
                let k = choose|k: int| 0 <= k < s.len() && s[k] == y;
                assert(r[k] == y);
            } else {
                assert(r[s.len() as int] == x);
            }
        }
    } else {
        let d = s.drop_last();
        assert(sorted_anns(d)) by {
            assert(forall|i: int, j: int|
                0 <= i < j < d.len() ==> ann_le(#[trigger] d[i], #[trigger] d[j]));
        }
        lemma_insert_sorted_props(d, x);
        let q = insert_sorted(d, x);
        assert(r == q.push(s.last()));
        // everything in q is at-or-before s.last()
        assert forall|i: int, j: int| 0 <= i < j < r.len() implies ann_le(r[i], r[j]) by {
            if j == r.len() - 1 {
                assert(q.contains(q[i]));
                if q[i] == x {
                    assert(!ann_le(s.last(), x));
                    assert(ann_le(x, s.last()) || ann_le(s.last(), x));
                } else {
                    assert(d.contains(q[i]));
                    let k = choose|k: int| 0 <= k < d.len() && d[k] == q[i];
                    assert(ann_le(s[k], s[s.len() - 1]));
                }
            }
        }
        assert forall|y: AnnModel| #[trigger] r.contains(y) implies (s.contains(y) || y == x) by {
            let k = choose|k: int| 0 <= k < r.len() && r[k] == y;
            if k < q.len() {
                assert(q.contains(y));
                if y != x {
                    assert(d.contains(y));
                    let k2 = choose|k2: int| 0 <= k2 < d.len() && d[k2] == y;
                    assert(s[k2] == y);
                }
            } else {
                assert(y == s.last());
            }
        }
        assert forall|y: AnnModel| (s.contains(y) || y == x) implies #[trigger] r.contains(y) by {
            if y == s.last() {
                assert(r[r.len() - 1] == y);
            } else if s.contains(y) {
                let k = choose|k: int| 0 <= k < s.len() && s[k] == y;
                if k < s.len() - 1 {
                    assert(d[k] == y);
                    assert(q.contains(y));
                    let k2 = choose|k2: int| 0 <= k2 < q.len() && q[k2] == y;
                    assert(r[k2] == y);
                } else {
                    assert(r[r.len() - 1] == y);
                }
            } else if y == x {
                assert(q.contains(x));
                let k2 = choose|k2: int| 0 <= k2 < q.len() && q[k2] == x;
                assert(r[k2] == x);
            }
        }
    }
}

/// The sorted annotation list holds the same annotations as the collected
/// one, now ordered by (start, end).
pub proof fn lemma_sort_anns_props(s: Seq<AnnModel>)
    ensures
        sorted_anns(sort_anns(s)),
        sort_anns(s).len() == s.len(),
        forall|y: AnnModel| #[trigger] sort_anns(s).contains(y) <==> s.contains(y),
    decreases s,
{
    if s.len() == 0 {
    } else {
        let d = s.drop_last();
        lemma_sort_anns_props(d);
        lemma_insert_sorted_props(sort_anns(d), s.last());
        assert forall|y: AnnModel| #[trigger] sort_anns(s).contains(y) implies s.contains(y) by {
            if sort_anns(d).contains(y) {
                let k = choose|k: int| 0 <= k < d.len() && d[k] == y;
                assert(s[k] == y);
            } else {
                assert(s[s.len() - 1] == y);
            }
        }
        assert forall|y: AnnModel| s.contains(y) implies #[trigger] sort_anns(s).contains(y) by {
            let k = choose|k: int| 0 <= k < s.len() && s[k] == y;
            if k < s.len() - 1 {
                assert(d[k] == y);
            }
        }
    }
}

fn ann_le_exec(a: &StyleAnnotation, b: &StyleAnnotation) -> (r: bool)
    ensures
        r == ann_le(a@, b@),
{
    a.start < b.start || (a.start == b.start && a.end <= b.end)
}

/// Sort annotations by (start, end) ascending, keeping the relative order of
/// annotations whose ranges are equal.
fn sort_annotations(v: Vec<StyleAnnotation>) -> (r: Vec<StyleAnnotation>)
    ensures
        ann_views(r@) == sort_anns(ann_views(v@)),
{
    let ghost all = ann_views(v@);
    let mut src = v;
    let mut out: Vec<StyleAnnotation> = Vec::new();
    let ghost mut done: Seq<AnnModel> = Seq::empty();
    proof {
        assert(done =~= all.subrange(0, 0));
        assert(ann_views(out@) =~= sort_anns(done));
    }
    while src.len() > 0
        invariant
            all == ann_views(v@),
            done.len() + src@.len() == all.len(),
            done == all.subrange(0, done.len() as int),
            ann_views(src@) == all.subrange(done.len() as int, all.len() as int),
            ann_views(out@) == sort_anns(done),
        decreases src@.len(),
    {
        let ghost sb = src@;
        let a = src.remove(0);
        let ghost av = a@;
        proof {
            assert(sb.remove(0) =~= sb.drop_first());
            assert(av == ann_views(sb)[0]);
            assert(av == all[done.len() as int]);
            assert(ann_views(src@) =~= ann_views(sb).drop_first());
        }
        let mut j = out.len();
        while j > 0 && !ann_le_exec(&out[j - 1], &a)
            invariant
                0 <= j <= out@.len(),
                av == a@,
                forall|k: int| j <= k < out@.len() ==> !ann_le(ann_views(out@)[k], av),
            decreases j,
        {
            j = j - 1;
        }
        let ghost out_before = ann_views(out@);
        out.insert(j, a);
        proof {
            lemma_insert_sorted_at(out_before, av, j as int);
            assert(ann_views(out@) =~= out_before.insert(j as int, av));
            let done2 = done.push(av);
            assert(done2 =~= all.subrange(0, done2.len() as int));
            assert(done2.drop_last() =~= done);
            assert(ann_views(src@) =~= all.subrange(done2.len() as int, all.len() as int));
            done = done2;
        }
    }
    proof {
        assert(done =~= all);
    }
    out
}

impl Card {
    /// The card's main body as plain text plus sorted style annotations,
    /// ready for a renderer.  `None` when the card is empty or starts with a
    /// `Bottom` node.
    pub fn annotated_top(&self) -> (r: Option<(String, Vec<StyleAnnotation>)>)
        ensures
            match r {
                Option::None => self@.len() == 0 || self@[0] is Bottom,
                Option::Some((t, anns)) => self@.len() > 0 && !(self@[0] is Bottom) && t@
                    == text_of_seq(self@) && ann_views(anns@) == sort_anns(
                    anns_of_seq(self@, 0),
                ),
            },
    {
        proof {
            lemma_markup_models_len(self.content@);
        }
        if self.content.len() == 0 {
            Option::None
        } else {
            proof {
                lemma_markup_models_index(self.content@, 0);
            }
            let bottom_first = match &self.content[0] {
                Markup::Bottom(_) => true,
                _ => false,
            };
            if bottom_first {
                Option::None
            } else {
                let mut render = String::new();
                let mut anns: Vec<StyleAnnotation> = Vec::new();
                Card::styled_segments(&self.content, &mut render, &mut anns);
                let anns = sort_annotations(anns);
                proof {
                    assert(Seq::<char>::empty() + text_of_seq(self@) =~= text_of_seq(self@));
                    assert(ann_views(Seq::<StyleAnnotation>::empty()) =~= Seq::<AnnModel>::empty());
                    assert(Seq::<AnnModel>::empty() + anns_of_seq(self@, 0) =~= anns_of_seq(
                        self@,
                        0,
                    ));
                }
                Option::Some((render, anns))
            }
        }
    }

    /// The card's footer as plain text plus sorted style annotations, taken
    /// from a trailing `Bottom` node.  `None` when there is no such node: a
    /// missing footer, not an empty one.
    pub fn annotated_bottom(&self) -> (r: Option<(String, Vec<StyleAnnotation>)>)
        ensures
            match r {
                Option::None => self@.len() == 0 || !(self@.last() is Bottom),
                Option::Some((t, anns)) => self@.len() > 0 && (self@.last() matches
                    MarkupModel::Bottom(c) && t@ == text_of_seq(c) && ann_views(anns@) == sort_anns(
                    anns_of_seq(c, 0),
                )),
            },
    {
        proof {
            lemma_markup_models_len(self.content@);
        }
        if self.content.len() == 0 {
            Option::None
        } else {
            let n = self.content.len();
            proof {
                lemma_markup_models_index(self.content@, n - 1);
            }
            match &self.content[n - 1] {
                Markup::Bottom(c) => {
                    let mut render = String::new();
                    let mut anns: Vec<StyleAnnotation> = Vec::new();
                    Card::styled_segments(c, &mut render, &mut anns);
                    let anns = sort_annotations(anns);
                    proof {
                        let cm = markup_models(c@);
                        assert(Seq::<char>::empty() + text_of_seq(cm) =~= text_of_seq(cm));
                        assert(ann_views(Seq::<StyleAnnotation>::empty())
                            =~= Seq::<AnnModel>::empty());
                        assert(Seq::<AnnModel>::empty() + anns_of_seq(cm, 0) =~= anns_of_seq(
                            cm,
                            0,
                        ));
                    }
                    Option::Some((render, anns))
                },
                _ => Option::None,
            }
        }
    }
}

/// The human-readable display of an attribute list: space, key, `="`, value,
/// closing quote, for each attribute in order.
pub open spec fn attrs_disp(attrs: Seq<(Seq<char>, Seq<char>)>) -> Seq<char>
    decreases attrs,
{
    if attrs.len() == 0 {
        Seq::empty()
    } else {
        seq![' '] + attrs[0].0 + seq!['=', '"'] + attrs[0].1 + seq!['"'] + attrs_disp(
            attrs.drop_first(),
        )
    }
}

/// The human-readable display of one node.  Not meant to be parsed back: a
/// `Blank` shows as the placeholder run, `Italic` and `Tiny` are wrapped in
/// single asterisks, a `Bottom` is preceded by a blank line, and `Unknown`
/// is wrapped in its original tag with reconstructed attributes.
pub open spec fn display_of(m: MarkupModel) -> Seq<char>
    decreases m,
{
    match m {
        MarkupModel::Plain(t) => t,
        MarkupModel::Blank => blank_run(),
        MarkupModel::Italic(c) => seq!['*'] + display_of_seq(c) + seq!['*'],
        MarkupModel::Font { content, .. } => display_of_seq(content),
        MarkupModel::Tiny(c) => seq!['*'] + display_of_seq(c) + seq!['*'],
        MarkupModel::Bottom(c) => seq!['\n', '\n'] + display_of_seq(c),
        MarkupModel::Unknown { tag, attributes, content } => seq!['<'] + tag + attrs_disp(
            attributes,
        ) + seq!['>'] + display_of_seq(content) + seq!['<', '/'] + tag + seq!['>'],
    }
}

/// The display of a node sequence, concatenated in order.
pub open spec fn display_of_seq(ms: Seq<MarkupModel>) -> Seq<char>
    decreases ms,
{
    if ms.len() == 0 {
        Seq::empty()
    } else {
        display_of(ms[0]) + display_of_seq(ms.drop_first())
    }
}

/// Append the display of `content` to `out`.
fn render_into(content: &Vec<Markup>, out: &mut String)
    ensures
        final(out)@ == old(out)@ + display_of_seq(markup_models(content@)),
    decreases content,
{
    let ghost models = markup_models(content@);
    proof {
        lemma_markup_models_len(content@);
    }
    let n = content.len();
    let mut i: usize = 0;
    let ghost mut done: Seq<char> = Seq::empty();
    proof {
        assert(models.skip(0) =~= models);
        assert(out@ =~= old(out)@ + done);
    }
    while i < n
        invariant
            n == content@.len(),
            models == markup_models(content@),
            models.len() == n,
            0 <= i <= n,
            out@ == old(out)@ + done,
            done + display_of_seq(models.skip(i as int)) == display_of_seq(models),
        decreases n - i,
    {
        let ghost mi = models[i as int];
        proof {
            lemma_markup_models_index(content@, i as int);
            assert(models.skip(i as int)[0] == mi);
            assert(models.skip(i as int).drop_first() =~= models.skip(i as int + 1));
        }
        let m = &content[i];
        match m {
            Markup::Plain(t) => {
                out.append(t.as_str());
            },
            Markup::Blank => {
                out.append("____");
                proof {
                    reveal_strlit("____");
                    assert("____"@ =~= blank_run());
                }
            },
            Markup::Italic(c) => {
                out.append("*");
                render_into(c, out);
                out.append("*");
                proof {
                    reveal_strlit("*");
                    assert("*"@ =~= seq!['*']);
                    assert(out@ =~= old(out)@ + (done + display_of(mi)));
                }
            },
            Markup::Tiny(c) => {
                out.append("*");
                render_into(c, out);
                out.append("*");
                proof {
                    reveal_strlit("*");
                    assert("*"@ =~= seq!['*']);
                    assert(out@ =~= old(out)@ + (done + display_of(mi)));
                }
            },
            Markup::Font { content: c, .. } => {
                render_into(c, out);
                proof {
                    assert(out@ =~= old(out)@ + (done + display_of(mi)));
                }
            },
            Markup::Bottom(c) => {
                out.append("\n\n");
                render_into(c, out);
                proof {
                    reveal_strlit("\n\n");
                    assert("\n\n"@ =~= seq!['\n', '\n']);
                    assert(out@ =~= old(out)@ + (done + display_of(mi)));
                }
            },
            Markup::Unknown { tag, attributes, content: c } => {
                out.append("<");
                out.append(tag.as_str());
                let na = attributes.len();
                let mut j: usize = 0;
                let ghost attrs = attr_views(attributes@);
                let ghost head = out@;
                let ghost mut adone: Seq<char> = Seq::empty();
                proof {
                    assert(attrs.skip(0) =~= attrs);
                    assert(out@ =~= head + adone);
                }
                while j < na
                    invariant
                        na == attributes@.len(),
                        attrs == attr_views(attributes@),
                        attrs.len() == na,
                        0 <= j <= na,
                        out@ == head + adone,
                        adone + attrs_disp(attrs.skip(j as int)) == attrs_disp(attrs),
                    decreases na - j,
                {
                    let kv = &attributes[j];
                    out.append(" ");
                    out.append(kv.0.as_str());
                    out.append("=\"");
                    out.append(kv.1.as_str());
                    out.append("\"");
                    proof {
                        reveal_strlit(" ");
                        reveal_strlit("=\"");
                        reveal_strlit("\"");
                        assert(" "@ =~= seq![' ']);
                        assert("=\""@ =~= seq!['=', '"']);
                        assert("\""@ =~= seq!['"']);
                        assert(attrs.skip(j as int)[0] == attrs[j as int]);
                        assert(attrs[j as int] == (attributes@[j as int].0@, attributes@[j as int].1@));
                        assert(attrs.skip(j as int).drop_first() =~= attrs.skip(j as int + 1));
                        adone = adone + seq![' '] + attrs[j as int].0 + seq!['=', '"']
                            + attrs[j as int].1 + seq!['"'];
                        assert(out@ =~= head + adone);
                        assert(adone + attrs_disp(attrs.skip(j as int + 1)) =~= attrs_disp(attrs));
                    }
                    j = j + 1;
                }
                proof {
                    assert(attrs.skip(na as int) =~= Seq::<(Seq<char>, Seq<char>)>::empty());
                }
                out.append(">");
                render_into(c, out);
                out.append("</");
                out.append(tag.as_str());
                out.append(">");
                proof {
                    reveal_strlit("<");
                    reveal_strlit(">");
                    reveal_strlit("</");
                    assert("<"@ =~= seq!['<']);
                    assert(">"@ =~= seq!['>']);
                    assert("</"@ =~= seq!['<', '/']);
                    assert(out@ =~= old(out)@ + (done + display_of(mi)));
                }
            },
        }
        proof {
            done = done + display_of(mi);
            assert(out@ =~= old(out)@ + done);
            assert(done + display_of_seq(models.skip(i as int + 1)) =~= display_of_seq(models));
        }
        i = i + 1;
    }
    proof {
        assert(models.skip(n as int) =~= Seq::<MarkupModel>::empty());
        assert(out@ =~= old(out)@ + display_of_seq(models));
    }
}

impl Card {
    /// The card rendered with human-readable markup; not meant to be parsed
    /// back into a card.
    pub fn rendered(&self) -> (r: String)
        ensures
            r@ == display_of_seq(self@),
    {
        let mut out = String::new();
        render_into(&self.content, &mut out);
        proof {
            assert(Seq::<char>::empty() + display_of_seq(self@) =~= display_of_seq(self@));
        }
        out
    }
}

proof fn lemma_anns_of_bounds(m: MarkupModel, base: int)
    ensures
        forall|a: AnnModel|
            #[trigger] anns_of(m, base).contains(a) ==> base <= a.start <= a.end <= base + text_of(
                m,
            ).len(),
    decreases m,
{
    match m {
        MarkupModel::Plain(_) => {},
        MarkupModel::Blank => {},
        MarkupModel::Bottom(_) => {},
        MarkupModel::Italic(c) => {
            lemma_anns_of_seq_bounds(c, base);
            assert forall|a: AnnModel| #[trigger] anns_of(m, base).contains(a) implies base
                <= a.start <= a.end <= base + text_of(m).len() by {
                let q = anns_of_seq(c, base);
                let k = choose|k: int| 0 <= k < anns_of(m, base).len() && anns_of(m, base)[k] == a;
                if k < q.len() {
                    assert(q.contains(a));
                }
            }
        },
        MarkupModel::Tiny(c) => {
            lemma_anns_of_seq_bounds(c, base);
            assert forall|a: AnnModel| #[trigger] anns_of(m, base).contains(a) implies base
                <= a.start <= a.end <= base + text_of(m).len() by {
                let q = anns_of_seq(c, base);
                let k = choose|k: int| 0 <= k < anns_of(m, base).len() && anns_of(m, base)[k] == a;
                if k < q.len() {
                    assert(q.contains(a));
                }
            }
        },
        MarkupModel::Font { family, size, content } => {
            lemma_anns_of_seq_bounds(content, base);
            assert forall|a: AnnModel| #[trigger] anns_of(m, base).contains(a) implies base
                <= a.start <= a.end <= base + text_of(m).len() by {
                let q = anns_of_seq(content, base);
                let k = choose|k: int| 0 <= k < anns_of(m, base).len() && anns_of(m, base)[k] == a;
                if k < q.len() {
                    assert(q.contains(a));
                }
            }
        },
        MarkupModel::Unknown { content, .. } => {
            lemma_anns_of_seq_bounds(content, base);
            assert forall|a: AnnModel| #[trigger] anns_of(m, base).contains(a) implies base
                <= a.start <= a.end <= base + text_of(m).len() by {
                assert(anns_of_seq(content, base).contains(a));
            }
        },
    }
}

proof fn lemma_anns_of_seq_bounds(ms: Seq<MarkupModel>, base: int)
    ensures
        forall|a: AnnModel|
            #[trigger] anns_of_seq(ms, base).contains(a) ==> base <= a.start <= a.end <= base
                + text_of_seq(ms).len(),
    decreases ms,
{
    if ms.len() > 0 {
        let head = anns_of(ms[0], base);
        let tail = anns_of_seq(ms.drop_first(), base + text_of(ms[0]).len());
        lemma_anns_of_bounds(ms[0], base);
        lemma_anns_of_seq_bounds(ms.drop_first(), base + text_of(ms[0]).len());
        assert forall|a: AnnModel| #[trigger] anns_of_seq(ms, base).contains(a) implies base
            <= a.start <= a.end <= base + text_of_seq(ms).len() by {
            let k = choose|k: int|
                0 <= k < anns_of_seq(ms, base).len() && anns_of_seq(ms, base)[k] == a;
            if k < head.len() {
                assert(head.contains(a));
            } else {
                assert(tail[k - head.len()] == a);
                assert(tail.contains(a));
            }
        }
    }
}

/// Law: for every markup tree, the flattened style annotations are sorted
/// ascending by (start, end), and every annotation's range lies within
/// `[0, len(text)]` of the flattened text.
pub proof fn lemma_flatten_sorted_and_bounded(content: Seq<MarkupModel>)
    ensures
        sorted_anns(sort_anns(anns_of_seq(content, 0))),
        forall|a: AnnModel|
            #[trigger] sort_anns(anns_of_seq(content, 0)).contains(a) ==> 0 <= a.start <= a.end
                <= text_of_seq(content).len(),
{
    lemma_sort_anns_props(anns_of_seq(content, 0));
    lemma_anns_of_seq_bounds(content, 0);
}

proof fn lemma_trim_start_shape(t: Seq<char>)
    ensures
        trim_start_text(t).len() == 0 || !is_ws(trim_start_text(t)[0]),
        trim_start_text(t).len() > 0 ==> trim_start_text(t).last() == t.last(),
    decreases t,
{
    if t.len() > 0 && is_ws(t[0]) {
        lemma_trim_start_shape(t.drop_first());
    }
}

proof fn lemma_trim_end_shape(t: Seq<char>)
    ensures
        trim_end_text(t).len() == 0 || !is_ws(trim_end_text(t).last()),
        trim_end_text(t).len() > 0 ==> trim_end_text(t)[0] == t[0],
    decreases t,
{
    if t.len() > 0 && is_ws(t.last()) {
        lemma_trim_end_shape(t.drop_last());
    }
}

/// The fully trimmed text is a fixpoint of both trims.
proof fn lemma_trim_fixpoint(t: Seq<char>)
    ensures
        trim_start_text(trim_start_text(t)) == trim_start_text(t),
        trim_end_text(trim_end_text(t)) == trim_end_text(t),
        trim_start_text(trim_end_text(trim_start_text(t))) == trim_end_text(trim_start_text(t)),
        trim_end_text(trim_end_text(trim_start_text(t))) == trim_end_text(trim_start_text(t)),
{
    lemma_trim_start_shape(t);
    lemma_trim_end_shape(t);
    lemma_trim_end_shape(trim_start_text(t));
    let p = trim_end_text(trim_start_text(t));
    if p.len() > 0 {
        assert(p[0] == trim_start_text(t)[0]);
    }
}

/// Trimming the edges of a `Bottom` node's content is idempotent.
proof fn lemma_bottom_trim_idem(m: MarkupModel)
    ensures
        bottom_trim_model(bottom_trim_model(m)) == bottom_trim_model(m),
{
    match m {
        MarkupModel::Bottom(c) => {
            let e = trim_edges(c);
            if c.len() > 0 {
                assert(e.len() == c.len());
                assert forall|i: int| 0 <= i < e.len() implies trim_edges(e)[i] == e[i] by {
                    if c.len() == 1 {
                        match c[0] {
                            MarkupModel::Plain(t) => {
                                lemma_trim_fixpoint(t);
                            },
                            _ => {},
                        }
                    } else if i == 0 {
                        match c[0] {
                            MarkupModel::Plain(t) => {
                                lemma_trim_fixpoint(t);
                            },
                            _ => {},
                        }
                    } else if i == e.len() - 1 {
                        match c[c.len() - 1] {
                            MarkupModel::Plain(t) => {
                                lemma_trim_fixpoint(t);
                            },
                            _ => {},
                        }
                    }
                }
                assert(trim_edges(e) =~= e);
            } else {
                assert(trim_edges(e) == e);
            }
        },
        _ => {},
    }
}

proof fn lemma_keep_nonempty_props(t: Seq<MarkupModel>)
    ensures
        forall|j: int|
            0 <= j < keep_nonempty(t).len() ==> !is_empty_model(#[trigger] keep_nonempty(t)[j]),
        forall|y: MarkupModel| #[trigger] keep_nonempty(t).contains(y) ==> t.contains(y),
        keep_nonempty(t).len() <= t.len(),
        (t.len() > 0 && !is_empty_model(t[0])) ==> (keep_nonempty(t).len() > 0 && keep_nonempty(
            t,
        )[0] == t[0]),
        (t.len() > 0 && !is_empty_model(t.last())) ==> (keep_nonempty(t).len() > 0 && keep_nonempty(
            t,
        ).last() == t.last()),
        (t.len() >= 2 && !is_empty_model(t[0]) && !is_empty_model(t.last())) ==> keep_nonempty(
            t,
        ).len() >= 2,
        (forall|j: int| 0 <= j < t.len() ==> !is_empty_model(#[trigger] t[j])) ==> keep_nonempty(t)
            =~= t,
    decreases t,
{
    if t.len() > 0 {
        let d = t.drop_last();
        lemma_keep_nonempty_props(d);
        let rest = keep_nonempty(d);
        if d.len() > 0 && !is_empty_model(d[0]) {
            assert(t[0] == d[0]);
        }
        assert forall|y: MarkupModel| #[trigger] keep_nonempty(t).contains(y) implies t.contains(
            y,
        ) by {
            let k = choose|k: int|
                0 <= k < keep_nonempty(t).len() && keep_nonempty(t)[k] == y;
            if k < rest.len() {
                assert(rest.contains(y));
                let k2 = choose|k2: int| 0 <= k2 < d.len() && d[k2] == y;
                assert(t[k2] == y);
            } else {
                assert(y == t.last());
                assert(t[t.len() - 1] == y);
            }
        }
        if forall|j: int| 0 <= j < t.len() ==> !is_empty_model(#[trigger] t[j]) {
            assert(forall|j: int| 0 <= j < d.len() ==> !is_empty_model(#[trigger] d[j]));
            assert(keep_nonempty(t) =~= t);
        }
    }
}

/// Trimming one end of a node keeps it a bottom-trim fixpoint.
proof fn lemma_trim_keeps_bottom_fix(m: MarkupModel)
    requires
        bottom_trim_model(m) == m,
    ensures
        bottom_trim_model(trim_start_model(m)) == trim_start_model(m),
        bottom_trim_model(trim_end_model(m)) == trim_end_model(m),
{
}

/// One end-trim of a node is as good as two.
proof fn lemma_trim_start_model_idem(m: MarkupModel)
    ensures
        trim_start_model(trim_start_model(m)) == trim_start_model(m),
{
    match m {
        MarkupModel::Plain(t) => {
            lemma_trim_fixpoint(t);
        },
        _ => {},
    }
}

proof fn lemma_trim_end_model_idem(m: MarkupModel)
    ensures
        trim_end_model(trim_end_model(m)) == trim_end_model(m),
{
    match m {
        MarkupModel::Plain(t) => {
            lemma_trim_fixpoint(t);
        },
        _ => {},
    }
}

/// Text whose first character is no whitespace keeps it through an
/// end-trim, and stays non-empty.
proof fn lemma_trim_end_keeps_head(t: Seq<char>)
    requires
        t.len() > 0,
        !is_ws(t[0]),
    ensures
        trim_end_text(t).len() > 0,
        trim_end_text(t)[0] == t[0],
    decreases t,
{
    if is_ws(t.last()) {
        lemma_trim_end_keeps_head(t.drop_last());
    }
}

/// End-trimming a start-trimmed, non-empty node leaves it non-empty and
/// still start-trimmed.
proof fn lemma_end_after_start(m: MarkupModel)
    requires
        trim_start_model(m) == m,
        !is_empty_model(m),
    ensures
        !is_empty_model(trim_end_model(m)),
        trim_start_model(trim_end_model(m)) == trim_end_model(m),
{
    match m {
        MarkupModel::Plain(t) => {
            lemma_trim_start_shape(t);
            assert(!is_ws(t[0]));
            lemma_trim_end_keeps_head(t);
        },
        _ => {},
    }
}

/// What settling the leading edge guarantees: the result is a tail of the
/// input whose first node is the start-trimmed image of the dropped-to
/// node, non-empty and a start-trim fixpoint; the nodes after it are the
/// input's own.
proof fn lemma_drop_start_props(s: Seq<MarkupModel>)
    ensures
        drop_start(s).len() <= s.len(),
        drop_start(s).len() > 0 ==> (drop_start(s)[0] == trim_start_model(
            s[s.len() - drop_start(s).len()],
        ) && !is_empty_model(drop_start(s)[0]) && trim_start_model(drop_start(s)[0])
            == drop_start(s)[0]),
        forall|i: int|
            1 <= i < drop_start(s).len() ==> #[trigger] drop_start(s)[i] == s[s.len()
                - drop_start(s).len() + i],
    decreases s,
{
    if s.len() > 0 {
        let h = trim_start_model(s[0]);
        if is_empty_model(h) {
            lemma_drop_start_props(s.drop_first());
            assert(forall|i: int|
                1 <= i < drop_start(s).len() ==> #[trigger] drop_start(s)[i] == s.drop_first()[
                    s.drop_first().len() - drop_start(s).len() + i]);
        } else {
            lemma_trim_start_model_idem(s[0]);
            assert(forall|i: int|
                1 <= i < s.update(0, h).len() ==> #[trigger] s.update(0, h)[i] == s[i]);
        }
    }
}

/// What settling the trailing edge guarantees, symmetrically.
proof fn lemma_drop_end_props(s: Seq<MarkupModel>)
    ensures
        drop_end(s).len() <= s.len(),
        forall|i: int| 0 <= i < drop_end(s).len() - 1 ==> #[trigger] drop_end(s)[i] == s[i],
        drop_end(s).len() > 0 ==> (drop_end(s).last() == trim_end_model(
            s[drop_end(s).len() - 1],
        ) && !is_empty_model(drop_end(s).last()) && trim_end_model(drop_end(s).last())
            == drop_end(s).last()),
    decreases s,
{
    if s.len() > 0 {
        let l = trim_end_model(s.last());
        if is_empty_model(l) {
            lemma_drop_end_props(s.drop_last());
        } else {
            lemma_trim_end_model_idem(s.last());
        }
    }
}

/// Law: cleanup is idempotent — applying it twice yields the same card as
/// applying it once.
pub proof fn lemma_cleanup_idempotent(s: Seq<MarkupModel>)
    ensures
        cleanup_model(cleanup_model(s)) == cleanup_model(s),
{
    let b0 = bottom_trimmed(s);
    let d = drop_start(b0);
    let t = drop_end(d);
    let r = keep_nonempty(t);
    lemma_drop_start_props(b0);
    lemma_drop_end_props(d);
    lemma_keep_nonempty_props(t);

    // every node of the once-cleaned card is a bottom-trim fixpoint
    assert forall|j: int| 0 <= j < b0.len() implies bottom_trim_model(#[trigger] b0[j])
        == b0[j] by {
        lemma_bottom_trim_idem(s[j]);
    }
    assert forall|j: int| 0 <= j < d.len() implies bottom_trim_model(#[trigger] d[j]) == d[j] by {
        let k = b0.len() - d.len();
        if j == 0 {
            lemma_trim_keeps_bottom_fix(b0[k]);
        }
    }
    assert forall|j: int| 0 <= j < t.len() implies bottom_trim_model(#[trigger] t[j]) == t[j] by {
        if j == t.len() - 1 {
            lemma_trim_keeps_bottom_fix(d[j]);
        }
    }

    if t.len() == 0 {
        assert(r =~= Seq::<MarkupModel>::empty());
        assert(bottom_trimmed(r) =~= r);
        assert(cleanup_model(r) =~= r);
    } else {
        // the once-settled first node is non-empty and start-trimmed
        assert(!is_empty_model(t[0]) && trim_start_model(t[0]) == t[0]) by {
            if t.len() >= 2 {
                assert(t[0] == d[0]);
            } else {
                assert(t[0] == t.last());
                assert(t.last() == trim_end_model(d[0]));
                lemma_end_after_start(d[0]);
            }
        }
        assert(r.len() > 0 && r[0] == t[0]);
        assert(r.last() == t.last());

        // the kept nodes are nodes of the settled list, so they are all
        // bottom-trim fixpoints
        assert forall|j: int| 0 <= j < r.len() implies bottom_trim_model(#[trigger] r[j])
            == r[j] by {
            assert(r.contains(r[j]));
            assert(t.contains(r[j]));
            let k = choose|k: int| 0 <= k < t.len() && t[k] == r[j];
            assert(bottom_trim_model(t[k]) == t[k]);
        }
        assert(bottom_trimmed(r) =~= r);

        // the second pass settles nothing further
        assert(drop_start(r) =~= r) by {
            assert(trim_start_model(r[0]) == r[0]);
            assert(!is_empty_model(trim_start_model(r[0])));
            assert(drop_start(r) == r.update(0, trim_start_model(r[0])));
            assert(r.update(0, r[0]) =~= r);
        }
        assert(drop_end(r) =~= r) by {
            assert(trim_end_model(r.last()) == r.last());
            assert(!is_empty_model(trim_end_model(r.last())));
            assert(drop_end(r) == r.update(r.len() - 1, trim_end_model(r.last())));
            assert(r.update(r.len() - 1, r.last()) =~= r);
        }
        lemma_keep_nonempty_props(r);
        assert(keep_nonempty(r) =~= r);
        assert(cleanup_model(r) == r);
    }
}

} // verus!
