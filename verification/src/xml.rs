//! Reading a deck document.  The XML front end is roxmltree, consumed as
//! "produces a node tree from text": one trusted pass hands the document
//! over as a plain tree under the name `raw_tree_of`, and everything the
//! nodes mean — tag dispatch, attribute validation, card selection, the
//! footer convention and cleanup — is decided and verified over that
//! tree, so the deck a document reads to is pinned end to end.
use vstd::prelude::*;
use vstd::string::{StrSliceExecFns, StringExecFns};

use crate::dimensions::{pow10, spec_parse_decimal, trim_both};
use crate::error::Kind;
use crate::markup::{Card, Markup};
use crate::Backside;

verus! {

/// Whether a deck renders on the light or the dark theme.
#[derive(Clone, Copy, Debug, PartialEq, Eq, Structural)]
pub enum Theme {
    Light,
    Dark,
}

impl Default for Theme {
    /// A deck without a `theme` attribute renders light.
    fn default() -> (r: Self)
        ensures
            r == Theme::Light,
    {
        Theme::Light
    }
}

/// A deck: its name, its cards in order, and how it is rendered.
#[derive(Debug, PartialEq)]
pub struct Deck {
    pub name: String,
    pub cards: Vec<Card>,
    pub theme: Theme,
    pub back: Backside,
}

/// Whether two pieces of text hold the same characters.
pub fn str_eq(a: &str, b: &str) -> (r: bool)
    ensures
        r == (a@ == b@),
{
    let n = a.unicode_len();
    let m = b.unicode_len();
    if n != m {
        return false;
    }
    let mut i: usize = 0;
    while i < n
        invariant
            0 <= i <= n,
            n == a@.len(),
            n == b@.len(),
            forall|j: int| 0 <= j < i ==> a@[j] == b@[j],
        decreases n - i,
    {
        if a.get_char(i) != b.get_char(i) {
            return false;
        }
        i = i + 1;
    }
    proof {
        assert(a@ =~= b@);
    }
    true
}

/// The accepted spellings of the light theme.
pub open spec fn is_light_attr(v: Seq<char>) -> bool {
    v == "light"@ || v == "Light"@ || v == "LIGHT"@
}

/// The accepted spellings of the dark theme.
pub open spec fn is_dark_attr(v: Seq<char>) -> bool {
    v == "dark"@ || v == "Dark"@ || v == "DARK"@
}

/// The `theme` attribute's error: names the tag, the attribute, the given
/// value and the allowed set.
pub open spec fn theme_error_matches(k: Kind, v: Seq<char>) -> bool {
    &&& k matches Kind::InvalidAttributeValue { tag, attribute, value, allowed }
    &&& k->tag@ == "deck"@
    &&& k->attribute@ == "theme"@
    &&& k->value@ == v
    &&& k->allowed@.len() == 2
    &&& k->allowed@[0]@ == "light"@
    &&& k->allowed@[1]@ == "dark"@
}

/// Validate a deck's `theme` attribute value.
pub fn theme_from_attr(v: &str) -> (r: Result<Theme, Kind>)
    ensures
        is_light_attr(v@) ==> r == Result::<Theme, Kind>::Ok(Theme::Light),
        is_dark_attr(v@) ==> r == Result::<Theme, Kind>::Ok(Theme::Dark),
        (!is_light_attr(v@) && !is_dark_attr(v@)) ==> (r matches Result::Err(k)
            && theme_error_matches(k, v@)),
{
    proof {
        reveal_strlit("light");
        reveal_strlit("Light");
        reveal_strlit("LIGHT");
        reveal_strlit("dark");
        reveal_strlit("Dark");
        reveal_strlit("DARK");
        assert("light"@.len() == 5 && "Light"@.len() == 5 && "LIGHT"@.len() == 5);
        assert("dark"@.len() == 4 && "Dark"@.len() == 4 && "DARK"@.len() == 4);
    }
    if str_eq(v, "light") || str_eq(v, "Light") || str_eq(v, "LIGHT") {
        Result::Ok(Theme::Light)
    } else if str_eq(v, "dark") || str_eq(v, "Dark") || str_eq(v, "DARK") {
        Result::Ok(Theme::Dark)
    } else {
        let mut allowed: Vec<String> = Vec::new();
        allowed.push(String::from_str("light"));
        allowed.push(String::from_str("dark"));
        Result::Err(
            Kind::InvalidAttributeValue {
                tag: String::from_str("deck"),
                attribute: String::from_str("theme"),
                value: String::from_str(v),
                allowed,
            },
        )
    }
}

/// The `back` attribute's error: names the tag, the attribute, the given
/// value and the allowed set.
pub open spec fn back_error_matches(k: Kind, v: Seq<char>) -> bool {
    &&& k matches Kind::InvalidAttributeValue { tag, attribute, value, allowed }
    &&& k->tag@ == "deck"@
    &&& k->attribute@ == "back"@
    &&& k->value@ == v
    &&& k->allowed@.len() == 2
    &&& k->allowed@[0]@ == "shared"@
    &&& k->allowed@[1]@ == "unique"@
}

/// Validate a deck's `back` attribute value.
pub fn back_from_attr(v: &str) -> (r: Result<Backside, Kind>)
    ensures
        v@ == "shared"@ ==> r == Result::<Backside, Kind>::Ok(Backside::Shared),
        v@ == "unique"@ ==> r == Result::<Backside, Kind>::Ok(Backside::Unique),
        (v@ != "shared"@ && v@ != "unique"@) ==> (r matches Result::Err(k) && back_error_matches(
            k,
            v@,
        )),
{
    proof {
        reveal_strlit("shared");
        reveal_strlit("unique");
        assert("shared"@[0] == 's' && "unique"@[0] == 'u');
    }
    if str_eq(v, "shared") {
        Result::Ok(Backside::Shared)
    } else if str_eq(v, "unique") {
        Result::Ok(Backside::Unique)
    } else {
        let mut allowed: Vec<String> = Vec::new();
        allowed.push(String::from_str("shared"));
        allowed.push(String::from_str("unique"));
        Result::Err(
            Kind::InvalidAttributeValue {
                tag: String::from_str("deck"),
                attribute: String::from_str("back"),
                value: String::from_str(v),
                allowed,
            },
        )
    }
}

/// The size factor, in thousandths, that a `size` attribute denotes:
/// `floor(value * 1000)`, capped at the field's limit; text that is no
/// decimal falls back to a factor of one.
pub open spec fn spec_size_attr(t: Seq<char>) -> u32 {
    match spec_parse_decimal(trim_both(t)) {
        Option::Some((m, f)) => {
            let pm = if f <= 3 {
                m * pow10((3 - f) as nat)
            } else {
                m as int / pow10((f - 3) as nat) as int
            };
            if pm > u32::MAX {
                u32::MAX
            } else {
                pm as u32
            }
        },
        Option::None => 1000,
    }
}

/// Read a `size` attribute into thousandths of the base text size.
pub fn size_from_attr(v: &str) -> (r: u32)
    ensures
        r == spec_size_attr(v@),
{
    let n = v.unicode_len();
    proof {
        assert(v@.subrange(0, n as int) =~= v@);
    }
    match crate::dimensions::parse_decimal(v, 0, n) {
        Option::Some((m, f)) => {
            if f <= 3 {
                let p = crate::dimensions::pow10_exec(3 - f);
                proof {
                    assert(pow10(3) == 1000) by {
                        reveal_with_fuel(pow10, 5);
                    }
                    crate::dimensions::lemma_pow10_mono((3 - f) as nat, 3);
                    assert(m * p <= 999_999_999 * 1000) by (nonlinear_arith)
                        requires
                            0 <= m <= 999_999_999,
                            0 <= p <= 1000,
                    ;
                }
                let pm: u64 = m * p;
                if pm > 0xFFFF_FFFF {
                    0xFFFF_FFFF
                } else {
                    pm as u32
                }
            } else {
                let p = crate::dimensions::pow10_exec(f - 3);
                proof {
                    assert(p >= 1);
                }
                let pm: u64 = m / p;
                proof {
                    assert(m / p <= m) by (nonlinear_arith)
                        requires
                            p >= 1,
                            m >= 0,
                    ;
                }
                if pm > 0xFFFF_FFFF {
                    0xFFFF_FFFF
                } else {
                    pm as u32
                }
            }
        },
        Option::None => 1000,
    }
}

/// Whether an optional `theme` attribute is acceptable: absent, or one of
/// the allowed spellings.
pub open spec fn theme_attr_ok(t: Option<String>) -> bool {
    match t {
        Option::None => true,
        Option::Some(v) => is_light_attr(v@) || is_dark_attr(v@),
    }
}

/// The theme an acceptable optional attribute denotes; absent means light.
pub open spec fn spec_theme_of(t: Option<String>) -> Theme {
    match t {
        Option::None => Theme::Light,
        Option::Some(v) => if is_dark_attr(v@) {
            Theme::Dark
        } else {
            Theme::Light
        },
    }
}

/// Whether an optional `back` attribute is acceptable.
pub open spec fn back_attr_ok(b: Option<String>) -> bool {
    match b {
        Option::None => true,
        Option::Some(v) => v@ == "shared"@ || v@ == "unique"@,
    }
}

/// The back mode an acceptable optional attribute denotes; absent means a
/// shared back.
pub open spec fn spec_back_of(b: Option<String>) -> Backside {
    match b {
        Option::None => Backside::Shared,
        Option::Some(v) => if v@ == "unique"@ {
            Backside::Unique
        } else {
            Backside::Shared
        },
    }
}

/// Assemble a deck from its root element's parts.  The `name` attribute is
/// required; an absent `theme` defaults to light, an absent `back` to a
/// shared back; a bad theme is reported before a bad back; the cards are
/// taken as given, in order.
pub fn deck_from_parts(
    name: Option<String>,
    theme: Option<String>,
    back: Option<String>,
    cards: Vec<Card>,
) -> (r: Result<Deck, Kind>)
    ensures
        name is None ==> r == Result::<Deck, Kind>::Err(Kind::MissingDeckName),
        (name is Some && !theme_attr_ok(theme)) ==> (r matches Result::Err(k) && (theme matches
            Option::Some(t) && theme_error_matches(k, t@))),
        (name is Some && theme_attr_ok(theme) && !back_attr_ok(back)) ==> (r matches Result::Err(
            k,
        ) && (back matches Option::Some(b) && back_error_matches(k, b@))),
        (name is Some && theme_attr_ok(theme) && back_attr_ok(back)) ==> (r matches Result::Ok(d)
            && (name matches Option::Some(n) && d.name == n) && d.cards == cards && d.theme
            == spec_theme_of(theme) && d.back == spec_back_of(back)),
{
    let n = match name {
        Option::Some(n) => n,
        Option::None => {
            return Result::Err(Kind::MissingDeckName);
        },
    };
    let th = match &theme {
        Option::Some(v) => match theme_from_attr(v.as_str()) {
            Result::Ok(t) => t,
            Result::Err(e) => {
                return Result::Err(e);
            },
        },
        Option::None => Theme::Light,
    };
    let bk = match &back {
        Option::Some(v) => match back_from_attr(v.as_str()) {
            Result::Ok(b) => b,
            Result::Err(e) => {
                return Result::Err(e);
            },
        },
        Option::None => Backside::Shared,
    };
    Result::Ok(Deck { name: n, cards, theme: th, back: bk })
}

/// The markup of a text node: its text verbatim, an empty run when the
/// node reports none.
pub fn text_markup(text: Option<String>) -> (r: Markup)
    ensures
        text matches Option::Some(s) ==> r == Markup::Plain(s),
        text is None ==> (r matches Markup::Plain(t) && t@ == Seq::<char>::empty()),
{
    match text {
        Option::Some(s) => Markup::Plain(s),
        Option::None => Markup::Plain(String::new()),
    }
}

/// The mismatched-tag decision: a card element must be tagged `card`, and
/// any other tag is the error naming both.
pub fn check_card_tag(tag: String) -> (r: Result<(), Kind>)
    ensures
        tag@ == "card"@ ==> r is Ok,
        tag@ != "card"@ ==> (r matches Result::Err(k) && (k matches Kind::UnexpectedTag {
            expected,
            actual,
        } && expected@ == "card"@ && actual == tag)),
{
    if str_eq(tag.as_str(), "card") {
        Result::Ok(())
    } else {
        Result::Err(Kind::UnexpectedTag { expected: String::from_str("card"), actual: tag })
    }
}

/// A plain node of the parsed document: a text node with its text, or an
/// element with its tag, attributes and children, all owned values in
/// document order.  Nodes that are neither (comments, instructions) arrive
/// as elements with an empty tag, as the XML front end names them.
#[derive(Debug, PartialEq)]
pub enum RawNode {
    Text(Option<String>),
    Element { tag: String, attributes: Vec<(String, String)>, children: Vec<RawNode> },
}

/// Model of a plain node.
pub enum RawModel {
    Text(Option<Seq<char>>),
    Element { tag: Seq<char>, attributes: Seq<(Seq<char>, Seq<char>)>, children: Seq<RawModel> },
}

/// The model of one plain node.
pub open spec fn raw_model(n: RawNode) -> RawModel
    decreases n,
{
    match n {
        RawNode::Text(t) => RawModel::Text(
            match t {
                Option::Some(s) => Option::Some(s@),
                Option::None => Option::None,
            },
        ),
        RawNode::Element { tag, attributes, children } => RawModel::Element {
            tag: tag@,
            attributes: crate::markup::attr_views(attributes@),
            children: raw_models(children@),
        },
    }
}

/// The models of a sequence of plain nodes, in order.
pub open spec fn raw_models(ns: Seq<RawNode>) -> Seq<RawModel>
    decreases ns,
{
    if ns.len() == 0 {
        Seq::empty()
    } else {
        raw_models(ns.drop_last()).push(raw_model(ns.last()))
    }
}

impl View for RawNode {
    type V = RawModel;

    open spec fn view(&self) -> RawModel {
        raw_model(*self)
    }
}

pub broadcast proof fn lemma_raw_models_len(ns: Seq<RawNode>)
    ensures
        #[trigger] raw_models(ns).len() == ns.len(),
    decreases ns,
{
    if ns.len() > 0 {
        lemma_raw_models_len(ns.drop_last());
    }
}

pub broadcast proof fn lemma_raw_models_index(ns: Seq<RawNode>, i: int)
    requires
        0 <= i < ns.len(),
    ensures
        #[trigger] raw_models(ns)[i] == raw_model(ns[i]),
    decreases ns,
{
    lemma_raw_models_len(ns);
    if ns.len() > 0 && i < ns.len() - 1 {
        lemma_raw_models_len(ns.drop_last());
        lemma_raw_models_index(ns.drop_last(), i);
    }
}

/// What parsing a deck document yields: the root element as a plain tree,
/// a mismatched close tag with its expected and actual names, or no tree
/// at all.
pub enum RawParse {
    Tree(RawModel),
    Mismatch { expected: Seq<char>, actual: Seq<char> },
    Invalid,
}

/// The parse outcome a concrete result stands for.
pub open spec fn raw_result_model(r: Result<RawNode, Kind>) -> RawParse {
    match r {
        Result::Ok(n) => RawParse::Tree(raw_model(n)),
        Result::Err(k) => match k {
            Kind::UnexpectedTag { expected, actual } => RawParse::Mismatch {
                expected: expected@,
                actual: actual@,
            },
            _ => RawParse::Invalid,
        },
    }
}

/// The outcome of parsing a deck document.  It depends on the text alone.
pub uninterp spec fn raw_tree_of(s: Seq<char>) -> RawParse;

#[verifier::external_type_specification]
#[verifier::external_body]
pub struct ExNode<'a, 'input: 'a>(roxmltree::Node<'a, 'input>);

/// The conversion half of `parse_raw`: one pass over roxmltree's node tree
/// (`Node::is_text`, `text`, `tag_name`, `attributes`, `children`), each
/// node to a plain node — the text owned, the tag's local name, every
/// attribute as an owned name-value pair, the children in document order.
#[verifier::external_body]
fn convert_node(n: &roxmltree::Node) -> RawNode {
    if n.is_text() {
        RawNode::Text(n.text().map(|t| t.to_owned()))
    } else {
        RawNode::Element {
            tag: n.tag_name().name().to_owned(),
            attributes: n.attributes().map(|a| (a.name().to_owned(), a.value().to_owned())).collect(),
            children: n.children().map(|c| convert_node(&c)).collect(),
        }
    }
}

/// Relies on roxmltree::Document::parse_with_options — DTDs allowed, the
/// node limit off — and `convert_node`: the document's root element as a
/// plain tree; a mismatched close tag is reported with its expected and
/// actual names, any other flaw in the document as the generic parse
/// error.  The outcome depends on the text alone.
#[verifier::external_body]
fn parse_raw(input: &str) -> (r: Result<RawNode, Kind>)
    ensures
        raw_result_model(r) == raw_tree_of(input@),
        r matches Result::Err(k) ==> (k matches Kind::UnexpectedTag { .. } || k is Parse),
{
    let options = roxmltree::ParsingOptions {
        allow_dtd: true,
        nodes_limit: u32::MAX,
        entity_resolver: None,
    };
    match roxmltree::Document::parse_with_options(input, options) {
        Ok(d) => Ok(convert_node(&d.root_element())),
        Err(roxmltree::Error::UnexpectedCloseTag(expected, actual, _)) => Err(
            Kind::UnexpectedTag { expected, actual },
        ),
        Err(_) => Err(Kind::Parse),
    }
}

/// The value of the first attribute named `name`.
pub open spec fn spec_lookup(attrs: Seq<(Seq<char>, Seq<char>)>, name: Seq<char>) -> Option<
    Seq<char>,
>
    decreases attrs,
{
    if attrs.len() == 0 {
        Option::None
    } else if attrs[0].0 == name {
        Option::Some(attrs[0].1)
    } else {
        spec_lookup(attrs.drop_first(), name)
    }
}

/// Look an attribute up by name; the returned value holds the same
/// characters as the attribute's.
pub fn attr_value(attrs: &Vec<(String, String)>, name: &str) -> (r: Option<String>)
    ensures
        match r {
            Option::Some(v) => spec_lookup(crate::markup::attr_views(attrs@), name@)
                == Option::Some(v@),
            Option::None => spec_lookup(crate::markup::attr_views(attrs@), name@) is None,
        },
{
    let ghost views = crate::markup::attr_views(attrs@);
    let n = attrs.len();
    let mut i: usize = 0;
    proof {
        assert(views.skip(0) =~= views);
    }
    while i < n
        invariant
            n == attrs@.len(),
            views == crate::markup::attr_views(attrs@),
            views.len() == n,
            0 <= i <= n,
            spec_lookup(views.skip(i as int), name@) == spec_lookup(views, name@),
        decreases n - i,
    {
        proof {
            assert(views.skip(i as int)[0] == views[i as int]);
            assert(views.skip(i as int).drop_first() =~= views.skip(i as int + 1));
        }
        if str_eq(attrs[i].0.as_str(), name) {
            return Option::Some(String::from_str(attrs[i].1.as_str()));
        }
        i = i + 1;
    }
    proof {
        assert(views.skip(n as int) =~= Seq::<(Seq<char>, Seq<char>)>::empty());
    }
    Option::None
}

/// The size factor an optional `size` attribute denotes.
pub open spec fn spec_font_size(size: Option<String>) -> Option<u32> {
    match size {
        Option::Some(t) => Option::Some(spec_size_attr(t@)),
        Option::None => Option::None,
    }
}

/// Build one markup node from plain element data: the tag dispatch.
/// `blank`, `br`, `italic` (or `i`), `tiny`, `bottom` and `font` are the
/// recognized tags; anything else is kept as an opaque `Unknown` node.
pub fn element_markup(
    tag: String,
    family: Option<String>,
    size: Option<String>,
    attributes: Vec<(String, String)>,
    children: Vec<Markup>,
) -> (r: Markup)
    ensures
        tag@ == "blank"@ ==> r == Markup::Blank,
        tag@ == "br"@ ==> (r matches Markup::Plain(t) && t@ == "\n"@),
        (tag@ == "italic"@ || tag@ == "i"@) ==> r == Markup::Italic(children),
        tag@ == "tiny"@ ==> r == Markup::Tiny(children),
        tag@ == "bottom"@ ==> r == Markup::Bottom(children),
        tag@ == "font"@ ==> (r matches Markup::Font { family: f2, size: s2, content } && content
            == children && f2 == family && s2 == spec_font_size(size)),
        (tag@ != "blank"@ && tag@ != "br"@ && tag@ != "italic"@ && tag@ != "i"@ && tag@ != "tiny"@
            && tag@ != "bottom"@ && tag@ != "font"@) ==> (r matches Markup::Unknown {
            tag: t2,
            attributes: a2,
            content,
        } && t2 == tag && a2 == attributes && content == children),
{
    proof {
        reveal_strlit("blank");
        reveal_strlit("br");
        reveal_strlit("italic");
        reveal_strlit("i");
        reveal_strlit("tiny");
        reveal_strlit("bottom");
        reveal_strlit("font");
        reveal_strlit("\n");
        assert("blank"@.len() == 5 && "br"@.len() == 2 && "italic"@.len() == 6 && "i"@.len() == 1);
        assert("tiny"@.len() == 4 && "bottom"@.len() == 6 && "font"@.len() == 4);
        assert("italic"@[0] == 'i' && "bottom"@[0] == 'b');
        assert("tiny"@[0] == 't' && "font"@[0] == 'f');
    }
    if str_eq(tag.as_str(), "blank") {
        Markup::Blank
    } else if str_eq(tag.as_str(), "br") {
        Markup::Plain(String::from_str("\n"))
    } else if str_eq(tag.as_str(), "italic") || str_eq(tag.as_str(), "i") {
        Markup::Italic(children)
    } else if str_eq(tag.as_str(), "tiny") {
        Markup::Tiny(children)
    } else if str_eq(tag.as_str(), "bottom") {
        Markup::Bottom(children)
    } else if str_eq(tag.as_str(), "font") {
        let size2 = match &size {
            Option::Some(t) => Option::Some(size_from_attr(t.as_str())),
            Option::None => Option::None,
        };
        Markup::Font { family, size: size2, content: children }
    } else {
        Markup::Unknown { tag, attributes, content: children }
    }
}

/// The markup a plain node reads to: text verbatim (absent text as an
/// empty run), elements through the tag dispatch with their children read
/// first, in order.
pub open spec fn spec_markup_of(n: RawModel) -> crate::markup::MarkupModel
    decreases n,
{
    match n {
        RawModel::Text(t) => crate::markup::MarkupModel::Plain(
            match t {
                Option::Some(s) => s,
                Option::None => Seq::empty(),
            },
        ),
        RawModel::Element { tag, attributes, children } => {
            let kids = spec_markups_of(children);
            if tag == "blank"@ {
                crate::markup::MarkupModel::Blank
            } else if tag == "br"@ {
                crate::markup::MarkupModel::Plain("\n"@)
            } else if tag == "italic"@ || tag == "i"@ {
                crate::markup::MarkupModel::Italic(kids)
            } else if tag == "tiny"@ {
                crate::markup::MarkupModel::Tiny(kids)
            } else if tag == "bottom"@ {
                crate::markup::MarkupModel::Bottom(kids)
            } else if tag == "font"@ {
                crate::markup::MarkupModel::Font {
                    family: spec_lookup(attributes, "family"@),
                    size: match spec_lookup(attributes, "size"@) {
                        Option::Some(v) => Option::Some(spec_size_attr(v)),
                        Option::None => Option::None,
                    },
                    content: kids,
                }
            } else {
                crate::markup::MarkupModel::Unknown { tag, attributes, content: kids }
            }
        },
    }
}

/// The markup of a sequence of plain nodes, in order.
pub open spec fn spec_markups_of(ns: Seq<RawModel>) -> Seq<crate::markup::MarkupModel>
    decreases ns,
{
    if ns.len() == 0 {
        Seq::empty()
    } else {
        spec_markups_of(ns.drop_last()).push(spec_markup_of(ns.last()))
    }
}

/// Read one plain node into markup.
pub fn markup_of(n: RawNode) -> (r: Markup)
    ensures
        r@ == spec_markup_of(n@),
    decreases n,
{
    match n {
        RawNode::Text(t) => text_markup(t),
        RawNode::Element { tag, attributes, children } => {
            let kids = markups_of(children);
            let family = attr_value(&attributes, "family");
            let size = attr_value(&attributes, "size");
            element_markup(tag, family, size, attributes, kids)
        },
    }
}

/// Read a sequence of plain nodes into markup, in order.
pub fn markups_of(ns: Vec<RawNode>) -> (r: Vec<Markup>)
    ensures
        crate::markup::markup_models(r@) == spec_markups_of(raw_models(ns@)),
    decreases ns@,
{
    let ghost entry = ns@;
    let mut rest = ns;
    match rest.pop() {
        Option::None => {
            proof {
                assert(raw_models(entry) =~= Seq::<RawModel>::empty());
                assert(crate::markup::markup_models(Seq::<Markup>::empty())
                    =~= Seq::<crate::markup::MarkupModel>::empty());
            }
            Vec::new()
        },
        Option::Some(last) => {
            proof {
                assert(rest@ =~= entry.drop_last());
                assert(last == entry.last());
                assert(rest@ == entry.subrange(0, entry.len() - 1));
                assert(decreases_to!(entry => rest@));
                assert(decreases_to!(entry => last));
            }
            let mut front = markups_of(rest);
            let m = markup_of(last);
            let ghost fb = front@;
            front.push(m);
            proof {
                assert(front@.drop_last() =~= fb);
                assert(crate::markup::markup_models(front@) == crate::markup::markup_models(
                    fb,
                ).push(crate::markup::markup_model(front@.last())));
                assert(raw_models(entry).drop_last() =~= raw_models(entry.drop_last())) by {
                    lemma_raw_models_len(entry);
                    lemma_raw_models_len(entry.drop_last());
                    assert forall|k: int|
                        0 <= k < raw_models(entry).drop_last().len() implies raw_models(
                        entry,
                    ).drop_last()[k] == raw_models(entry.drop_last())[k] by {
                        lemma_raw_models_index(entry, k);
                        lemma_raw_models_index(entry.drop_last(), k);
                    }
                }
                assert(raw_models(entry).last() == raw_model(entry.last())) by {
                    lemma_raw_models_len(entry);
                    lemma_raw_models_index(entry, entry.len() - 1);
                }
                assert(spec_markups_of(raw_models(entry)) == spec_markups_of(
                    raw_models(entry).drop_last(),
                ).push(spec_markup_of(raw_models(entry).last()))) by {
                    lemma_raw_models_len(entry);
                }
            }
            front
        },
    }
}

/// Whether a plain node is a `card` element.
pub open spec fn spec_is_card(n: RawModel) -> bool {
    match n {
        RawModel::Element { tag, .. } => tag == "card"@,
        RawModel::Text(_) => false,
    }
}

/// The tag a plain node shows to the card check: an element's own, an
/// empty one for text.
pub open spec fn spec_tag_of(n: RawModel) -> Seq<char> {
    match n {
        RawModel::Element { tag, .. } => tag,
        RawModel::Text(_) => Seq::empty(),
    }
}

/// The content a card element reads to: its children as markup, cleaned
/// up exactly once.
pub open spec fn spec_card_content(n: RawModel) -> Seq<crate::markup::MarkupModel> {
    match n {
        RawModel::Element { children, .. } => crate::markup::cleanup_model(
            spec_markups_of(children),
        ),
        RawModel::Text(_) => Seq::empty(),
    }
}

/// Read one plain node into a card: the tag must be `card`; the children
/// become the content, cleaned up once right after parsing.
pub fn card_of(n: RawNode) -> (r: Result<Card, Kind>)
    ensures
        spec_is_card(n@) ==> (r matches Result::Ok(c) && c@ == spec_card_content(n@)),
        !spec_is_card(n@) ==> (r matches Result::Err(k) && (k matches Kind::UnexpectedTag {
            expected,
            actual,
        } && expected@ == "card"@ && actual@ == spec_tag_of(n@))),
{
    match n {
        RawNode::Text(_) => {
            match check_card_tag(String::new()) {
                Result::Err(e) => Result::Err(e),
                Result::Ok(_) => {
                    proof {
                        reveal_strlit("card");
                        assert("card"@.len() == 4);
                        assert(false);
                    }
                    Result::Err(Kind::Parse)
                },
            }
        },
        RawNode::Element { tag, attributes: _, children } => {
            match check_card_tag(tag) {
                Result::Err(e) => Result::Err(e),
                Result::Ok(_) => {
                    let content = markups_of(children);
                    let mut card = Card { content };
                    card.cleanup();
                    Result::Ok(card)
                },
            }
        },
    }
}

/// The cards a deck element's children read to: one per `card`-tagged
/// child, in document order; everything else is passed over.
pub open spec fn spec_cards_of(ns: Seq<RawModel>) -> Seq<Seq<crate::markup::MarkupModel>>
    decreases ns,
{
    if ns.len() == 0 {
        Seq::empty()
    } else {
        let rest = spec_cards_of(ns.drop_last());
        if spec_is_card(ns.last()) {
            rest.push(spec_card_content(ns.last()))
        } else {
            rest
        }
    }
}

/// The content models of a deck's cards, in order.
pub open spec fn deck_cards_views(cards: Seq<Card>) -> Seq<Seq<crate::markup::MarkupModel>> {
    cards.map_values(|c: Card| crate::markup::markup_models(c.content@))
}

/// Whether `r` is the deck the plain tree `m` reads to: the root's `name`
/// attribute is required, `theme` and `back` are validated with their
/// defaults — a bad theme reported before a bad back — and the cards are
/// the root's `card`-tagged children in document order.
pub open spec fn deck_result_matches(r: Result<Deck, Kind>, m: RawModel) -> bool {
    match m {
        RawModel::Text(_) => r matches Result::Err(k) && k is Parse,
        RawModel::Element { tag: _, attributes, children } => {
            let name = spec_lookup(attributes, "name"@);
            let theme = spec_lookup(attributes, "theme"@);
            let back = spec_lookup(attributes, "back"@);
            let theme_ok = match theme {
                Option::Some(v) => is_light_attr(v) || is_dark_attr(v),
                Option::None => true,
            };
            let back_ok = match back {
                Option::Some(v) => v == "shared"@ || v == "unique"@,
                Option::None => true,
            };
            match name {
                Option::None => r matches Result::Err(k) && k is MissingDeckName,
                Option::Some(nm) => if !theme_ok {
                    r matches Result::Err(k) && (theme matches Option::Some(t)
                        && theme_error_matches(k, t))
                } else if !back_ok {
                    r matches Result::Err(k) && (back matches Option::Some(b)
                        && back_error_matches(k, b))
                } else {
                    r matches Result::Ok(d) && d.name@ == nm && d.theme == (match theme {
                        Option::Some(v) => if is_dark_attr(v) {
                            Theme::Dark
                        } else {
                            Theme::Light
                        },
                        Option::None => Theme::Light,
                    }) && d.back == (match back {
                        Option::Some(v) => if v == "unique"@ {
                            Backside::Unique
                        } else {
                            Backside::Shared
                        },
                        Option::None => Backside::Shared,
                    }) && deck_cards_views(d.cards@) == spec_cards_of(children)
                },
            }
        },
    }
}

/// Read a whole deck document.  The text parses to a plain tree or a
/// parse error; the tree reads to a deck exactly as `deck_result_matches`
/// spells out: the root's `name` attribute required, `theme` and `back`
/// validated with defaults, one card per `card`-tagged child of the root
/// in document order, each cleaned up once.
pub fn parse_deck(input: &str) -> (r: Result<Deck, Kind>)
    ensures
        raw_tree_of(input@) is Invalid ==> (r matches Result::Err(k) && k is Parse),
        raw_tree_of(input@) matches RawParse::Mismatch { expected, actual } ==> (r matches
            Result::Err(k) && (k matches Kind::UnexpectedTag { expected: e2, actual: a2 } && e2@
            == expected && a2@ == actual)),
        raw_tree_of(input@) matches RawParse::Tree(m) ==> deck_result_matches(r, m),
{
    let root = match parse_raw(input) {
        Result::Ok(n) => n,
        Result::Err(e) => {
            return Result::Err(e);
        },
    };
    let ghost rm = raw_model(root);
    match root {
        RawNode::Text(_) => Result::Err(Kind::Parse),
        RawNode::Element { tag: _, attributes, children } => {
            // settle the root's attribute decisions first: their flaws come
            // before any card's, as the assembly contract states them
            let parts = match deck_from_parts(
                attr_value(&attributes, "name"),
                attr_value(&attributes, "theme"),
                attr_value(&attributes, "back"),
                Vec::new(),
            ) {
                Result::Ok(d) => d,
                Result::Err(e) => {
                    return Result::Err(e);
                },
            };
            let ghost cm = raw_models(children@);
            proof {
                lemma_raw_models_len(children@);
            }
            let mut cards: Vec<Card> = Vec::new();
            let mut rest = children;
            let ghost call = children@;
            let mut i: usize = 0;
            let nk = rest.len();
            proof {
                assert(deck_cards_views(cards@) =~= spec_cards_of(cm.subrange(0, 0)));
            }
            while i < nk
                invariant
                    nk == call.len(),
                    cm == raw_models(call),
                    cm.len() == nk,
                    0 <= i <= nk,
                    rest@ == call.subrange(i as int, nk as int),
                    deck_cards_views(cards@) == spec_cards_of(cm.subrange(0, i as int)),
                decreases nk - i,
            {
                let ghost kb = cards@;
                let child = rest.remove(0);
                proof {
                    assert(call.subrange(i as int, nk as int).drop_first() =~= call.subrange(
                        i as int + 1,
                        nk as int,
                    ));
                    assert(child == call[i as int]);
                    lemma_raw_models_index(call, i as int);
                }
                let is_card = match &child {
                    RawNode::Element { tag, .. } => str_eq(tag.as_str(), "card"),
                    RawNode::Text(_) => false,
                };
                if is_card {
                    match card_of(child) {
                        Result::Ok(c) => cards.push(c),
                        Result::Err(e) => {
                            return Result::Err(e);
                        },
                    }
                }
                proof {
                    assert(cm.subrange(0, i as int + 1).drop_last() =~= cm.subrange(0, i as int));
                    assert(cm.subrange(0, i as int + 1).last() == cm[i as int]);
                    if is_card {
                        assert(cards@.drop_last() =~= kb);
                    }
                    assert(deck_cards_views(cards@) =~= spec_cards_of(
                        cm.subrange(0, i as int + 1),
                    ));
                }
                i = i + 1;
            }
            proof {
                assert(cm.subrange(0, nk as int) =~= cm);
            }
            Result::Ok(Deck { name: parts.name, cards, theme: parts.theme, back: parts.back })
        },
    }
}

} // verus!
