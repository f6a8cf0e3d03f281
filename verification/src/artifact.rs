//! Identified, addressable produced images: the identity metadata a sheet or
//! card image carries through the export stages, and its canonical,
//! collision-free name.
use vstd::prelude::*;
use vstd::string::StringExecFns;

use crate::dimensions::AspectRatio;
use crate::{Backside, Side};

verus! {

/// What an artifact's image holds: one single card, or a grid sheet with
/// `total` occupied cells.
#[derive(Clone, Copy, Debug, PartialEq, Eq, Structural)]
pub enum Content {
    Single,
    Sheet { rows: u16, columns: u16, total: u16 },
}

/// Whether the artifact is the only one of its side, or page `index` of
/// `total` (1-based).
#[derive(Clone, Copy, Debug, PartialEq, Eq, Structural)]
pub enum Amount {
    Single,
    Multiple { index: u16, total: u16 },
}

/// An identified produced image: the deck it belongs to, which side and
/// page shape it shows, the file-format name an encoding stage records,
/// and the payload `data` that export stages replace while the identity
/// fields stay.
pub struct Artifact<Format> {
    pub deck: String,
    pub shared: Backside,
    pub data: Format,
    pub side: Side,
    pub content: Content,
    pub amount: Amount,
    pub aspect_ratio: Option<AspectRatio>,
    pub extension: Option<String>,
}

impl<Format> Artifact<Format> {
    /// The same identity with another payload.
    pub fn with_data<Other>(self, data: Other) -> (r: Artifact<Other>)
        ensures
            r.deck == self.deck,
            r.shared == self.shared,
            r.side == self.side,
            r.content == self.content,
            r.amount == self.amount,
            r.aspect_ratio == self.aspect_ratio,
            r.extension == self.extension,
            r.data == data,
    {
        Artifact {
            data,
            amount: self.amount,
            content: self.content,
            side: self.side,
            shared: self.shared,
            deck: self.deck,
            aspect_ratio: self.aspect_ratio,
            extension: self.extension,
        }
    }

    /// The payload alone, and the identity with an empty payload.
    pub fn extract_data(self) -> (r: (Format, Artifact<()>))
        ensures
            r.1.deck == self.deck,
            r.1.shared == self.shared,
            r.1.side == self.side,
            r.1.content == self.content,
            r.1.amount == self.amount,
            r.1.aspect_ratio == self.aspect_ratio,
            r.1.extension == self.extension,
            r.0 == self.data,
    {
        (
            self.data,
            Artifact {
                data: (),
                amount: self.amount,
                content: self.content,
                side: self.side,
                shared: self.shared,
                deck: self.deck,
                aspect_ratio: self.aspect_ratio,
                extension: self.extension,
            },
        )
    }
}

/// The decimal digits of `n`, most significant first.
pub open spec fn dec_digits(n: nat) -> Seq<char>
    decreases n,
{
    if n < 10 {
        seq![((48 + n) as u8) as char]
    } else {
        dec_digits(n / 10).push(((48 + n % 10) as u8) as char)
    }
}

fn digit_str(d: u16) -> (r: &'static str)
    requires
        d < 10,
    ensures
        r@ == seq![((48 + d as nat) as u8) as char],
{
    proof {
        reveal_strlit("0");
        reveal_strlit("1");
        reveal_strlit("2");
        reveal_strlit("3");
        reveal_strlit("4");
        reveal_strlit("5");
        reveal_strlit("6");
        reveal_strlit("7");
        reveal_strlit("8");
        reveal_strlit("9");
    }
    match d {
        0 => "0",
        1 => "1",
        2 => "2",
        3 => "3",
        4 => "4",
        5 => "5",
        6 => "6",
        7 => "7",
        8 => "8",
        _ => {
            proof {
                assert(d == 9);
            }
            "9"
        },
    }
}

/// Append the decimal digits of `n` to `out`.
pub fn push_dec(out: &mut String, n: u16)
    ensures
        final(out)@ == old(out)@ + dec_digits(n as nat),
    decreases n,
{
    if n < 10 {
        out.append(digit_str(n));
    } else {
        push_dec(out, n / 10);
        out.append(digit_str(n % 10));
        proof {
            assert(old(out)@ + dec_digits((n / 10) as nat) + seq![
                ((48 + (n % 10) as nat) as u8) as char,
            ] =~= old(out)@ + dec_digits(n as nat));
        }
    }
}

pub proof fn lemma_dec_digits_shape(n: nat)
    ensures
        dec_digits(n).len() >= 1,
        forall|i: int|
            0 <= i < dec_digits(n).len() ==> crate::dimensions::is_digit(
                #[trigger] dec_digits(n)[i],
            ),
    decreases n,
{
    if n >= 10 {
        lemma_dec_digits_shape(n / 10);
    }
}

/// The digits of `n` denote `n` again, so the digit string determines the
/// number.
pub proof fn lemma_dec_digits_val(n: nat)
    ensures
        crate::dimensions::digits_val(dec_digits(n)) == n,
    decreases n,
{
    reveal_with_fuel(crate::dimensions::digits_val, 3);
    assert((((48 + n % 10) as u8) as char) as u32 == 48 + n % 10);
    if n < 10 {
        assert(n % 10 == n);
        assert(dec_digits(n) =~= Seq::<char>::empty().push(((48 + n) as u8) as char));
        assert(Seq::<char>::empty().push(((48 + n) as u8) as char).drop_last()
            =~= Seq::<char>::empty());
        assert(crate::dimensions::digit_val(((48 + n) as u8) as char) == n);
    } else {
        lemma_dec_digits_val(n / 10);
        assert(dec_digits(n).drop_last() =~= dec_digits(n / 10));
        assert(dec_digits(n).last() == ((48 + n % 10) as u8) as char);
        assert(crate::dimensions::digit_val(dec_digits(n).last()) == n % 10);
    }
}

/// Two digit runs that are each followed by a non-digit (or by nothing) and
/// concatenate to the same text are the same run with the same rest.
pub proof fn lemma_digits_then_sep(d1: Seq<char>, s1: Seq<char>, d2: Seq<char>, s2: Seq<char>)
    requires
        forall|i: int| 0 <= i < d1.len() ==> crate::dimensions::is_digit(#[trigger] d1[i]),
        forall|i: int| 0 <= i < d2.len() ==> crate::dimensions::is_digit(#[trigger] d2[i]),
        s1.len() > 0 ==> !crate::dimensions::is_digit(s1[0]),
        s2.len() > 0 ==> !crate::dimensions::is_digit(s2[0]),
        d1 + s1 == d2 + s2,
    ensures
        d1 == d2,
        s1 == s2,
    decreases d1.len(),
{
    if d1.len() == 0 && d2.len() == 0 {
        assert(d1 =~= d2);
        assert(s1 =~= d1 + s1);
        assert(s2 =~= d2 + s2);
    } else if d1.len() == 0 {
        assert(s1 =~= d1 + s1);
        assert(s1[0] == (d2 + s2)[0]);
        assert((d2 + s2)[0] == d2[0]);
        assert(false);
    } else if d2.len() == 0 {
        assert(s2 =~= d2 + s2);
        assert(s2[0] == (d1 + s1)[0]);
        assert((d1 + s1)[0] == d1[0]);
        assert(false);
    } else {
        assert((d1 + s1)[0] == d1[0]);
        assert((d2 + s2)[0] == d2[0]);
        assert(d1.drop_first() + s1 =~= (d1 + s1).drop_first());
        assert(d2.drop_first() + s2 =~= (d2 + s2).drop_first());
        assert(forall|i: int|
            0 <= i < d1.drop_first().len() ==> crate::dimensions::is_digit(
                #[trigger] d1.drop_first()[i],
            ));
        assert(forall|i: int|
            0 <= i < d2.drop_first().len() ==> crate::dimensions::is_digit(
                #[trigger] d2.drop_first()[i],
            ));
        lemma_digits_then_sep(d1.drop_first(), s1, d2.drop_first(), s2);
        assert(d1 =~= seq![d1[0]] + d1.drop_first());
        assert(d2 =~= seq![d2[0]] + d2.drop_first());
        assert(d1 =~= d2);
    }
}

/// The decimal digit strings of two numbers match only when the numbers do.
pub proof fn lemma_dec_digits_injective(a: nat, b: nat)
    requires
        dec_digits(a) == dec_digits(b),
    ensures
        a == b,
{
    lemma_dec_digits_val(a);
    lemma_dec_digits_val(b);
}

/// The wire-visible label of a side: `front` or `back`.
pub open spec fn spec_side_label(s: Side) -> Seq<char> {
    match s {
        Side::Front => seq!['f', 'r', 'o', 'n', 't'],
        Side::Back => seq!['b', 'a', 'c', 'k'],
    }
}

/// The label of a back mode: `shared` or `unique`.
pub open spec fn spec_back_label(b: Backside) -> Seq<char> {
    match b {
        Backside::Shared => seq!['s', 'h', 'a', 'r', 'e', 'd'],
        Backside::Unique => seq!['u', 'n', 'i', 'q', 'u', 'e'],
    }
}

/// The label of a content shape: `single`, or `r{rows}c{columns}t{total}`.
pub open spec fn spec_content_label(c: Content) -> Seq<char> {
    match c {
        Content::Single => seq!['s', 'i', 'n', 'g', 'l', 'e'],
        Content::Sheet { rows, columns, total } => seq!['r'] + dec_digits(rows as nat)
            + seq!['c'] + dec_digits(columns as nat) + seq!['t'] + dec_digits(total as nat),
    }
}

/// The label of an amount: `1of1`, or `{index}of{total}`.
pub open spec fn spec_amount_label(a: Amount) -> Seq<char> {
    match a {
        Amount::Single => seq!['1', 'o', 'f', '1'],
        Amount::Multiple { index, total } => dec_digits(index as nat) + seq!['o', 'f']
            + dec_digits(total as nat),
    }
}

/// The canonical name of an artifact:
/// `{deck}-{side}-{content}-{amount}`.  Within one pagination run the names
/// are collision-free, and they are stable across runs on the same input.
pub open spec fn spec_artifact_name(deck: Seq<char>, s: Side, c: Content, a: Amount) -> Seq<
    char,
> {
    deck + seq!['-'] + spec_side_label(s) + seq!['-'] + spec_content_label(c) + seq!['-']
        + spec_amount_label(a)
}

impl Side {
    /// The side's wire-visible label.
    pub fn label(&self) -> (r: &'static str)
        ensures
            r@ == spec_side_label(*self),
    {
        proof {
            reveal_strlit("front");
            reveal_strlit("back");
        }
        match self {
            Side::Front => "front",
            Side::Back => "back",
        }
    }
}

impl Backside {
    /// The back mode's wire-visible label.
    pub fn label(&self) -> (r: &'static str)
        ensures
            r@ == spec_back_label(*self),
    {
        proof {
            reveal_strlit("shared");
            reveal_strlit("unique");
        }
        match self {
            Backside::Shared => "shared",
            Backside::Unique => "unique",
        }
    }
}

impl Content {
    /// The content shape's wire-visible label.
    pub fn label(&self) -> (r: String)
        ensures
            r@ == spec_content_label(*self),
    {
        proof {
            reveal_strlit("single");
            reveal_strlit("r");
            reveal_strlit("c");
            reveal_strlit("t");
        }
        match self {
            Content::Single => {
                let mut out = String::new();
                out.append("single");
                proof {
                    assert(Seq::<char>::empty() + "single"@ =~= spec_content_label(
                        Content::Single,
                    ));
                }
                out
            },
            Content::Sheet { rows, columns, total } => {
                let mut out = String::new();
                out.append("r");
                push_dec(&mut out, *rows);
                out.append("c");
                push_dec(&mut out, *columns);
                out.append("t");
                push_dec(&mut out, *total);
                proof {
                    assert(out@ =~= spec_content_label(*self));
                }
                out
            },
        }
    }
}

impl Amount {
    /// The amount's wire-visible label.
    pub fn label(&self) -> (r: String)
        ensures
            r@ == spec_amount_label(*self),
    {
        proof {
            reveal_strlit("1of1");
            reveal_strlit("of");
        }
        match self {
            Amount::Single => {
                let mut out = String::new();
                out.append("1of1");
                proof {
                    assert(Seq::<char>::empty() + "1of1"@ =~= spec_amount_label(Amount::Single));
                }
                out
            },
            Amount::Multiple { index, total } => {
                let mut out = String::new();
                push_dec(&mut out, *index);
                out.append("of");
                push_dec(&mut out, *total);
                proof {
                    assert(out@ =~= spec_amount_label(*self));
                }
                out
            },
        }
    }
}

impl<Format> Artifact<Format> {
    /// The artifact's canonical name.
    pub fn name(&self) -> (r: String)
        ensures
            r@ == spec_artifact_name(self.deck@, self.side, self.content, self.amount),
    {
        proof {
            reveal_strlit("-");
        }
        let mut out = String::new();
        out.append(self.deck.as_str());
        out.append("-");
        out.append(self.side.label());
        out.append("-");
        let c = self.content.label();
        out.append(c.as_str());
        out.append("-");
        let a = self.amount.label();
        out.append(a.as_str());
        proof {
            assert("-"@ =~= seq!['-']);
            assert(out@ =~= spec_artifact_name(self.deck@, self.side, self.content, self.amount));
        }
        out
    }
}

} // verus!
