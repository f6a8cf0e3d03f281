//! What can go wrong while a deck document is read: each kind carries the
//! structured detail needed for a precise, actionable report.
use vstd::prelude::*;
use vstd::string::StringExecFns;

verus! {

/// Why a deck document was rejected.
#[derive(Debug, PartialEq)]
pub enum Kind {
    /// The deck element has no `name` attribute.
    MissingDeckName,
    /// A tag stood where another was required.
    UnexpectedTag { expected: String, actual: String },
    /// An enumerated attribute held a value outside its allowed set.
    InvalidAttributeValue { tag: String, attribute: String, value: String, allowed: Vec<String> },
    /// The document is not well-formed.
    Parse,
}

/// `"x"` for each entry, comma-separated: how the allowed set is shown.
pub open spec fn quoted_list(xs: Seq<Seq<char>>) -> Seq<char>
    decreases xs,
{
    if xs.len() == 0 {
        Seq::empty()
    } else if xs.len() == 1 {
        seq!['"'] + xs[0] + seq!['"']
    } else {
        seq!['"'] + xs[0] + seq!['"', ',', ' '] + quoted_list(xs.drop_first())
    }
}

/// The human-readable message of an error kind.
pub open spec fn spec_message(k: Kind) -> Seq<char> {
    match k {
        Kind::MissingDeckName => msg_missing_name(),
        Kind::UnexpectedTag { expected, actual } => msg_expected() + expected@ + msg_but_got()
            + actual@,
        Kind::InvalidAttributeValue { tag, attribute, value, allowed } => msg_invalid_head()
            + tag@ + msg_invalid_mid() + attribute@ + seq!['=', '"'] + value@ + msg_invalid_tail()
            + seq!['['] + quoted_list(allowed@.map_values(|a: String| a@)) + seq![']'],
        Kind::Parse => msg_parse(),
    }
}

pub open spec fn msg_missing_name() -> Seq<char> {
    seq![
        't', 'h', 'e', ' ', 'd', 'e', 'c', 'k', ' ', 'h', 'a', 's', ' ', 'n', 'o', ' ', 'n',
        'a', 'm', 'e', ' ', 'a', 't', 't', 'r', 'i', 'b', 'u', 't', 'e', ' ', 's', 'e', 't',
        ' ', 'l', 'i', 'k', 'e', ' ', '<', 'd', 'e', 'c', 'k', ' ', 'n', 'a', 'm', 'e', '=',
        '"', 'e', 'x', 'a', 'm', 'p', 'l', 'e', '"', '>', '.', '.', '.', '<', '/', 'd', 'e',
        'c', 'k', '>',
    ]
}

pub open spec fn msg_parse() -> Seq<char> {
    seq![
        'c', 'o', 'u', 'l', 'd', 'n', '\'', 't', ' ', 'p', 'a', 'r', 's', 'e', ' ', 't', 'h',
        'e', ' ', 'x', 'm', 'l', ' ', 'f', 'i', 'l', 'e',
    ]
}

pub open spec fn msg_expected() -> Seq<char> {
    seq!['e', 'x', 'p', 'e', 'c', 't', 'e', 'd', ' ']
}

pub open spec fn msg_but_got() -> Seq<char> {
    seq![',', ' ', 'b', 'u', 't', ' ', 'g', 'o', 't', ' ']
}

pub open spec fn msg_invalid_head() -> Seq<char> {
    seq![
        'i', 'n', 'v', 'a', 'l', 'i', 'd', ' ', 'v', 'a', 'l', 'u', 'e', ' ', 'f', 'o', 'r',
        ' ', 'a', 't', 't', 'r', 'i', 'b', 'u', 't', 'e', ':', ' ', '<',
    ]
}

pub open spec fn msg_invalid_mid() -> Seq<char> {
    seq![' ', '.', '.', '.', ' ']
}

pub open spec fn msg_invalid_tail() -> Seq<char> {
    seq!['"', ' ', '.', '.', '.', ' ', '/', '>', ',', ' ', 'a', 'l', 'l', 'o', 'w', 'e', 'd',
        ' ', 'v', 'a', 'l', 'u', 'e', 's', ' ', 'a', 'r', 'e', ' ']
}

impl Kind {
    /// The error rendered for a report, naming the offending tag, attribute,
    /// given value and the allowed set where they apply.
    pub fn message(&self) -> (r: String)
        ensures
            r@ == spec_message(*self),
    {
        let mut out = String::new();
        match self {
            Kind::MissingDeckName => {
                out.append("the deck has no name attribute set like <deck name=\"example\">...</deck>");
                proof {
                    reveal_strlit(
                        "the deck has no name attribute set like <deck name=\"example\">...</deck>",
                    );
                    assert(Seq::<char>::empty()
                        + "the deck has no name attribute set like <deck name=\"example\">...</deck>"@
                        =~= msg_missing_name());
                }
            },
            Kind::Parse => {
                out.append("couldn't parse the xml file");
                proof {
                    reveal_strlit("couldn't parse the xml file");
                    assert(Seq::<char>::empty() + "couldn't parse the xml file"@ =~= msg_parse());
                }
            },
            Kind::UnexpectedTag { expected, actual } => {
                out.append("expected ");
                out.append(expected.as_str());
                out.append(", but got ");
                out.append(actual.as_str());
                proof {
                    reveal_strlit("expected ");
                    reveal_strlit(", but got ");
                    assert("expected "@ =~= msg_expected());
                    assert(", but got "@ =~= msg_but_got());
                    assert(out@ =~= spec_message(*self));
                }
            },
            Kind::InvalidAttributeValue { tag, attribute, value, allowed } => {
                out.append("invalid value for attribute: <");
                out.append(tag.as_str());
                out.append(" ... ");
                out.append(attribute.as_str());
                out.append("=\"");
                out.append(value.as_str());
                out.append("\" ... />, allowed values are ");
                out.append("[");
                let ghost names = allowed@.map_values(|a: String| a@);
                let n = allowed.len();
                let mut i: usize = 0;
                let ghost head = out@;
                proof {
                    assert(names.skip(0) =~= names);
                }
                let ghost mut donelist: Seq<char> = Seq::empty();
                proof {
                    assert(out@ =~= head + donelist);
                }
                while i < n
                    invariant
                        n == allowed@.len(),
                        names == allowed@.map_values(|a: String| a@),
                        names.len() == n,
                        0 <= i <= n,
                        out@ == head + donelist,
                        donelist + quoted_list(names.skip(i as int)) == quoted_list(names),
                    decreases n - i,
                {
                    out.append("\"");
                    out.append(allowed[i].as_str());
                    out.append("\"");
                    if i + 1 < n {
                        out.append(", ");
                    }
                    proof {
                        reveal_strlit("\"");
                        reveal_strlit(", ");
                        assert("\""@ =~= seq!['"']);
                        assert(", "@ =~= seq![',', ' ']);
                        assert(names.skip(i as int)[0] == names[i as int]);
                        assert(names[i as int] == allowed@[i as int]@);
                        assert(names.skip(i as int).drop_first() =~= names.skip(i as int + 1));
                        if i + 1 < n {
                            donelist = donelist + seq!['"'] + names[i as int] + seq!['"', ',', ' '];
                            assert(names.skip(i as int).len() > 1);
                        } else {
                            donelist = donelist + seq!['"'] + names[i as int] + seq!['"'];
                            assert(names.skip(i as int).len() == 1);
                            assert(quoted_list(names.skip(i as int + 1)) =~= Seq::<char>::empty());
                        }
                        assert(out@ =~= head + donelist);
                        assert(donelist + quoted_list(names.skip(i as int + 1)) =~= quoted_list(
                            names,
                        ));
                    }
                    i = i + 1;
                }
                out.append("]");
                proof {
                    reveal_strlit("invalid value for attribute: <");
                    reveal_strlit(" ... ");
                    reveal_strlit("=\"");
                    reveal_strlit("\" ... />, allowed values are ");
                    reveal_strlit("[");
                    reveal_strlit("]");
                    assert("invalid value for attribute: <"@ =~= msg_invalid_head());
                    assert(" ... "@ =~= msg_invalid_mid());
                    assert("=\""@ =~= seq!['=', '"']);
                    assert("\" ... />, allowed values are "@ =~= msg_invalid_tail());
                    assert("["@ =~= seq!['[']);
                    assert("]"@ =~= seq![']']);
                    assert(names.skip(n as int) =~= Seq::<Seq<char>>::empty());
                    assert(out@ =~= spec_message(*self));
                }
            },
        }
        out
    }
}

} // verus!
