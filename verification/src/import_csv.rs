//! Reading card texts out of tabular records: the first field of every
//! record is the card's text.  Reading the file itself is a caller's
//! concern; this decides what the records mean.
use vstd::prelude::*;
use vstd::string::StringExecFns;

verus! {

/// Imports card texts from a tabular file at `path`.
pub struct CsvImporter {
    pub path: String,
}

impl CsvImporter {
    /// An importer for the file at `path`.
    pub fn new(path: String) -> (r: Self)
        ensures
            r.path == path,
    {
        CsvImporter { path }
    }
}

/// What a record without a first field imports as.
pub open spec fn import_fallback() -> Seq<char> {
    "COULDN'T IMPORT"@
}

/// The card texts of parsed records: the first field of each record in
/// order, with a fixed fallback where a record has none.
pub fn texts_from_records(records: Vec<Option<String>>) -> (r: Vec<String>)
    ensures
        r@.len() == records@.len(),
        forall|i: int|
            0 <= i < r@.len() ==> #[trigger] r@[i]@ == match records@[i] {
                Option::Some(s) => s@,
                Option::None => import_fallback(),
            },
{
    let ghost all = records@;
    let mut src = records;
    let mut out: Vec<String> = Vec::new();
    while src.len() > 0
        invariant
            out@.len() + src@.len() == all.len(),
            src@ == all.subrange(out@.len() as int, all.len() as int),
            forall|i: int|
                0 <= i < out@.len() ==> #[trigger] out@[i]@ == match all[i] {
                    Option::Some(s) => s@,
                    Option::None => import_fallback(),
                },
        decreases src@.len(),
    {
        let ghost sb = src@;
        let rec = src.remove(0);
        proof {
            assert(sb.remove(0) =~= sb.drop_first());
            assert(rec == all[out@.len() as int]);
        }
        let text = match rec {
            Option::Some(s) => s,
            Option::None => String::from_str("COULDN'T IMPORT"),
        };
        out.push(text);
        proof {
            assert(src@ =~= all.subrange(out@.len() as int, all.len() as int));
        }
    }
    out
}

} // verus!
