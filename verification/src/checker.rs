//! The check's pure core: from the raw patch text and the final file's
//! content to the list of added changelog entries.  Retrieving the two
//! texts — from a local diff or a hosted code-review service — is the
//! caller's business.

use vstd::prelude::*;

use crate::classifier::{classify_additions, entries_view, spec_classify, AddedEntry};
use crate::parser::{
    added_lines, flatten_hunks, parse_hunks, pairs_view, spec_parse_hunks, ParseError,
};
use crate::text::{spec_lines, split_lines};

verus! {

/// Why no entry list could be produced.
#[derive(Clone, Copy, Debug, PartialEq, Eq, Structural)]
pub enum CheckError {
    /// The patch text does not conform to unified-diff structure.
    Parse(ParseError),
    /// The patch records an added line past the end of the final file:
    /// the patch and the content do not belong to the same change.
    PastEnd,
}

/// Every added position of a parse lies within a file of `n` lines and
/// within the machine's range.
pub open spec fn positions_fit(adds: Seq<(int, Seq<char>)>, n: int) -> bool {
    forall|k: int|
        0 <= k < adds.len() ==> (#[trigger] adds[k]).0 <= n && adds[k].0 < usize::MAX
}

/// Turns the raw unified-diff text of one file and that file's final
/// content into the list of added changelog entries: the patch's added
/// lines, each resolved to the nearest preceding `## ` heading of the
/// final content.  Fails on a malformed patch, and when the patch
/// records an addition past the final content's last line.
pub fn entries_for_patch(patch: &str, contents: &str) -> (r: Result<Vec<AddedEntry>, CheckError>)
    ensures
        ({
            let lv = spec_lines(contents@);
            match spec_parse_hunks(patch@) {
                Ok(hs) => {
                    let adds = flatten_hunks(hs);
                    if positions_fit(adds, lv.len() as int) {
                        r matches Ok(es) && entries_view(es@) == spec_classify(lv, adds)
                    } else {
                        r == Err::<Vec<AddedEntry>, CheckError>(CheckError::PastEnd)
                    }
                },
                Err(e) => r == Err::<Vec<AddedEntry>, CheckError>(CheckError::Parse(e)),
            }
        }),
{
    let hunks = match parse_hunks(patch) {
        Ok(hunks) => hunks,
        Err(e) => {
            return Err(CheckError::Parse(e));
        },
    };
    let additions = added_lines(&hunks);
    let lines = split_lines(contents);
    let ghost adds = pairs_view(additions@);
    let ghost lv = spec_lines(contents@);
    let mut k: usize = 0;
    while k < additions.len()
        invariant
            k <= additions.len(),
            adds == pairs_view(additions@),
            adds.len() == additions@.len(),
            spec_parse_hunks(patch@) == Ok::<_, ParseError>(
                crate::parser::hunks_view(hunks@),
            ),
            adds == flatten_hunks(crate::parser::hunks_view(hunks@)),
            lv == spec_lines(contents@),
            lv == lines.deep_view(),
            lv.len() == lines@.len(),
            forall|t: int|
                0 <= t < k ==> (#[trigger] additions@[t]).0 <= lines@.len() && additions@[t].0
                    < usize::MAX,
        decreases additions.len() - k,
    {
        let pos: usize = additions[k].0;
        if pos > lines.len() || pos == usize::MAX {
            proof {
                assert(adds[k as int].0 == additions@[k as int].0 as int);
                assert(!positions_fit(adds, lv.len() as int));
            }
            return Err(CheckError::PastEnd);
        }
        k = k + 1;
    }
    proof {
        assert(positions_fit(adds, lv.len() as int)) by {
            assert(forall|t: int|
                0 <= t < adds.len() ==> (#[trigger] adds[t]).0 == additions@[t].0 as int);
        }
    }
    Ok(classify_additions(&lines, &additions))
}

} // verus!
