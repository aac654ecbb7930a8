//! What is done to a line of input before it is offered to an estimator.

use vstd::prelude::*;
use vstd::string::StrSliceExecFns;
use vstd::string::StringExecFns;

verus! {

/// A line without the line ending that closes it: a final `\n`, and a `\r`
/// in front of that one.
pub open spec fn trimmed(line: Seq<char>) -> Seq<char> {
    if line.len() > 0 && line.last() == '\n' {
        let rest = line.drop_last();
        if rest.len() > 0 && rest.last() == '\r' {
            rest.drop_last()
        } else {
            rest
        }
    } else {
        line
    }
}

/// Cuts the line ending off `s`, if it ends in one.
pub fn trim_newline(s: &mut String)
    ensures
        final(s)@ == trimmed(old(s)@),
{
    let line = s.as_str();
    let len = line.unicode_len();
    if len > 0 && line.get_char(len - 1) == '\n' {
        let keep = if len > 1 && line.get_char(len - 2) == '\r' {
            len - 2
        } else {
            len - 1
        };
        let kept = String::from_str(line.substring_char(0, keep));
        proof {
            assert(s@.subrange(0, len - 1) =~= s@.drop_last());
            if len > 1 {
                assert(s@.subrange(0, len - 2) =~= s@.drop_last().drop_last());
            }
        }
        *s = kept;
    }
}

} // verus!
