//! The diagnostic reporter's formatting: a parse failure becomes one line,
//! `<path>:<line>:<col> Error: <message>`, with the position one-based.

use vstd::prelude::*;

verus! {

use crate::digits::{dec_str, usize_to_string};

/// The diagnostic line for a failure at zero-based `line` and `col`: the
/// path, the one-based position, and the message.
pub open spec fn spec_diagnostic(path: Seq<char>, line: int, col: int, msg: Seq<char>) -> Seq<
    char,
> {
    path + seq![':'] + dec_str((line + 1) as nat) + seq![':'] + dec_str((col + 1) as nat)
        + seq![' ', 'E', 'r', 'r', 'o', 'r', ':', ' '] + msg
}

/// Writes the diagnostic line for a failure at zero-based `line` and `col`.
pub fn format_diagnostic(path: &str, line: usize, col: usize, msg: &str) -> (r: String)
    requires
        line < usize::MAX,
        col < usize::MAX,
    ensures
        r@ == spec_diagnostic(path@, line as int, col as int, msg@),
{
    let mut r = String::from_str(path);
    r.push(':');
    let ln = usize_to_string(line + 1);
    r.append(ln.as_str());
    r.push(':');
    let cn = usize_to_string(col + 1);
    r.append(cn.as_str());
    r.append(" Error: ");
    r.append(msg);
    proof {
        reveal_strlit(" Error: ");
        assert(" Error: "@ =~= seq![' ', 'E', 'r', 'r', 'o', 'r', ':', ' ']);
        assert(r@ =~= spec_diagnostic(path@, line as int, col as int, msg@));
    }
    r
}

} // verus!
