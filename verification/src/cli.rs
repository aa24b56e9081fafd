//! Checks on the command-line arguments of the `raig` tool.

use vstd::prelude::*;
use vstd::string::*;

verus! {

/// Whether `s` ends with `suffix`.
pub open spec fn ends_with(s: Seq<char>, suffix: Seq<char>) -> bool {
    suffix.len() <= s.len() && s.subrange(s.len() - suffix.len(), s.len() as int) == suffix
}

fn str_ends_with(s: &str, suffix: &str) -> (r: bool)
    ensures
        r == ends_with(s@, suffix@),
{
    let n = s.unicode_len();
    let k = suffix.unicode_len();
    if k > n {
        return false;
    }
    let mut i: usize = 0;
    while i < k
        invariant
            k <= n,
            n == s@.len(),
            k == suffix@.len(),
            i <= k,
            forall|j: int| 0 <= j < i ==> s@[n - k + j] == suffix@[j],
        decreases k - i,
    {
        if s.get_char(n - k + i) != suffix.get_char(i) {
            assert(s@.subrange(n - k, n as int)[i as int] != suffix@[i as int]);
            return false;
        }
        i = i + 1;
    }
    assert(s@.subrange(n - k, n as int) =~= suffix@);
    true
}

/// Accept an output path for DOT text: it must end with `.dot`.
pub fn parse_dot_path(s: &str) -> (r: Result<String, String>)
    ensures
        ends_with(s@, ".dot"@) ==> (r matches Ok(p) && p@ == s@),
        !ends_with(s@, ".dot"@) ==> (r matches Err(m) && m@ == "output file must end with .dot: "@ + s@),
{
    if str_ends_with(s, ".dot") {
        Ok(String::from_str(s))
    } else {
        let mut message = String::from_str("output file must end with .dot: ");
        message.append(s);
        Err(message)
    }
}

/// Accept an output path for AIGER text: it must end with `.aag` or `.aig`.
pub fn parse_aiger_output_path(s: &str) -> (r: Result<String, String>)
    ensures
        ends_with(s@, ".aag"@) || ends_with(s@, ".aig"@) ==> (r matches Ok(p) && p@ == s@),
        !(ends_with(s@, ".aag"@) || ends_with(s@, ".aig"@)) ==> (r matches Err(m) && m@
            == "output file must end with .aag or .aig: "@ + s@),
{
    if str_ends_with(s, ".aag") || str_ends_with(s, ".aig") {
        Ok(String::from_str(s))
    } else {
        let mut message = String::from_str("output file must end with .aag or .aig: ");
        message.append(s);
        Err(message)
    }
}

} // verus!
