//! Keeping the first lines of a file.

use vstd::prelude::*;

verus! {

/// The number of lines that stay of `len` when at most `keep` are wanted.
pub open spec fn kept_len(len: int, keep: u64) -> int {
    if keep < len {
        keep as int
    } else {
        len
    }
}

/// Keeps the first `keep` lines of `lines`, or all of them where there are
/// fewer.
pub fn csv_truncate(lines: &Vec<String>, keep: u64) -> (r: Vec<String>)
    ensures
        r.deep_view() == lines.deep_view().take(kept_len(lines@.len() as int, keep)),
{
    let ghost all = lines.deep_view();
    let mut r: Vec<String> = Vec::new();
    let mut i: usize = 0;
    while i < lines.len() && (i as u64) < keep
        invariant
            i <= lines.len(),
            i <= keep,
            all == lines.deep_view(),
            r.deep_view() == all.take(i as int),
        decreases lines.len() - i,
    {
        let ghost before = r.deep_view();
        r.push(lines[i].clone());
        proof {
            assert(r.deep_view() =~= before.push(all[i as int]));
            assert(all.take(i + 1) =~= all.take(i as int).push(all[i as int]));
        }
        i += 1;
    }
    r
}

} // verus!
