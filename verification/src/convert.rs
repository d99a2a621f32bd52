//! Turning comma-separated lines with decimal points into tab-separated lines
//! with decimal commas.

use vstd::prelude::*;

verus! {

/// What becomes of one character: a dot becomes a comma, a comma becomes a
/// tab, and any other character stays.
pub open spec fn converted_char(c: char) -> char {
    if c == '.' {
        ','
    } else if c == ',' {
        '\t'
    } else {
        c
    }
}

/// What becomes of a line: each character is converted where it stands.
pub open spec fn converted(line: Seq<char>) -> Seq<char> {
    Seq::new(line.len(), |i: int| converted_char(line[i]))
}

/// Converts one character.
pub fn convert_char(c: char) -> (r: char)
    ensures
        r == converted_char(c),
{
    if c == '.' {
        ','
    } else if c == ',' {
        '\t'
    } else {
        c
    }
}

/// Converts one line.
pub fn convert_line(line: &str) -> (r: String)
    ensures
        r@ == converted(line@),
{
    let mut r = String::new();
    for c in it: line.chars()
        invariant
            it.seq() == line@,
            r@ == converted(line@.take(it.index() as int)),
    {
        r.push(convert_char(c));
        proof {
            assert(r@ =~= converted(line@.take(it.index() + 1)));
        }
    }
    proof {
        assert(line@.take(line@.len() as int) =~= line@);
    }
    r
}

/// Converts every line: the result has a line for each line of `lines`, in
/// the same order, and no line depends on another.
pub fn csv_to_tsv(lines: &Vec<String>) -> (r: Vec<String>)
    ensures
        r@.len() == lines@.len(),
        forall|i: int| 0 <= i < lines@.len() ==> (#[trigger] r@[i])@ == converted(lines@[i]@),
{
    let mut r: Vec<String> = Vec::new();
    let mut i: usize = 0;
    while i < lines.len()
        invariant
            i <= lines.len(),
            r@.len() == i,
            forall|j: int| 0 <= j < i ==> (#[trigger] r@[j])@ == converted(lines@[j]@),
        decreases lines.len() - i,
    {
        r.push(convert_line(lines[i].as_str()));
        i += 1;
    }
    r
}

} // verus!
