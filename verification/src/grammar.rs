//! The textual grammar of ramp commands.
//!
//! A command is a list of directives separated by `+`. A directive is either a
//! hold, written `$n$`, or a ramp, written `/value,n/`, where `n` is a count of
//! samples and `value` is a decimal number with an optional sign.

use vstd::prelude::*;
use crate::text::chars_of;

verus! {

/// The character that separates the directives of a command.
pub const SEPARATOR: char = '+';

/// `c` is one of the ten ASCII digits.
pub open spec fn is_digit(c: char) -> bool {
    '0' <= c && c <= '9'
}

/// `s` is a count: one or more ASCII digits and nothing else.
pub open spec fn is_count(s: Seq<char>) -> bool {
    &&& s.len() > 0
    &&& forall|i: int| 0 <= i < s.len() ==> is_digit(#[trigger] s[i])
}

/// `s` is a decimal without a sign: a count, or two counts joined by a dot.
pub open spec fn is_unsigned_decimal(s: Seq<char>) -> bool {
    ||| is_count(s)
    ||| exists|dot: int| decimal_splits_at(s, dot)
}

/// `s` is a count, a dot at index `dot`, and another count.
pub open spec fn decimal_splits_at(s: Seq<char>, dot: int) -> bool {
    &&& 0 < dot < s.len() - 1
    &&& s[dot] == '.'
    &&& is_count(s.take(dot))
    &&& is_count(s.skip(dot + 1))
}

/// `s` is a decimal: an unsigned decimal, with `+` or `-` in front or without.
pub open spec fn is_decimal(s: Seq<char>) -> bool {
    if s.len() > 0 && (s[0] == '+' || s[0] == '-') {
        is_unsigned_decimal(s.skip(1))
    } else {
        is_unsigned_decimal(s)
    }
}

/// `t` is a hold directive: a count between two dollar signs.
pub open spec fn is_hold_token(t: Seq<char>) -> bool {
    &&& t.len() >= 2
    &&& t[0] == '$'
    &&& t[t.len() - 1] == '$'
    &&& is_count(t.subrange(1, t.len() - 1))
}

/// `t` is a slash, a decimal, a comma at index `comma`, a count and a slash.
pub open spec fn ramp_splits_at(t: Seq<char>, comma: int) -> bool {
    &&& 0 < comma < t.len() - 1
    &&& t[0] == '/'
    &&& t[comma] == ','
    &&& t[t.len() - 1] == '/'
    &&& is_decimal(t.subrange(1, comma))
    &&& is_count(t.subrange(comma + 1, t.len() - 1))
}

/// `t` is a ramp directive: a decimal and a count, separated by a comma,
/// between two slashes.
pub open spec fn is_ramp_token(t: Seq<char>) -> bool {
    exists|comma: int| ramp_splits_at(t, comma)
}

} // verus!

verus! {

/// What the digit `c` counts for.
pub open spec fn digit_value(c: char) -> int {
    c as int - '0' as int
}

/// The number that the digits of `s` write in base ten.
pub open spec fn count_value(s: Seq<char>) -> int
    decreases s.len(),
{
    if s.len() == 0 {
        0
    } else {
        10 * count_value(s.drop_last()) + digit_value(s.last())
    }
}

/// The number of samples that `s` asks for: its value, where `s` is a count
/// and the value fits in 64 bits.
pub open spec fn count_of(s: Seq<char>) -> Option<u64> {
    if is_count(s) && count_value(s) <= u64::MAX {
        Some(count_value(s) as u64)
    } else {
        None
    }
}

/// Digits written after a number do not make it smaller.
pub proof fn lemma_count_value_grows(s: Seq<char>, k: int)
    requires
        0 <= k <= s.len(),
        forall|i: int| 0 <= i < s.len() ==> is_digit(#[trigger] s[i]),
    ensures
        0 <= count_value(s.take(k)) <= count_value(s),
    decreases s.len() - k,
{
    if k == s.len() {
        assert(s.take(k) =~= s);
        lemma_count_value_nonnegative(s);
    } else {
        lemma_count_value_grows(s, k + 1);
        assert(s.take(k + 1).drop_last() =~= s.take(k));
        lemma_count_value_nonnegative(s.take(k));
    }
}

/// A run of digits writes no negative number.
pub proof fn lemma_count_value_nonnegative(s: Seq<char>)
    requires
        forall|i: int| 0 <= i < s.len() ==> is_digit(#[trigger] s[i]),
    ensures
        0 <= count_value(s),
    decreases s.len(),
{
    if s.len() > 0 {
        lemma_count_value_nonnegative(s.drop_last());
    }
}

/// Reads the count written in `chars` from index `from` up to, and without,
/// index `to`.
pub fn count_in(chars: &Vec<char>, from: usize, to: usize) -> (r: Option<u64>)
    requires
        from <= to <= chars@.len(),
    ensures
        r == count_of(chars@.subrange(from as int, to as int)),
{
    let ghost s = chars@.subrange(from as int, to as int);
    if from == to {
        return None;
    }
    let mut value: u64 = 0;
    let mut i: usize = from;
    while i < to
        invariant
            from <= i <= to <= chars@.len(),
            s == chars@.subrange(from as int, to as int),
            forall|j: int| 0 <= j < i - from ==> is_digit(#[trigger] s[j]),
            value == count_value(s.take(i - from)),
        decreases to - i,
    {
        let c = chars[i];
        if c < '0' || c > '9' {
            assert(!is_digit(s[i - from]));
            return None;
        }
        let digit: u64 = (c as u32 - '0' as u32) as u64;
        proof {
            assert(s.take(i - from + 1).drop_last() =~= s.take(i - from));
            assert(count_value(s.take(i - from + 1)) == 10 * value + digit);
            if is_count(s) {
                lemma_count_value_grows(s, i - from + 1);
            }
        }
        if value > (u64::MAX - digit) / 10 {
            return None;
        }
        value = 10 * value + digit;
        i += 1;
    }
    proof {
        assert(s.take(to - from) =~= s);
    }
    Some(value)
}

/// Reads `text` as a count of samples.
pub fn parse_count(text: &str) -> (r: Option<u64>)
    ensures
        r == count_of(text@),
{
    let chars = chars_of(text);
    proof {
        assert(chars@.subrange(0, chars@.len() as int) =~= chars@);
    }
    count_in(&chars, 0, chars.len())
}

} // verus!

verus! {

/// The directives of a command: the pieces of `s` between its separators, in
/// order. There is one piece more than there are separators, and a piece may
/// be empty.
pub open spec fn split(s: Seq<char>) -> Seq<Seq<char>>
    decreases s.len(),
{
    if s.len() == 0 {
        seq![Seq::empty()]
    } else {
        let before = split(s.drop_last());
        if s.last() == SEPARATOR {
            before.push(Seq::empty())
        } else {
            before.drop_last().push(before.last().push(s.last()))
        }
    }
}

/// The text that `pieces` make with a separator between each two of them.
pub open spec fn join(pieces: Seq<Seq<char>>) -> Seq<char>
    decreases pieces.len(),
{
    if pieces.len() == 0 {
        Seq::empty()
    } else if pieces.len() == 1 {
        pieces[0]
    } else {
        join(pieces.drop_last()).push(SEPARATOR) + pieces.last()
    }
}

/// No piece of `pieces` holds a separator.
pub open spec fn separator_free(pieces: Seq<Seq<char>>) -> bool {
    forall|i: int, j: int|
        0 <= i < pieces.len() && 0 <= j < pieces[i].len() ==> #[trigger] pieces[i][j]
            != SEPARATOR
}

/// Splitting a text gives at least one piece, no piece holds a separator, and
/// the pieces joined again are the text.
pub proof fn lemma_split_then_join(s: Seq<char>)
    ensures
        split(s).len() >= 1,
        separator_free(split(s)),
        join(split(s)) == s,
    decreases s.len(),
{
    if s.len() == 0 {
        assert(join(split(s)) =~= s);
    } else {
        let head = s.drop_last();
        let before = split(head);
        lemma_split_then_join(head);
        if s.last() == SEPARATOR {
            let after = before.push(Seq::empty());
            assert(after.drop_last() =~= before);
            assert(join(after) =~= join(before).push(SEPARATOR));
            assert(head.push(s.last()) =~= s);
        } else {
            let grown = before.last().push(s.last());
            let after = before.drop_last().push(grown);
            if before.len() == 1 {
                assert(join(before) == before[0]);
                assert(join(after) =~= head.push(s.last()));
            } else {
                assert(after.drop_last() =~= before.drop_last());
                assert(join(after) =~= join(before.drop_last()).push(SEPARATOR) + grown);
                assert(join(before) == join(before.drop_last()).push(SEPARATOR) + before.last());
                assert(join(after) =~= join(before).push(s.last()));
            }
            assert(head.push(s.last()) =~= s);
            assert forall|i: int, j: int|
                0 <= i < after.len() && 0 <= j < after[i].len() implies #[trigger] after[i][j]
                != SEPARATOR by {
                if i < after.len() - 1 {
                    assert(after[i] == before[i]);
                } else if j < grown.len() - 1 {
                    assert(grown[j] == before.last()[j]);
                }
            }
        }
    }
}

/// Joining pieces that hold no separator and splitting the text again gives
/// the pieces back: a text has one such list of pieces only.
pub proof fn lemma_join_then_split(pieces: Seq<Seq<char>>)
    requires
        pieces.len() >= 1,
        separator_free(pieces),
    ensures
        split(join(pieces)) == pieces,
    decreases pieces.len(), pieces.last().len(),
{
    let last = pieces.last();
    let text = join(pieces);
    if last.len() == 0 {
        if pieces.len() == 1 {
            assert(text =~= Seq::<char>::empty());
            assert(split(text) =~= pieces);
        } else {
            let before = pieces.drop_last();
            assert(separator_free(before)) by {
                assert forall|i: int, j: int|
                    0 <= i < before.len() && 0 <= j < before[i].len() implies #[trigger] before[i][j]
                    != SEPARATOR by {
                    assert(before[i] == pieces[i]);
                }
            }
            lemma_join_then_split(before);
            assert(text =~= join(before).push(SEPARATOR));
            assert(text.drop_last() =~= join(before));
            assert(last =~= Seq::<char>::empty());
            assert(before.push(last) =~= pieces);
        }
    } else {
        let shorter = pieces.drop_last().push(last.drop_last());
        assert(separator_free(shorter)) by {
            assert forall|i: int, j: int|
                0 <= i < shorter.len() && 0 <= j < shorter[i].len() implies #[trigger] shorter[i][j]
                != SEPARATOR by {
                if i < shorter.len() - 1 {
                    assert(shorter[i] == pieces[i]);
                } else {
                    assert(shorter[i][j] == pieces[i][j]);
                }
            }
        }
        lemma_join_then_split(shorter);
        assert(last[last.len() - 1] == pieces[pieces.len() - 1][last.len() - 1]);
        if pieces.len() == 1 {
            assert(join(shorter) == last.drop_last());
        } else {
            assert(shorter.drop_last() =~= pieces.drop_last());
            assert(join(shorter) =~= join(pieces.drop_last()).push(SEPARATOR) + last.drop_last());
        }
        assert(text.drop_last() =~= join(shorter));
        assert(text.last() == last.last());
        assert(shorter.drop_last().push(shorter.last().push(last.last())) =~= pieces) by {
            assert(shorter.last().push(last.last()) =~= last);
        }
    }
}

/// Cuts a command into its directives.
pub fn split_commands(commands: &str) -> (tokens: Vec<String>)
    ensures
        tokens.deep_view() == split(commands@),
{
    let mut tokens: Vec<String> = Vec::new();
    let mut current = String::new();
    for c in it: commands.chars()
        invariant
            it.seq() == commands@,
            tokens.deep_view().push(current@) == split(commands@.take(it.index() as int)),
    {
        let ghost done = commands@.take(it.index() as int);
        let ghost next = commands@.take(it.index() + 1);
        proof {
            assert(next.drop_last() =~= done);
            assert(next.last() == c);
        }
        if c == SEPARATOR {
            let ghost before = tokens.deep_view();
            tokens.push(current);
            current = String::new();
            proof {
                assert(tokens.deep_view() =~= before.push(split(done).last()));
                assert(tokens.deep_view() =~= split(done));
            }
        } else {
            current.push(c);
            proof {
                assert(tokens.deep_view() =~= split(done).drop_last());
            }
        }
    }
    let ghost before = tokens.deep_view();
    tokens.push(current);
    proof {
        assert(commands@.take(commands@.len() as int) =~= commands@);
        assert(tokens.deep_view() =~= before.push(current@));
    }
    tokens
}

} // verus!
