//! Card numbers: the split into a prefix and a trailing number by which cards
//! of one set are ordered.

use vstd::prelude::*;
use crate::text::{digit_char, from_chars, is_digit, to_chars};

verus! {

/// How many characters stand before the first ASCII digit of `s`; the length
/// of `s` where it holds no digit.
pub open spec fn leading_non_digits(s: Seq<char>) -> int
    decreases s.len(),
{
    if s.len() == 0 || is_digit(s[0]) {
        0
    } else {
        1 + leading_non_digits(s.skip(1))
    }
}

/// Where the numeric part of a card number begins: at its first digit, and at
/// its start where it holds no digit.
pub open spec fn numeric_start(s: Seq<char>) -> int {
    let k = leading_non_digits(s);
    if k == s.len() {
        0
    } else {
        k
    }
}

/// The position of the last `c` in `s`, or -1 where `s` holds none.
pub open spec fn last_index_of(s: Seq<char>, c: char) -> int
    decreases s.len(),
{
    if s.len() == 0 {
        -1
    } else if s.last() == c {
        s.len() - 1
    } else {
        last_index_of(s.drop_last(), c)
    }
}

/// The ASCII digits of `s`, in order.
pub open spec fn digits_of(s: Seq<char>) -> Seq<char>
    decreases s.len(),
{
    if s.len() == 0 {
        Seq::empty()
    } else if is_digit(s.last()) {
        digits_of(s.drop_last()).push(s.last())
    } else {
        digits_of(s.drop_last())
    }
}

/// The number that a string of ASCII digits writes in base ten.
pub open spec fn decimal_value(d: Seq<char>) -> nat
    decreases d.len(),
{
    if d.len() == 0 {
        0
    } else {
        decimal_value(d.drop_last()) * 10 + ((d.last() as u32 - '0' as u32) as nat)
    }
}

/// The number that the digits of `s` write, and 0 where that number does not
/// fit in an `i32`.
pub open spec fn suffix_number(s: Seq<char>) -> int {
    let v = decimal_value(digits_of(s));
    if v <= i32::MAX {
        v as int
    } else {
        0
    }
}

/// The prefix and the trailing number of a card number.
///
/// The numeric part begins at the first digit. Where a hyphen stands in it
/// after its first character, the last such hyphen ends the prefix, and the
/// number is read from what follows it; otherwise the prefix is what stands
/// before the numeric part, and the number is read from all of that part.
pub open spec fn split_number(s: Seq<char>) -> (Seq<char>, int) {
    let start = numeric_start(s);
    let rest = s.skip(start);
    let dash = last_index_of(rest, '-');
    if dash > 0 {
        (
            s.subrange(0, start) + rest.subrange(0, dash) + seq!['-'],
            suffix_number(rest.skip(dash + 1)),
        )
    } else {
        (s.subrange(0, start), suffix_number(rest))
    }
}

proof fn lemma_last_index_of_bounds(s: Seq<char>, c: char)
    ensures
        -1 <= last_index_of(s, c) < s.len(),
    decreases s.len(),
{
    if s.len() > 0 && s.last() != c {
        lemma_last_index_of_bounds(s.drop_last(), c);
    }
}

/// Where the numeric part of `s` begins.
fn find_numeric_start(s: &Vec<char>) -> (r: usize)
    ensures
        r == numeric_start(s@),
        r <= s.len(),
{
    let mut i: usize = 0;
    proof {
        assert(s@.skip(0) =~= s@);
    }
    while i < s.len() && !digit_char(s[i])
        invariant
            i <= s.len(),
            leading_non_digits(s@) == i + leading_non_digits(s@.skip(i as int)),
        decreases s.len() - i,
    {
        proof {
            assert(s@.skip(i as int).skip(1) =~= s@.skip(i + 1));
        }
        i += 1;
    }
    if i == s.len() {
        0
    } else {
        i
    }
}

/// The position in `s`, counted from `from`, of the last `c` that stands at
/// or after `from`; `None` where there is none.
fn find_last(s: &Vec<char>, from: usize, c: char) -> (r: Option<usize>)
    requires
        from <= s.len(),
    ensures
        match r {
            Some(k) => k == last_index_of(s@.skip(from as int), c),
            None => last_index_of(s@.skip(from as int), c) == -1,
        },
{
    let ghost rest = s@.skip(from as int);
    let mut j: usize = s.len();
    proof {
        assert(rest.subrange(0, rest.len() as int) =~= rest);
    }
    while j > from
        invariant
            from <= j <= s.len(),
            rest == s@.skip(from as int),
            last_index_of(rest, c) == last_index_of(rest.subrange(0, j - from), c),
        decreases j - from,
    {
        let ghost cur = rest.subrange(0, j - from);
        proof {
            assert(cur.last() == s@[j - 1]);
            assert(cur.drop_last() =~= rest.subrange(0, j - 1 - from));
        }
        if s[j - 1] == c {
            return Some(j - 1 - from);
        }
        j -= 1;
    }
    None
}

/// The number that the digits of `s` from position `from` on write.
fn read_suffix_number(s: &Vec<char>, from: usize) -> (r: i32)
    requires
        from <= s.len(),
    ensures
        r == suffix_number(s@.skip(from as int)),
{
    let ghost rest = s@.skip(from as int);
    let mut acc: u64 = 0;
    let mut over = false;
    let mut i: usize = from;
    proof {
        assert(rest.subrange(0, 0) =~= Seq::<char>::empty());
    }
    while i < s.len()
        invariant
            from <= i <= s.len(),
            rest == s@.skip(from as int),
            !over ==> acc == decimal_value(digits_of(rest.subrange(0, i - from))),
            !over ==> acc <= i32::MAX,
            over ==> decimal_value(digits_of(rest.subrange(0, i - from))) > i32::MAX,
        decreases s.len() - i,
    {
        let c = s[i];
        let ghost before = rest.subrange(0, i - from);
        let ghost after = rest.subrange(0, i + 1 - from);
        proof {
            assert(after.last() == c);
            assert(after.drop_last() =~= before);
        }
        if digit_char(c) {
            proof {
                assert(digits_of(after) == digits_of(before).push(c));
                assert(digits_of(after).drop_last() =~= digits_of(before));
                assert(decimal_value(digits_of(after)) == decimal_value(digits_of(before)) * 10
                    + ((c as u32 - '0' as u32) as nat));
            }
            if !over {
                let d: u64 = (c as u32 - '0' as u32) as u64;
                acc = acc * 10 + d;
                if acc > 0x7fff_ffff {
                    over = true;
                }
            }
        }
        i += 1;
    }
    proof {
        assert(rest.subrange(0, rest.len() as int) =~= rest);
    }
    if over {
        0
    } else {
        acc as i32
    }
}

/// Splits a card number such as `ST01-001` into its prefix `ST01-` and its
/// trailing number 1.
pub fn split_card_number(card_number: &str) -> (r: (String, i32))
    ensures
        r.0@ == split_number(card_number@).0,
        r.1 == split_number(card_number@).1,
{
    let s = to_chars(card_number);
    let start = find_numeric_start(&s);
    let dash = find_last(&s, start, '-');
    let mut prefix: Vec<char> = Vec::new();
    let mut end: usize = start;
    let mut number_from: usize = start;
    let mut hyphen = false;
    proof {
        lemma_last_index_of_bounds(s@.skip(start as int), '-');
    }
    match dash {
        Some(k) => {
            if k > 0 {
                end = start + k;
                number_from = start + k + 1;
                hyphen = true;
            }
        },
        None => {},
    }
    let mut i: usize = 0;
    while i < end
        invariant
            i <= end <= s.len(),
            prefix@ == s@.subrange(0, i as int),
        decreases end - i,
    {
        prefix.push(s[i]);
        i += 1;
        proof {
            assert(prefix@ =~= s@.subrange(0, i as int));
        }
    }
    if hyphen {
        prefix.push('-');
    }
    let number = read_suffix_number(&s, number_from);
    proof {
        let rest = s@.skip(start as int);
        let d = last_index_of(rest, '-');
        if d > 0 {
            assert(s@.subrange(0, end as int) =~= s@.subrange(0, start as int) + rest.subrange(
                0,
                d,
            ));
            assert(rest.skip(d + 1) =~= s@.skip(number_from as int));
        }
    }
    (from_chars(&prefix), number)
}

} // verus!
