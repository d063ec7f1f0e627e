//! Characters, decimal numerals and separator-based splitting.
//!
//! The command and wire codecs work over vectors of characters; this module
//! supplies the pieces they share: conversion between `String` and
//! `Vec<char>`, the decimal form of unsigned integers, and splitting and
//! joining on a separator character.

use vstd::prelude::*;

verus! {

/// Whether `c` is a decimal digit.
pub open spec fn is_digit(c: char) -> bool {
    c == '0' || c == '1' || c == '2' || c == '3' || c == '4' || c == '5' || c == '6' || c == '7'
        || c == '8' || c == '9'
}

/// The value of a decimal digit character.
pub open spec fn digit_val(c: char) -> nat {
    if c == '0' {
        0
    } else if c == '1' {
        1
    } else if c == '2' {
        2
    } else if c == '3' {
        3
    } else if c == '4' {
        4
    } else if c == '5' {
        5
    } else if c == '6' {
        6
    } else if c == '7' {
        7
    } else if c == '8' {
        8
    } else {
        9
    }
}

/// The digit character for a value below ten.
pub open spec fn digit_char(d: nat) -> char {
    if d == 0 {
        '0'
    } else if d == 1 {
        '1'
    } else if d == 2 {
        '2'
    } else if d == 3 {
        '3'
    } else if d == 4 {
        '4'
    } else if d == 5 {
        '5'
    } else if d == 6 {
        '6'
    } else if d == 7 {
        '7'
    } else if d == 8 {
        '8'
    } else {
        '9'
    }
}

/// The decimal numeral of `n`, most significant digit first, with no leading
/// zeros (the numeral of zero is the single digit `0`).
pub open spec fn dec_digits(n: nat) -> Seq<char>
    decreases n,
{
    if n < 10 {
        seq![digit_char(n)]
    } else {
        dec_digits(n / 10).push(digit_char(n % 10))
    }
}

/// The number denoted by a sequence of digit characters (zero for the empty
/// sequence).
pub open spec fn dec_val(s: Seq<char>) -> nat
    decreases s.len(),
{
    if s.len() == 0 {
        0
    } else {
        dec_val(s.drop_last()) * 10 + digit_val(s.last())
    }
}

/// Whether every character of `s` is a decimal digit.
pub open spec fn all_digits(s: Seq<char>) -> bool {
    forall|i: int| 0 <= i < s.len() ==> is_digit(#[trigger] s[i])
}

/// The decimal numeral of a number reads back as that number: it is a
/// non-empty digit string and `dec_val` inverts `dec_digits`.
pub proof fn lemma_dec_roundtrip(n: nat)
    ensures
        dec_digits(n).len() >= 1,
        all_digits(dec_digits(n)),
        dec_val(dec_digits(n)) == n,
    decreases n,
{
    if n < 10 {
        let s = seq![digit_char(n)];
        assert(s.drop_last() =~= Seq::<char>::empty());
        assert(s.last() == digit_char(n));
        assert(dec_val(s) == dec_val(s.drop_last()) * 10 + digit_val(s.last()));
    } else {
        lemma_dec_roundtrip(n / 10);
        let s = dec_digits(n / 10).push(digit_char(n % 10));
        assert(s.drop_last() =~= dec_digits(n / 10));
        assert(s.last() == digit_char(n % 10));
        assert(digit_val(digit_char(n % 10)) == n % 10);
    }
}

/// Extending a digit string on the right never decreases its value.
pub proof fn lemma_dec_val_prefix_le(s: Seq<char>, i: int)
    requires
        0 <= i <= s.len(),
    ensures
        dec_val(s.take(i)) <= dec_val(s),
    decreases s.len() - i,
{
    if i < s.len() {
        assert(s.take(i + 1).drop_last() =~= s.take(i));
        assert(dec_val(s.take(i + 1)) == dec_val(s.take(i)) * 10 + digit_val(s.take(i + 1).last()));
        lemma_dec_val_prefix_le(s, i + 1);
        assert(s.take(s.len() as int) =~= s);
    } else {
        assert(s.take(i) =~= s);
    }
}

/// The decimal digit character of a value below ten.
fn digit_char_of(d: u64) -> (c: char)
    requires
        d < 10,
    ensures
        c == digit_char(d as nat),
{
    if d == 0 {
        '0'
    } else if d == 1 {
        '1'
    } else if d == 2 {
        '2'
    } else if d == 3 {
        '3'
    } else if d == 4 {
        '4'
    } else if d == 5 {
        '5'
    } else if d == 6 {
        '6'
    } else if d == 7 {
        '7'
    } else if d == 8 {
        '8'
    } else {
        '9'
    }
}

/// The value of a decimal digit character, or `None` if `c` is no digit.
fn digit_val_of(c: char) -> (r: Option<u64>)
    ensures
        r is Some <==> is_digit(c),
        r is Some ==> r->0 == digit_val(c) && r->0 < 10,
{
    if c == '0' {
        Some(0)
    } else if c == '1' {
        Some(1)
    } else if c == '2' {
        Some(2)
    } else if c == '3' {
        Some(3)
    } else if c == '4' {
        Some(4)
    } else if c == '5' {
        Some(5)
    } else if c == '6' {
        Some(6)
    } else if c == '7' {
        Some(7)
    } else if c == '8' {
        Some(8)
    } else if c == '9' {
        Some(9)
    } else {
        None
    }
}

/// Writes the decimal numeral of `n` onto the end of `out`.
pub fn push_dec_u64(out: &mut Vec<char>, n: u64)
    ensures
        final(out)@ == old(out)@ + dec_digits(n as nat),
{
    let mut rev: Vec<char> = Vec::new();
    let mut m: u64 = n;
    while m >= 10
        invariant
            dec_digits(n as nat) =~= dec_digits(m as nat) + rev@.reverse(),
        decreases m,
    {
        let d = m % 10;
        rev.push(digit_char_of(d));
        proof {
            assert(rev@.reverse() =~= seq![digit_char(d as nat)] + rev@.drop_last().reverse());
            assert(dec_digits(m as nat) =~= dec_digits((m / 10) as nat).push(
                digit_char((m % 10) as nat),
            ));
            assert(dec_digits((m / 10) as nat) + rev@.reverse() =~= dec_digits(n as nat));
        }
        m = m / 10;
    }
    rev.push(digit_char_of(m));
    proof {
        assert(rev@.reverse() =~= seq![digit_char(m as nat)] + rev@.drop_last().reverse());
        assert(dec_digits(n as nat) =~= rev@.reverse());
    }
    let ghost base = out@;
    let mut j: usize = rev.len();
    while j > 0
        invariant
            j <= rev@.len(),
            out@ =~= base + rev@.skip(j as int).reverse(),
        decreases j,
    {
        j = j - 1;
        out.push(rev[j]);
        proof {
            assert(rev@.skip(j as int).reverse() =~= rev@.skip(j as int + 1).reverse().push(
                rev@[j as int],
            ));
        }
    }
    proof {
        assert(rev@.skip(0) =~= rev@);
    }
}

/// Parses the digit characters `v[from .. to]` as an unsigned 64-bit decimal
/// number.  Returns `None` when the range is empty, holds a non-digit, or
/// denotes a number above `u64::MAX`.
pub fn parse_dec_u64(v: &Vec<char>, from: usize, to: usize) -> (r: Option<u64>)
    requires
        from <= to <= v@.len(),
    ensures
        ({
            let s = v@.subrange(from as int, to as int);
            match r {
                Some(x) => from < to && all_digits(s) && x == dec_val(s),
                None => !(from < to && all_digits(s) && dec_val(s) <= u64::MAX),
            }
        }),
{
    let ghost s = v@.subrange(from as int, to as int);
    if from == to {
        return None;
    }
    let mut acc: u64 = 0;
    let mut i: usize = from;
    while i < to
        invariant
            from <= i <= to <= v@.len(),
            s == v@.subrange(from as int, to as int),
            all_digits(s.take(i - from)),
            acc == dec_val(s.take(i - from)),
        decreases to - i,
    {
        let c = v[i];
        proof {
            assert(s[i - from] == v@[i as int]);
        }
        match digit_val_of(c) {
            None => {
                proof {
                    assert(!is_digit(s[i - from]));
                }
                return None;
            },
            Some(d) => {
                proof {
                    assert(s.take(i - from + 1).drop_last() =~= s.take(i - from));
                    assert(s.take(i - from + 1).last() == s[i - from]);
                }
                if acc > (u64::MAX - d) / 10 {
                    proof {
                        assert(dec_val(s.take(i - from + 1)) == acc * 10 + d);
                        assert(acc * 10 + d > u64::MAX) by (nonlinear_arith)
                            requires
                                acc > (u64::MAX - d) / 10,
                                d < 10,
                        ;
                        lemma_dec_val_prefix_le(s, i - from + 1);
                    }
                    return None;
                }
                proof {
                    assert(acc * 10 + d <= u64::MAX) by (nonlinear_arith)
                        requires
                            acc <= (u64::MAX - d) / 10,
                            d < 10,
                    ;
                }
                acc = acc * 10 + d;
                i = i + 1;
            },
        }
    }
    proof {
        assert(s.take(to - from) =~= s);
    }
    Some(acc)
}

/// The characters of `s`, in order.
pub fn str_to_chars(s: &str) -> (v: Vec<char>)
    ensures
        v@ == s@,
{
    let n = s.unicode_len();
    let mut v: Vec<char> = Vec::new();
    let mut i: usize = 0;
    while i < n
        invariant
            i <= n,
            n == s@.len(),
            v@ =~= s@.take(i as int),
        decreases n - i,
    {
        v.push(s.get_char(i));
        proof {
            assert(s@.take(i + 1) =~= s@.take(i as int).push(s@[i as int]));
        }
        i = i + 1;
    }
    proof {
        assert(s@.take(n as int) =~= s@);
    }
    v
}

/// Relies on `String`'s `FromIterator<char>`: collecting characters yields
/// the string whose characters are exactly those collected, in order.
#[verifier::external_body]
pub fn chars_to_string(v: &Vec<char>) -> (s: String)
    ensures
        s@ == v@,
{
    v.iter().collect()
}

/// Whether two strings hold the same characters.
pub fn str_eq(a: &str, b: &str) -> (r: bool)
    ensures
        r <==> a@ == b@,
{
    let av = str_to_chars(a);
    let bv = str_to_chars(b);
    eq_chars(&av, &bv)
}

/// Whether two character vectors hold the same characters.
pub fn eq_chars(a: &Vec<char>, b: &Vec<char>) -> (r: bool)
    ensures
        r <==> a@ =~= b@,
{
    if a.len() != b.len() {
        return false;
    }
    let mut i: usize = 0;
    while i < a.len()
        invariant
            i <= a@.len(),
            a@.len() == b@.len(),
            forall|j: int| 0 <= j < i ==> a@[j] == b@[j],
        decreases a@.len() - i,
    {
        if a[i] != b[i] {
            return false;
        }
        i = i + 1;
    }
    true
}

/// The index of the first occurrence of `sep` in `s`, or `-1` if there is
/// none.
pub open spec fn find_sep(s: Seq<char>, sep: char) -> int
    decreases s.len(),
{
    if s.len() == 0 {
        -1
    } else if s[0] == sep {
        0
    } else {
        let r = find_sep(s.drop_first(), sep);
        if r < 0 {
            -1
        } else {
            r + 1
        }
    }
}

/// What `find_sep` returns is the first occurrence, or `-1` when the
/// separator does not occur at all.
pub proof fn lemma_find_sep(s: Seq<char>, sep: char)
    ensures
        find_sep(s, sep) == -1 ==> (forall|i: int| 0 <= i < s.len() ==> s[i] != sep),
        find_sep(s, sep) >= 0 ==> {
            &&& find_sep(s, sep) < s.len()
            &&& s[find_sep(s, sep)] == sep
            &&& forall|i: int| 0 <= i < find_sep(s, sep) ==> s[i] != sep
        },
    decreases s.len(),
{
    if s.len() > 0 && s[0] != sep {
        lemma_find_sep(s.drop_first(), sep);
        let t = s.drop_first();
        assert(forall|i: int| 1 <= i < s.len() ==> s[i] == t[i - 1]);
    }
}

/// The parts of `s` delimited by `sep`: splitting at every occurrence of the
/// separator, with no occurrence left inside any part.  A sequence without
/// the separator is a single part; each separator ends a part, so `n`
/// separators give `n + 1` parts.
pub open spec fn split_at(s: Seq<char>, sep: char) -> Seq<Seq<char>>
    decreases s.len(),
    via split_at_decreases
{
    let i = find_sep(s, sep);
    if i < 0 {
        seq![s]
    } else {
        seq![s.take(i)] + split_at(s.skip(i + 1), sep)
    }
}

#[via_fn]
proof fn split_at_decreases(s: Seq<char>, sep: char) {
    lemma_find_sep(s, sep);
}

/// The parts interleaved with the separator: the inverse of `split_at` for
/// parts that do not contain the separator.
pub open spec fn join_with(parts: Seq<Seq<char>>, sep: char) -> Seq<char>
    decreases parts.len(),
{
    if parts.len() == 0 {
        Seq::empty()
    } else if parts.len() == 1 {
        parts[0]
    } else {
        parts[0] + seq![sep] + join_with(parts.drop_first(), sep)
    }
}

/// Whether no part contains the separator.
pub open spec fn sep_free(parts: Seq<Seq<char>>, sep: char) -> bool {
    forall|i: int, j: int|
        0 <= i < parts.len() && 0 <= j < parts[i].len() ==> (#[trigger] parts[i][j]) != sep
}

/// In `head + [sep] + tail` with a separator-free head, the first separator
/// is the explicit one.
proof fn lemma_find_sep_concat(head: Seq<char>, tail: Seq<char>, sep: char)
    requires
        forall|j: int| 0 <= j < head.len() ==> head[j] != sep,
    ensures
        find_sep(head + seq![sep] + tail, sep) == head.len(),
    decreases head.len(),
{
    let s = head + seq![sep] + tail;
    if head.len() == 0 {
        assert(s[0] == sep);
    } else {
        assert(s[0] == head[0]);
        lemma_find_sep_concat(head.drop_first(), tail, sep);
        assert(s.drop_first() =~= head.drop_first() + seq![sep] + tail);
    }
}

/// A separator-free sequence has no separator at all.
proof fn lemma_find_sep_none(s: Seq<char>, sep: char)
    requires
        forall|j: int| 0 <= j < s.len() ==> s[j] != sep,
    ensures
        find_sep(s, sep) == -1,
    decreases s.len(),
{
    if s.len() > 0 {
        lemma_find_sep_none(s.drop_first(), sep);
    }
}

/// Splitting undoes joining: for a non-empty list of separator-free parts,
/// `split_at(join_with(parts, sep), sep)` is `parts` again.
pub proof fn lemma_split_join(parts: Seq<Seq<char>>, sep: char)
    requires
        parts.len() >= 1,
        sep_free(parts, sep),
    ensures
        split_at(join_with(parts, sep), sep) =~= parts,
    decreases parts.len(),
{
    let s = join_with(parts, sep);
    if parts.len() == 1 {
        lemma_find_sep_none(parts[0], sep);
        assert(split_at(s, sep) =~= seq![parts[0]]);
    } else {
        let rest = parts.drop_first();
        lemma_find_sep_concat(parts[0], join_with(rest, sep), sep);
        let i = find_sep(s, sep);
        assert(i == parts[0].len());
        assert(s.take(i) =~= parts[0]);
        assert(s.skip(i + 1) =~= join_with(rest, sep));
        assert(sep_free(rest, sep)) by {
            assert(forall|k: int| 0 <= k < rest.len() ==> rest[k] =~= parts[k + 1]);
        }
        lemma_split_join(rest, sep);
    }
}

/// Splits `v` at every occurrence of `sep`.
pub fn split_chars(v: &Vec<char>, sep: char) -> (parts: Vec<Vec<char>>)
    ensures
        parts.deep_view() =~~= split_at(v@, sep),
        parts@.len() >= 1,
{
    let mut parts: Vec<Vec<char>> = Vec::new();
    let mut cur: Vec<char> = Vec::new();
    let mut i: usize = 0;
    proof {
        assert(cur@ + v@.skip(0) =~= v@);
        assert(parts.deep_view() + split_at(v@, sep) =~~= split_at(v@, sep));
    }
    while i < v.len()
        invariant
            i <= v@.len(),
            forall|j: int| 0 <= j < cur@.len() ==> cur@[j] != sep,
            split_at(v@, sep) =~~= parts.deep_view() + split_at(cur@ + v@.skip(i as int), sep),
        decreases v@.len() - i,
    {
        let c = v[i];
        proof {
            assert(v@.skip(i as int) =~= seq![v@[i as int]] + v@.skip(i + 1));
        }
        if c == sep {
            let ghost old_dv = parts.deep_view();
            let ghost old_cur = cur@;
            proof {
                lemma_find_sep_concat(old_cur, v@.skip(i + 1), sep);
                let s = old_cur + seq![sep] + v@.skip(i + 1);
                assert(old_cur + v@.skip(i as int) =~= s);
                assert(s.take(old_cur.len() as int) =~= old_cur);
                assert(s.skip(old_cur.len() as int + 1) =~= v@.skip(i + 1));
                assert(split_at(s, sep) =~= seq![old_cur] + split_at(v@.skip(i + 1), sep));
            }
            parts.push(cur);
            cur = Vec::new();
            proof {
                assert(parts.deep_view() =~~= old_dv.push(old_cur));
                assert(cur@ + v@.skip(i + 1) =~= v@.skip(i + 1));
                assert(old_dv.push(old_cur) + split_at(v@.skip(i + 1), sep) =~= old_dv + (
                seq![old_cur] + split_at(v@.skip(i + 1), sep)));
            }
        } else {
            proof {
                assert(cur@.push(c) + v@.skip(i + 1) =~= cur@ + v@.skip(i as int));
            }
            cur.push(c);
        }
        i = i + 1;
    }
    proof {
        assert(cur@ + v@.skip(v@.len() as int) =~= cur@);
        lemma_find_sep_none(cur@, sep);
        assert(split_at(cur@, sep) =~= seq![cur@]);
    }
    let ghost old_dv = parts.deep_view();
    let ghost old_cur = cur@;
    parts.push(cur);
    proof {
        assert(parts.deep_view() =~~= old_dv.push(old_cur));
        assert(old_dv.push(old_cur) =~= old_dv + seq![old_cur]);
    }
    parts
}

/// Appends `parts`, interleaved with `sep`, onto `out`.
pub fn push_joined(out: &mut Vec<char>, parts: &Vec<Vec<char>>, sep: char)
    requires
        parts@.len() >= 1,
    ensures
        final(out)@ =~= old(out)@ + join_with(parts.deep_view(), sep),
{
    let ghost base = out@;
    let ghost all = parts.deep_view();
    let mut i: usize = 0;
    proof {
        assert(all.skip(0) =~= all);
    }
    while i < parts.len()
        invariant
            i <= parts@.len(),
            parts@.len() >= 1,
            all == parts.deep_view(),
            i < parts@.len() ==> base + join_with(all, sep) =~= out@ + join_with(
                all.skip(i as int),
                sep,
            ),
            i == parts@.len() ==> out@ =~= base + join_with(all, sep),
        decreases parts@.len() - i,
    {
        let ghost at_part = out@;
        let mut j: usize = 0;
        while j < parts[i].len()
            invariant
                i < parts@.len(),
                j <= all[i as int].len(),
                all == parts.deep_view(),
                out@ =~= at_part + all[i as int].take(j as int),
            decreases all[i as int].len() - j,
        {
            let c = parts[i][j];
            out.push(c);
            proof {
                assert(all[i as int].take(j + 1) =~= all[i as int].take(j as int).push(c));
            }
            j = j + 1;
        }
        proof {
            assert(all[i as int].take(all[i as int].len() as int) =~= all[i as int]);
            assert(all.skip(i as int)[0] =~= all[i as int]);
        }
        if i + 1 < parts.len() {
            proof {
                let tail = all.skip(i as int);
                assert(tail.len() >= 2);
                assert(tail.drop_first() =~= all.skip(i + 1));
            }
            out.push(sep);
        } else {
            proof {
                let tail = all.skip(i as int);
                assert(tail.len() == 1);
            }
        }
        i = i + 1;
    }
}

} // verus!
