//! The text layer of the matrix files: a line is cut into tokens at white
//! space, and a token is read as an unsigned decimal number.

use vstd::prelude::*;

verus! {

/// The six ASCII white space bytes: tab, line feed, vertical tab, form feed,
/// carriage return and space.
pub open spec fn is_space(b: u8) -> bool {
    b == 0x20 || (0x09 <= b && b <= 0x0d)
}

/// The first position at or after `from` that holds no white space, or the
/// length of `s` when only white space follows.
pub open spec fn token_start(s: Seq<u8>, from: int) -> int
    decreases s.len() - from,
{
    if from < 0 || from >= s.len() {
        s.len() as int
    } else if !is_space(s[from]) {
        from
    } else {
        token_start(s, from + 1)
    }
}

/// The first position at or after `from` that holds white space, or the length
/// of `s` when none follows.
pub open spec fn token_end(s: Seq<u8>, from: int) -> int
    decreases s.len() - from,
{
    if from < 0 || from >= s.len() {
        s.len() as int
    } else if is_space(s[from]) {
        from
    } else {
        token_end(s, from + 1)
    }
}

/// The tokens of `s` that begin at or after `from`, in order. A token is a
/// maximal run of bytes that are not white space.
pub open spec fn tokens_from(s: Seq<u8>, from: int) -> Seq<Seq<u8>>
    decreases s.len() - from,
{
    let a = token_start(s, from);
    let b = token_end(s, a);
    if 0 <= from && from <= a && a < b && b <= s.len() {
        seq![s.subrange(a, b)] + tokens_from(s, b)
    } else {
        Seq::empty()
    }
}

/// The tokens of a line.
pub open spec fn tokens(s: Seq<u8>) -> Seq<Seq<u8>> {
    tokens_from(s, 0)
}

/// The byte strings that a vector of byte vectors stands for.
pub open spec fn views(v: Seq<Vec<u8>>) -> Seq<Seq<u8>> {
    Seq::new(v.len(), |i: int| v[i]@)
}

pub proof fn lemma_token_start_bounds(s: Seq<u8>, from: int)
    requires
        0 <= from <= s.len(),
    ensures
        from <= token_start(s, from) <= s.len(),
        token_start(s, from) < s.len() ==> !is_space(s[token_start(s, from)]),
    decreases s.len() - from,
{
    if from < s.len() && is_space(s[from]) {
        lemma_token_start_bounds(s, from + 1);
    }
}

pub proof fn lemma_token_end_bounds(s: Seq<u8>, from: int)
    requires
        0 <= from <= s.len(),
    ensures
        from <= token_end(s, from) <= s.len(),
        from < s.len() && !is_space(s[from]) ==> from < token_end(s, from),
    decreases s.len() - from,
{
    if from < s.len() && !is_space(s[from]) {
        lemma_token_end_bounds(s, from + 1);
    }
}

/// Whether a byte is white space.
pub fn byte_is_space(b: u8) -> (r: bool)
    ensures
        r == is_space(b),
{
    b == 0x20 || (0x09 <= b && b <= 0x0d)
}

/// Cuts a line into its tokens.
pub fn split_whitespace(line: &[u8]) -> (out: Vec<Vec<u8>>)
    ensures
        views(out@) == tokens(line@),
{
    let mut out: Vec<Vec<u8>> = Vec::new();
    let mut i: usize = 0;
    let n: usize = line.len();
    loop
        invariant
            n == line@.len(),
            i <= n,
            views(out@) + tokens_from(line@, i as int) == tokens(line@),
        ensures
            views(out@) == tokens(line@),
        decreases n - i,
    {
        let ghost from = i as int;
        while i < n && byte_is_space(line[i])
            invariant
                n == line@.len(),
                from <= i <= n,
                token_start(line@, i as int) == token_start(line@, from),
            decreases n - i,
        {
            i += 1;
        }
        if i >= n {
            proof {
                assert(tokens_from(line@, from) == Seq::<Seq<u8>>::empty());
                assert(views(out@) + Seq::<Seq<u8>>::empty() =~= views(out@));
            }
            break ;
        }
        let a: usize = i;
        let mut token: Vec<u8> = Vec::new();
        while i < n && !byte_is_space(line[i])
            invariant
                n == line@.len(),
                a <= i <= n,
                a < n,
                !is_space(line@[a as int]),
                token_end(line@, i as int) == token_end(line@, a as int),
                token@ == line@.subrange(a as int, i as int),
            decreases n - i,
        {
            token.push(line[i]);
            i += 1;
            proof {
                assert(token@ == line@.subrange(a as int, i as int));
            }
        }
        proof {
            lemma_token_end_bounds(line@, a as int);
            assert(token_start(line@, from) == a);
            assert(token_end(line@, a as int) == i);
            assert(tokens_from(line@, from) == seq![token@] + tokens_from(line@, i as int));
            let before = views(out@);
            let after = views(out@.push(token));
            assert(after == before + seq![token@]);
            assert(after + tokens_from(line@, i as int) == before + (seq![token@] + tokens_from(
                line@,
                i as int,
            )));
        }
        out.push(token);
    }
    out
}

/// The ten ASCII digits.
pub open spec fn is_digit(b: u8) -> bool {
    0x30 <= b && b <= 0x39
}

/// Whether every byte of `s` is a digit.
pub open spec fn all_digits(s: Seq<u8>) -> bool {
    forall|i: int| 0 <= i < s.len() ==> is_digit(#[trigger] s[i])
}

/// The number that a string of digits writes in base ten. The empty string
/// writes zero.
pub open spec fn digits_value(s: Seq<u8>) -> nat
    decreases s.len(),
{
    if s.len() == 0 {
        0
    } else {
        digits_value(s.drop_last()) * 10 + (s.last() - 0x30) as nat
    }
}

/// The digits of a token: the token itself, without its plus sign if it
/// begins with one.
pub open spec fn unsigned_part(s: Seq<u8>) -> Seq<u8> {
    if s.len() > 0 && s[0] == 0x2b {
        s.skip(1)
    } else {
        s
    }
}

/// The number that a token writes: an optional plus sign, then one digit or
/// more. Any other token writes no number.
pub open spec fn number(s: Seq<u8>) -> Option<nat> {
    let d = unsigned_part(s);
    if d.len() > 0 && all_digits(d) {
        Some(digits_value(d))
    } else {
        None
    }
}

/// The number that a token writes, where it is at most `max`.
pub open spec fn number_up_to(s: Seq<u8>, max: nat) -> Option<nat> {
    match number(s) {
        Some(v) => if v <= max {
            Some(v)
        } else {
            None
        },
        None => None,
    }
}

/// A string of digits writes at least what any of its prefixes writes.
pub proof fn lemma_digits_value_grows(s: Seq<u8>, k: int)
    requires
        all_digits(s),
        0 <= k <= s.len(),
    ensures
        digits_value(s.take(k)) <= digits_value(s),
    decreases s.len() - k,
{
    if k == s.len() {
        assert(s.take(k) == s);
    } else {
        lemma_digits_value_grows(s, k + 1);
        let t = s.take(k + 1);
        assert(t.drop_last() == s.take(k));
        assert(is_digit(s[k]));
        assert(t.last() == s[k]);
    }
}

/// Reads a token as a number no larger than `max`.
pub fn parse_number(token: &[u8], max: u64) -> (r: Option<u64>)
    ensures
        match r {
            Some(v) => number_up_to(token@, max as nat) == Some(v as nat),
            None => number_up_to(token@, max as nat) is None,
        },
{
    let n: usize = token.len();
    let start: usize = if n > 0 && token[0] == 0x2b {
        1
    } else {
        0
    };
    if start >= n {
        return None;
    }
    let ghost d = unsigned_part(token@);
    let mut acc: u64 = 0;
    let mut i: usize = start;
    while i < n
        invariant
            n == token@.len(),
            start <= i <= n,
            start < n,
            d == token@.skip(start as int),
            d == unsigned_part(token@),
            all_digits(d.take(i - start)),
            acc as nat == digits_value(d.take(i - start)),
            acc <= max,
        decreases n - i,
    {
        let b: u8 = token[i];
        if !(0x30 <= b && b <= 0x39) {
            proof {
                assert(d[i - start] == b);
            }
            return None;
        }
        let digit: u64 = (b - 0x30) as u64;
        let ghost prefix = d.take(i - start);
        let ghost longer = d.take(i - start + 1);
        proof {
            assert(longer.drop_last() == prefix);
            assert(longer.last() == b);
            assert(digits_value(longer) == acc * 10 + digit);
            assert(all_digits(longer)) by {
                assert forall|j: int| 0 <= j < longer.len() implies is_digit(
                    #[trigger] longer[j],
                ) by {
                    if j < prefix.len() {
                        assert(longer[j] == prefix[j]);
                    }
                }
            }
        }
        if digit > max || acc > (max - digit) / 10 {
            proof {
                assert(acc * 10 + digit > max);
                if all_digits(d) {
                    lemma_digits_value_grows(d, i - start + 1);
                }
            }
            return None;
        }
        acc = acc * 10 + digit;
        i += 1;
    }
    proof {
        assert(d.take(i - start) == d);
    }
    Some(acc)
}

/// The read count that a token writes, if it writes a number of 32 bits.
pub open spec fn count_written(s: Seq<u8>) -> Option<u32> {
    match number_up_to(s, u32::MAX as nat) {
        Some(v) => Some(v as u32),
        None => None,
    }
}

/// The index or size that a token writes, if it writes a number that fits the
/// machine's word.
pub open spec fn size_written(s: Seq<u8>) -> Option<usize> {
    match number_up_to(s, usize::MAX as nat) {
        Some(v) => Some(v as usize),
        None => None,
    }
}

/// Reads a token as a count of reads.
pub fn parse_u32(token: &[u8]) -> (r: Option<u32>)
    ensures
        r == count_written(token@),
{
    match parse_number(token, 0xffff_ffff) {
        Some(v) => Some(v as u32),
        None => None,
    }
}

/// Reads a token as an index or a size.
pub fn parse_usize(token: &[u8]) -> (r: Option<usize>)
    ensures
        r == size_written(token@),
{
    match parse_number(token, usize::MAX as u64) {
        Some(v) => Some(v as usize),
        None => None,
    }
}

} // verus!
