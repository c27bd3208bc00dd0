use vstd::prelude::*;

verus! {

/// The candidate set holding every digit 1..=9.
pub const ALL_DIGITS: u32 = 0x1ff;

/// The character that marks a blank cell.
pub const BLANK: char = '.';

/// Whether bit `d - 1` of `p` is set, i.e. digit `d` (1..=9) is a member of the set `p`.
pub open spec fn has_digit(p: u32, d: int) -> bool {
    1 <= d <= 9 && (p >> ((d - 1) as u32)) & 1u32 == 1u32
}

/// Whether `c` is one of the characters '1'..='9'.
pub open spec fn is_digit_char(c: char) -> bool {
    '1' <= c && c <= '9'
}

/// Whether `c` is a digit character or the blank marker.
pub open spec fn is_cell_char(c: char) -> bool {
    c == BLANK || is_digit_char(c)
}

/// The character that writes digit `d`.
pub open spec fn digit_char(d: int) -> char {
    (d + 48) as char
}

/// The digit written by a digit character.
pub open spec fn char_digit(c: char) -> int {
    (c as u32) - 48
}

pub proof fn lemma_digit_char(d: int)
    requires
        1 <= d <= 9,
    ensures
        is_digit_char(digit_char(d)),
        char_digit(digit_char(d)) == d,
        digit_char(d) != BLANK,
{
}

pub proof fn lemma_char_digit(c: char)
    requires
        is_digit_char(c),
    ensures
        1 <= char_digit(c) <= 9,
        digit_char(char_digit(c)) == c,
{
}

proof fn lemma_and_bits(p: u32, q: u32, s: u32)
    requires
        s < 9,
    ensures
        ((p & q) >> s) & 1u32 == 1u32 <==> ((p >> s) & 1u32 == 1u32 && (q >> s) & 1u32 == 1u32),
{
    assert(((p & q) >> s) & 1u32 == 1u32 <==> ((p >> s) & 1u32 == 1u32 && (q >> s) & 1u32
        == 1u32)) by (bit_vector);
}

/// Intersection of candidate sets.
pub proof fn lemma_has_and(p: u32, q: u32)
    ensures
        forall|d: int| #[trigger] has_digit(p & q, d) <==> has_digit(p, d) && has_digit(q, d),
{
    assert forall|d: int| #[trigger] has_digit(p & q, d) <==> has_digit(p, d) && has_digit(q, d) by {
        if 1 <= d <= 9 {
            lemma_and_bits(p, q, (d - 1) as u32);
        }
    }
}

proof fn lemma_bit_bits(s: u32, t: u32)
    requires
        s < 9,
        t < 9,
    ensures
        ((1u32 << s) >> t) & 1u32 == 1u32 <==> s == t,
        (!(1u32 << s) >> t) & 1u32 == 1u32 <==> s != t,
{
    assert(((1u32 << s) >> t) & 1u32 == 1u32 <==> s == t) by (bit_vector)
        requires
            s < 9,
            t < 9,
    ;
    assert((!(1u32 << s) >> t) & 1u32 == 1u32 <==> s != t) by (bit_vector)
        requires
            s < 9,
            t < 9,
    ;
}

/// The singleton set of digit `d`, and its complement.
pub proof fn lemma_has_bit(d: int)
    requires
        1 <= d <= 9,
    ensures
        forall|e: int| #[trigger] has_digit(1u32 << ((d - 1) as u32), e) <==> e == d,
        forall|e: int| 1 <= e <= 9 ==> (#[trigger] has_digit(!(1u32 << ((d - 1) as u32)), e) <==> e != d),
{
    assert forall|e: int| #[trigger] has_digit(1u32 << ((d - 1) as u32), e) <==> e == d by {
        if 1 <= e <= 9 {
            lemma_bit_bits((d - 1) as u32, (e - 1) as u32);
        }
    }
    assert forall|e: int| 1 <= e <= 9 implies (#[trigger] has_digit(!(1u32 << ((d - 1) as u32)), e) <==> e != d) by {
        lemma_bit_bits((d - 1) as u32, (e - 1) as u32);
    }
}

proof fn lemma_all_bits(t: u32)
    requires
        t < 9,
    ensures
        (0x1ffu32 >> t) & 1u32 == 1u32,
        (0u32 >> t) & 1u32 != 1u32,
{
    assert((0x1ffu32 >> t) & 1u32 == 1u32) by (bit_vector)
        requires
            t < 9,
    ;
    assert((0u32 >> t) & 1u32 != 1u32) by (bit_vector);
}

/// The full set holds every digit, the empty set none.
pub proof fn lemma_has_all()
    ensures
        forall|d: int| #[trigger] has_digit(ALL_DIGITS, d) <==> 1 <= d <= 9,
        forall|d: int| !#[trigger] has_digit(0u32, d),
{
    assert forall|d: int| #[trigger] has_digit(ALL_DIGITS, d) <==> 1 <= d <= 9 by {
        if 1 <= d <= 9 {
            lemma_all_bits((d - 1) as u32);
        }
    }
    assert forall|d: int| !#[trigger] has_digit(0u32, d) by {
        if 1 <= d <= 9 {
            lemma_all_bits((d - 1) as u32);
        }
    }
}

proof fn lemma_without_bits(p: u32, m: u32, s: u32)
    requires
        s < 9,
    ensures
        ((p & (0x1ffu32 & !m)) >> s) & 1u32 == 1u32 <==> ((p >> s) & 1u32 == 1u32 && !((m >> s)
            & 1u32 == 1u32)),
        p & (0x1ffu32 & !m) <= 0x1ff,
{
    assert(((p & (0x1ffu32 & !m)) >> s) & 1u32 == 1u32 <==> ((p >> s) & 1u32 == 1u32 && !((m
        >> s) & 1u32 == 1u32))) by (bit_vector)
        requires
            s < 9,
    ;
    assert(p & (0x1ffu32 & !m) <= 0x1ff) by (bit_vector);
}

/// Membership test for a candidate set.
pub fn contains_digit(p: u32, d: u32) -> (r: bool)
    requires
        1 <= d <= 9,
    ensures
        r == has_digit(p, d as int),
{
    (p >> (d - 1)) & 1 == 1
}

/// `p` with every digit of `q` taken out, kept within the nine digit bits.
pub fn without_digits(p: u32, q: u32) -> (r: u32)
    ensures
        r <= ALL_DIGITS,
        forall|e: int| #[trigger] has_digit(r, e) <==> has_digit(p, e) && !has_digit(q, e),
{
    proof {
        assert forall|e: int| #[trigger] has_digit(p & (ALL_DIGITS & !q), e) <==> has_digit(p, e)
            && !has_digit(q, e) by {
            if 1 <= e <= 9 {
                lemma_without_bits(p, q, (e - 1) as u32);
            }
        }
        lemma_without_bits(p, q, 0);
    }
    p & (ALL_DIGITS & !q)
}

/// `p` with digit `d` taken out, kept within the nine digit bits.
pub fn without_digit(p: u32, d: u32) -> (r: u32)
    requires
        1 <= d <= 9,
    ensures
        r <= ALL_DIGITS,
        forall|e: int| #[trigger] has_digit(r, e) <==> has_digit(p, e) && e != d,
{
    proof {
        lemma_has_bit(d as int);
    }
    without_digits(p, 1u32 << (d - 1))
}

/// The digits 1..=n that `p` holds, ascending.
pub open spec fn digit_list(p: u32, n: int) -> Seq<u32>
    decreases n,
{
    if n <= 0 {
        Seq::empty()
    } else if has_digit(p, n) {
        digit_list(p, n - 1).push(n as u32)
    } else {
        digit_list(p, n - 1)
    }
}

/// The members of `p`, ascending.
pub open spec fn digits_of(p: u32) -> Seq<u32> {
    digit_list(p, 9)
}

/// Number of members of `p`.
pub open spec fn card(p: u32) -> nat {
    digits_of(p).len()
}

pub proof fn lemma_digit_list(p: u32, n: int)
    requires
        0 <= n <= 9,
    ensures
        forall|d: u32| #[trigger] digit_list(p, n).contains(d) <==> (1 <= d <= n && has_digit(p, d as int)),
        forall|k: int|
            0 <= k < digit_list(p, n).len() ==> 1 <= #[trigger] digit_list(p, n)[k] <= n
                && has_digit(p, digit_list(p, n)[k] as int),
        forall|k1: int, k2: int|
            0 <= k1 < k2 < digit_list(p, n).len() ==> #[trigger] digit_list(p, n)[k1]
                < #[trigger] digit_list(p, n)[k2],
        digit_list(p, n).len() <= n,
    decreases n,
{
    if n > 0 {
        lemma_digit_list(p, n - 1);
        let prev = digit_list(p, n - 1);
        let cur = digit_list(p, n);
        if has_digit(p, n) {
            assert(cur == prev.push(n as u32));
            assert forall|d: u32| #[trigger] cur.contains(d) <==> (1 <= d <= n && has_digit(
                p,
                d as int,
            )) by {
                if d == n {
                    assert(cur[prev.len() as int] == d);
                } else if cur.contains(d) {
                    let k = choose|k: int| 0 <= k < cur.len() && cur[k] == d;
                    assert(prev[k] == d);
                    assert(prev.contains(d));
                } else if 1 <= d <= n && has_digit(p, d as int) {
                    assert(prev.contains(d));
                    let k = choose|k: int| 0 <= k < prev.len() && prev[k] == d;
                    assert(cur[k] == d);
                }
            }
        } else {
            assert forall|d: u32| #[trigger] cur.contains(d) <==> (1 <= d <= n && has_digit(
                p,
                d as int,
            )) by {
                assert(cur.contains(d) == prev.contains(d));
            }
        }
    }
}

/// A value below 512 is determined by which digits it holds.
pub proof fn lemma_has_ext(p: u32, q: u32)
    requires
        p <= ALL_DIGITS,
        q <= ALL_DIGITS,
        forall|d: int| 1 <= d <= 9 ==> has_digit(p, d) == has_digit(q, d),
    ensures
        p == q,
{
    assert(has_digit(p, 1) == has_digit(q, 1));
    assert(has_digit(p, 2) == has_digit(q, 2));
    assert(has_digit(p, 3) == has_digit(q, 3));
    assert(has_digit(p, 4) == has_digit(q, 4));
    assert(has_digit(p, 5) == has_digit(q, 5));
    assert(has_digit(p, 6) == has_digit(q, 6));
    assert(has_digit(p, 7) == has_digit(q, 7));
    assert(has_digit(p, 8) == has_digit(q, 8));
    assert(has_digit(p, 9) == has_digit(q, 9));
    assert(p == q) by (bit_vector)
        requires
            p <= 0x1ff,
            q <= 0x1ff,
            (p >> 0u32) & 1u32 == 1u32 <==> (q >> 0u32) & 1u32 == 1u32,
            (p >> 1u32) & 1u32 == 1u32 <==> (q >> 1u32) & 1u32 == 1u32,
            (p >> 2u32) & 1u32 == 1u32 <==> (q >> 2u32) & 1u32 == 1u32,
            (p >> 3u32) & 1u32 == 1u32 <==> (q >> 3u32) & 1u32 == 1u32,
            (p >> 4u32) & 1u32 == 1u32 <==> (q >> 4u32) & 1u32 == 1u32,
            (p >> 5u32) & 1u32 == 1u32 <==> (q >> 5u32) & 1u32 == 1u32,
            (p >> 6u32) & 1u32 == 1u32 <==> (q >> 6u32) & 1u32 == 1u32,
            (p >> 7u32) & 1u32 == 1u32 <==> (q >> 7u32) & 1u32 == 1u32,
            (p >> 8u32) & 1u32 == 1u32 <==> (q >> 8u32) & 1u32 == 1u32,
    ;
}

/// A set whose members all belong to `p` has no more members than `p`, and fewer when it
/// misses one of them.
pub proof fn lemma_card_subset(p: u32, q: u32, n: int)
    requires
        0 <= n <= 9,
        forall|e: int| #[trigger] has_digit(q, e) ==> has_digit(p, e),
    ensures
        digit_list(q, n).len() <= digit_list(p, n).len(),
        (exists|e: int| 1 <= e <= n && has_digit(p, e) && !has_digit(q, e)) ==> digit_list(q, n).len()
            < digit_list(p, n).len(),
    decreases n,
{
    if n > 0 {
        lemma_card_subset(p, q, n - 1);
        if exists|e: int| 1 <= e <= n && has_digit(p, e) && !has_digit(q, e) {
            let e = choose|e: int| 1 <= e <= n && has_digit(p, e) && !has_digit(q, e);
            if e < n {
                assert(exists|e2: int| 1 <= e2 <= n - 1 && has_digit(p, e2) && !has_digit(q, e2));
            }
        }
    }
}

} // verus!
