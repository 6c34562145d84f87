//! Decimal text: the digits of integers and lengths as they stand in an encoding.

use vstd::prelude::*;
use crate::symbols::{CLOSE, COLON, MINUS, NINE, PLUS, ZERO};

verus! {

/// `b` is one of the ASCII digits `0` to `9`.
pub open spec fn is_digit(b: u8) -> bool {
    ZERO <= b <= NINE
}

/// Every byte of `s` is an ASCII digit.
pub open spec fn all_digits(s: Seq<u8>) -> bool {
    forall|i: int| 0 <= i < s.len() ==> is_digit(#[trigger] s[i])
}

/// The number that a run of digits denotes, most significant digit first.
pub open spec fn digits_value(s: Seq<u8>) -> nat
    decreases s.len(),
{
    if s.len() == 0 {
        0
    } else {
        digits_value(s.drop_last()) * 10 + (s.last() - ZERO) as nat
    }
}

/// The digits of `n`, without leading zeros (`0` itself is one digit).
pub open spec fn nat_digits(n: nat) -> Seq<u8>
    decreases n,
{
    if n < 10 {
        seq![(ZERO + n) as u8]
    } else {
        nat_digits(n / 10).push((ZERO + n % 10) as u8)
    }
}

/// The text of a signed integer: a minus sign for negative numbers, then the digits.
pub open spec fn int_text(i: int) -> Seq<u8> {
    if i < 0 {
        seq![MINUS] + nat_digits((-i) as nat)
    } else {
        nat_digits(i as nat)
    }
}

/// The integer that a text denotes: an optional sign, then at least one digit.
pub open spec fn signed_value(s: Seq<u8>) -> Option<int> {
    if s.len() > 0 && s[0] == MINUS {
        if s.len() > 1 && all_digits(s.skip(1)) {
            Some(-(digits_value(s.skip(1)) as int))
        } else {
            None
        }
    } else if s.len() > 0 && s[0] == PLUS {
        if s.len() > 1 && all_digits(s.skip(1)) {
            Some(digits_value(s.skip(1)) as int)
        } else {
            None
        }
    } else if s.len() > 0 && all_digits(s) {
        Some(digits_value(s) as int)
    } else {
        None
    }
}

/// The signed 64-bit integer that a text denotes, if it denotes one that fits.
pub open spec fn i64_of_text(s: Seq<u8>) -> Option<i64> {
    match signed_value(s) {
        Some(v) => if i64::MIN <= v <= i64::MAX {
            Some(v as i64)
        } else {
            None
        },
        None => None,
    }
}

/// The length that a text denotes: an optional plus sign, then at least one
/// digit, the number no larger than the machine's largest length.
pub open spec fn usize_of_text(s: Seq<u8>) -> Option<usize> {
    if s.len() > 0 && s[0] == MINUS {
        None
    } else {
        match signed_value(s) {
            Some(v) => if v <= usize::MAX {
                Some(v as usize)
            } else {
                None
            },
            None => None,
        }
    }
}

/// Appending a digit multiplies the value by ten and adds the digit.
pub proof fn lemma_digits_value_push(s: Seq<u8>, d: u8)
    requires
        is_digit(d),
    ensures
        digits_value(s.push(d)) == digits_value(s) * 10 + (d - ZERO),
{
    assert(s.push(d).drop_last() =~= s);
}

/// A prefix of a run of digits denotes no more than the whole run.
pub proof fn lemma_digits_value_prefix(s: Seq<u8>, k: int)
    requires
        all_digits(s),
        0 <= k <= s.len(),
    ensures
        digits_value(s.subrange(0, k)) <= digits_value(s),
    decreases s.len() - k,
{
    if k == s.len() {
        assert(s.subrange(0, k) =~= s);
    } else {
        lemma_digits_value_prefix(s, k + 1);
        let t = s.subrange(0, k + 1);
        assert(t.drop_last() =~= s.subrange(0, k));
        assert(is_digit(s[k]));
        assert(t.last() == s[k]);
    }
}

/// The digits of a number are digits, at least one, and denote the number.
pub proof fn lemma_nat_digits(n: nat)
    ensures
        nat_digits(n).len() >= 1,
        all_digits(nat_digits(n)),
        digits_value(nat_digits(n)) == n,
    decreases n,
{
    if n < 10 {
        let s = nat_digits(n);
        assert(s.drop_last() =~= Seq::<u8>::empty());
        assert(digits_value(s.drop_last()) == 0);
    } else {
        lemma_nat_digits(n / 10);
        lemma_digits_value_push(nat_digits(n / 10), (ZERO + n % 10) as u8);
    }
}

/// Reading the text of a 64-bit integer gives the integer back.
pub proof fn lemma_i64_text_round_trip(i: i64)
    ensures
        i64_of_text(int_text(i as int)) == Some(i),
        int_text(i as int).len() >= 1,
        forall|k: int|
            0 <= k < int_text(i as int).len() ==> #[trigger] int_text(i as int)[k] != CLOSE,
{
    let t = int_text(i as int);
    if i < 0 {
        let d = nat_digits((-i) as nat);
        lemma_nat_digits((-i) as nat);
        assert(t.skip(1) =~= d);
        assert(t[0] == MINUS);
        assert forall|k: int| 0 <= k < t.len() implies #[trigger] t[k] != CLOSE by {
            if k > 0 {
                assert(t[k] == d[k - 1]);
                assert(is_digit(d[k - 1]));
            }
        }
    } else {
        lemma_nat_digits(i as nat);
        assert(is_digit(t[0]));
        assert forall|k: int| 0 <= k < t.len() implies #[trigger] t[k] != CLOSE by {
            assert(is_digit(t[k]));
        }
    }
}

/// Reading the digits of a length gives the length back.
pub proof fn lemma_usize_text_round_trip(n: usize)
    ensures
        usize_of_text(nat_digits(n as nat)) == Some(n),
        is_digit(nat_digits(n as nat)[0]),
        forall|k: int|
            0 <= k < nat_digits(n as nat).len() ==> #[trigger] nat_digits(n as nat)[k] != COLON,
{
    let t = nat_digits(n as nat);
    lemma_nat_digits(n as nat);
    assert(is_digit(t[0]));
    assert forall|k: int| 0 <= k < t.len() implies #[trigger] t[k] != COLON by {
        assert(is_digit(t[k]));
    }
}

/// Reads a run of digits, giving up as soon as the number passes `limit`.
fn read_digits(s: &[u8], start: usize, limit: u64) -> (r: Option<u64>)
    requires
        start <= s.len(),
    ensures
        r is Some <==> start < s.len() && all_digits(s@.skip(start as int)) && digits_value(
            s@.skip(start as int),
        ) <= limit,
        r is Some ==> r->0 == digits_value(s@.skip(start as int)),
{
    if start >= s.len() {
        return None;
    }
    let ghost body = s@.skip(start as int);
    let mut acc: u64 = 0;
    let mut i: usize = start;
    while i < s.len()
        invariant
            start <= i <= s.len(),
            body == s@.skip(start as int),
            all_digits(body.subrange(0, i - start)),
            acc == digits_value(body.subrange(0, i - start)),
            acc <= limit,
        decreases s.len() - i,
    {
        let b: u8 = s[i];
        let ghost before = body.subrange(0, i - start);
        let ghost after = body.subrange(0, i - start + 1);
        proof {
            assert(body[i - start] == b);
            assert(after =~= before.push(b));
        }
        if b < ZERO || b > NINE {
            proof {
                assert(!is_digit(body[i - start]));
            }
            return None;
        }
        proof {
            lemma_digits_value_push(before, b);
        }
        let d: u64 = (b - ZERO) as u64;
        if limit < d || acc > (limit - d) / 10 {
            proof {
                assert(acc * 10 + d > limit);
                if all_digits(body) {
                    lemma_digits_value_prefix(body, i - start + 1);
                }
            }
            return None;
        }
        acc = acc * 10 + d;
        i = i + 1;
        proof {
            assert forall|k: int| 0 <= k < after.len() implies is_digit(#[trigger] after[k]) by {
                if k < before.len() {
                    assert(after[k] == before[k]);
                }
            }
        }
    }
    proof {
        assert(body.subrange(0, i - start) =~= body);
    }
    Some(acc)
}

/// Reads a signed 64-bit integer from its text.
pub fn parse_i64(s: &[u8]) -> (r: Option<i64>)
    ensures
        r == i64_of_text(s@),
{
    if s.len() == 0 {
        return None;
    }
    let first: u8 = s[0];
    if first == MINUS {
        match read_digits(s, 1, 0x8000_0000_0000_0000) {
            Some(m) => {
                if m == 0x8000_0000_0000_0000 {
                    Some(i64::MIN)
                } else {
                    Some(-(m as i64))
                }
            },
            None => None,
        }
    } else if first == PLUS {
        match read_digits(s, 1, 0x7fff_ffff_ffff_ffff) {
            Some(m) => Some(m as i64),
            None => None,
        }
    } else {
        proof {
            assert(s@.skip(0) =~= s@);
        }
        match read_digits(s, 0, 0x7fff_ffff_ffff_ffff) {
            Some(m) => Some(m as i64),
            None => None,
        }
    }
}

/// Reads a length from its text.
pub fn parse_usize(s: &[u8]) -> (r: Option<usize>)
    ensures
        r == usize_of_text(s@),
{
    if s.len() == 0 {
        return None;
    }
    let first: u8 = s[0];
    if first == MINUS {
        None
    } else if first == PLUS {
        match read_digits(s, 1, usize::MAX as u64) {
            Some(m) => Some(m as usize),
            None => None,
        }
    } else {
        proof {
            assert(s@.skip(0) =~= s@);
        }
        match read_digits(s, 0, usize::MAX as u64) {
            Some(m) => Some(m as usize),
            None => None,
        }
    }
}

/// Appends the digits of `n` to `out`.
pub fn push_digits(out: &mut Vec<u8>, n: u64)
    ensures
        final(out)@ == old(out)@ + nat_digits(n as nat),
    decreases n,
{
    if n >= 10 {
        push_digits(out, n / 10);
    }
    let d: u8 = (n % 10) as u8;
    out.push(ZERO + d);
    proof {
        if n < 10 {
            assert(final(out)@ =~= old(out)@ + nat_digits(n as nat));
        } else {
            assert(final(out)@ =~= old(out)@ + nat_digits(n as nat));
        }
    }
}

/// Appends the text of `i` to `out`.
pub fn push_int_text(out: &mut Vec<u8>, i: i64)
    ensures
        final(out)@ == old(out)@ + int_text(i as int),
{
    if i < 0 {
        out.push(MINUS);
        let m: u64 = if i == i64::MIN {
            0x8000_0000_0000_0000
        } else {
            (-i) as u64
        };
        push_digits(out, m);
        proof {
            assert(final(out)@ =~= old(out)@ + int_text(i as int));
        }
    } else {
        push_digits(out, i as u64);
    }
}

} // verus!
