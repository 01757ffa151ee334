use vstd::prelude::*;

verus! {

/// An ASCII decimal digit.
pub open spec fn is_digit(b: u8) -> bool {
    48 <= b <= 57
}

/// The value of a run of ASCII digits, most significant first.
pub open spec fn digits_value(d: Seq<u8>) -> int
    decreases d.len(),
{
    if d.len() == 0 {
        0
    } else {
        digits_value(d.drop_last()) * 10 + (d.last() - 48)
    }
}

/// How many ASCII digits `s` starts with.
pub open spec fn lead_digits(s: Seq<u8>) -> nat
    decreases s.len(),
{
    if s.len() > 0 && is_digit(s[0]) {
        1 + lead_digits(s.drop_first())
    } else {
        0
    }
}

/// Whether `s` starts with a sign byte (`+` or `-`).
pub open spec fn has_sign(s: Seq<u8>) -> bool {
    s.len() > 0 && (s[0] == 43 || s[0] == 45)
}

/// The length of the sign that `s` starts with: 1 or 0.
pub open spec fn sign_len(s: Seq<u8>) -> int {
    if has_sign(s) {
        1
    } else {
        0
    }
}

/// How many bytes of `s` make up its leading signed decimal: an optional
/// sign, then the longest run of digits.
pub open spec fn prefix_len(s: Seq<u8>) -> int {
    sign_len(s) + lead_digits(s.subrange(sign_len(s), s.len() as int))
}

/// The value of the leading signed decimal of `s` (0 when no digit follows
/// the sign), or nothing when it does not fit in an `i64`.
pub open spec fn prefix_value(s: Seq<u8>) -> Option<i64> {
    let off = sign_len(s);
    let mag = digits_value(s.subrange(off, prefix_len(s)));
    let v = if off == 1 && s[0] == 45 { -mag } else { mag };
    if i64::MIN <= v <= i64::MAX {
        Some(v as i64)
    } else {
        None
    }
}

/// The number that the line `s` holds: all of `s` is an optional sign
/// followed by at least one digit, and the value fits in an `i64`.
/// Anything else is no number.
pub open spec fn number_line(s: Seq<u8>) -> Option<i64> {
    if prefix_len(s) == s.len() && s.len() > sign_len(s) {
        prefix_value(s)
    } else {
        None
    }
}

/// Relies on atoi's `FromRadix10SignedChecked::from_radix_10_signed_checked`
/// for `i64`: it reads an optional sign and then the longest run of digits
/// with checked arithmetic, and returns the value (`None` on overflow)
/// together with the number of bytes it read.
#[verifier::external_body]
fn read_prefix(line: &[u8]) -> (r: (Option<i64>, usize))
    ensures
        r.0 == prefix_value(line@),
        r.1 == prefix_len(line@),
{
    <i64 as atoi::FromRadix10SignedChecked>::from_radix_10_signed_checked(line)
}

/// Reads a line that must hold exactly one signed decimal.
pub fn read_number(line: &[u8]) -> (r: Option<i64>)
    ensures
        r == number_line(line@),
{
    let (value, used) = read_prefix(line);
    let off: usize = if line.len() > 0 && (line[0] == 43 || line[0] == 45) {
        1
    } else {
        0
    };
    if used == line.len() && line.len() > off {
        value
    } else {
        None
    }
}

/// The shortest decimal digits of `n`.
pub open spec fn digits_of(n: nat) -> Seq<u8>
    decreases n,
{
    if n < 10 {
        seq![(48 + n) as u8]
    } else {
        digits_of(n / 10).push((48 + n % 10) as u8)
    }
}

/// The decimal text of `n`: a `-` for a negative number, then its digits.
pub open spec fn int_text(n: int) -> Seq<u8> {
    if n < 0 {
        seq![45u8] + digits_of((-n) as nat)
    } else {
        digits_of(n as nat)
    }
}

pub proof fn lemma_digits_of(n: nat)
    ensures
        digits_of(n).len() >= 1,
        forall|i: int| 0 <= i < digits_of(n).len() ==> is_digit(#[trigger] digits_of(n)[i]),
        digits_value(digits_of(n)) == n,
    decreases n,
{
    if n >= 10 {
        lemma_digits_of(n / 10);
        assert(digits_of(n).drop_last() =~= digits_of(n / 10));
        assert(digits_of(n).last() == 48 + n % 10);
        assert(n == (n / 10) * 10 + n % 10);
        let d = digits_of(n);
        assert(digits_value(d) == digits_value(d.drop_last()) * 10 + (d.last() - 48));
        assert(digits_value(d.drop_last()) == n / 10);
    } else {
        let d = digits_of(n);
        assert(d.drop_last() =~= Seq::<u8>::empty());
        assert(digits_value(d.drop_last()) == 0);
        assert(d.last() == 48 + n);
    }
}

proof fn lemma_lead_digits_all(s: Seq<u8>, t: Seq<u8>)
    requires
        forall|i: int| 0 <= i < s.len() ==> is_digit(#[trigger] s[i]),
        t.len() == 0 || !is_digit(t[0]),
    ensures
        lead_digits(s + t) == s.len(),
    decreases s.len(),
{
    if s.len() > 0 {
        assert((s + t).drop_first() =~= s.drop_first() + t);
        lemma_lead_digits_all(s.drop_first(), t);
    } else {
        assert(s + t =~= t);
    }
}

/// Reading the decimal text of `n` as a number line gives `n`.
pub proof fn lemma_read_int_text(n: i64)
    ensures
        number_line(int_text(n as int)) == Some(n),
{
    let s = int_text(n as int);
    let m: nat = if n < 0 { (-n) as nat } else { n as nat };
    let d = digits_of(m);
    lemma_digits_of(m);
    let off: int = if n < 0 { 1 } else { 0 };
    if n >= 0 {
        assert(!has_sign(s)) by {
            assert(s[0] == d[0]);
        }
    }
    let body = s.subrange(off, s.len() as int);
    assert(body =~= d + Seq::<u8>::empty());
    lemma_lead_digits_all(d, Seq::empty());
    assert(s.subrange(off, prefix_len(s)) =~= d);
}

/// Appends the digits of `n` to `out`.
pub fn push_digits(out: &mut Vec<u8>, n: u128)
    ensures
        final(out)@ == old(out)@ + digits_of(n as nat),
    decreases n,
{
    if n >= 10 {
        push_digits(out, n / 10);
    }
    out.push((48 + n % 10) as u8);
    proof {
        if n >= 10 {
            assert(digits_of(n as nat) == digits_of((n / 10) as nat).push((48 + n % 10) as u8));
        }
    }
    assert(final(out)@ =~= old(out)@ + digits_of(n as nat));
}

/// Appends the decimal text of `n` to `out`.
pub fn push_int(out: &mut Vec<u8>, n: i64)
    ensures
        final(out)@ == old(out)@ + int_text(n as int),
{
    if n < 0 {
        out.push(45u8);
        let m: u128 = (-(n as i128)) as u128;
        push_digits(out, m);
    } else {
        push_digits(out, n as u128);
    }
    assert(final(out)@ =~= old(out)@ + int_text(n as int));
}

} // verus!
