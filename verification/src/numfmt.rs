//! Decimal numbers in fixed-width, right-aligned fields.

use vstd::prelude::*;

verus! {

/// The space byte that pads a field.
pub const SPACE: u8 = 32u8;

/// The ASCII decimal digits of `n`, most significant first.
pub open spec fn decimal(n: nat) -> Seq<u8>
    decreases n,
{
    if n < 10 {
        seq![(48 + n) as u8]
    } else {
        decimal(n / 10).push((48 + n % 10) as u8)
    }
}

/// `k` space bytes; none when `k` is not positive.
pub open spec fn spaces(k: int) -> Seq<u8> {
    Seq::new(if k > 0 { k as nat } else { 0nat }, |i: int| SPACE)
}

/// `n` in decimal, padded with spaces on the left to at least `width` bytes.
pub open spec fn right_aligned(n: nat, width: nat) -> Seq<u8> {
    spaces(width - decimal(n).len()) + decimal(n)
}

/// Appends the decimal digits of `n` to `out`.
pub fn push_decimal(out: &mut Vec<u8>, n: u128)
    ensures
        final(out)@ == old(out)@ + decimal(n as nat),
    decreases n,
{
    if n >= 10 {
        push_decimal(out, n / 10);
    }
    let d: u8 = (n % 10) as u8;
    out.push(48u8 + d);
    assert(final(out)@ =~= old(out)@ + decimal(n as nat));
}

/// Appends `n` to `out`, right-aligned in a field of `width` bytes.
pub fn push_right_aligned(out: &mut Vec<u8>, n: u128, width: usize)
    ensures
        final(out)@ == old(out)@ + right_aligned(n as nat, width as nat),
{
    let mut digits: Vec<u8> = Vec::new();
    push_decimal(&mut digits, n);
    assert(digits@ =~= decimal(n as nat));
    let mut k: usize = digits.len();
    while k < width
        invariant
            digits.len() <= k,
            k <= width || k == digits.len(),
            out@ == old(out)@ + spaces(k - digits.len()),
        decreases width - k,
    {
        out.push(SPACE);
        assert(out@ =~= old(out)@ + spaces(k + 1 - digits.len()));
        k += 1;
    }
    let mut i: usize = 0;
    let ghost padded = out@;
    while i < digits.len()
        invariant
            i <= digits.len(),
            out@ == padded + digits@.take(i as int),
        decreases digits.len() - i,
    {
        out.push(digits[i]);
        assert(out@ =~= padded + digits@.take(i + 1));
        i += 1;
    }
    assert(digits@.take(i as int) =~= digits@);
    assert(out@ =~= old(out)@ + right_aligned(n as nat, width as nat));
}

/// Appends every byte of `bytes` to `out`.
pub fn push_all(out: &mut Vec<u8>, bytes: &[u8])
    ensures
        final(out)@ == old(out)@ + bytes@,
{
    let mut i: usize = 0;
    while i < bytes.len()
        invariant
            i <= bytes.len(),
            out@ == old(out)@ + bytes@.take(i as int),
        decreases bytes.len() - i,
    {
        out.push(bytes[i]);
        assert(out@ =~= old(out)@ + bytes@.take(i + 1));
        i += 1;
    }
    assert(bytes@.take(i as int) =~= bytes@);
}

/// A counter that has grown by at most `max` in each of `i` steps, of `n`
/// steps in all, has room for one more step below the limit of `u128`.
pub proof fn lemma_counter_fits(i: nat, n: nat, max: nat)
    requires
        i < n <= max,
        max <= 0xFFFF_FFFF_FFFF_FFFF,
    ensures
        1 + i * max + max < u128::MAX,
        1 + i * max + max == 1 + (i + 1) * max,
{
    assert(1 + i * max + max == 1 + (i + 1) * max) by (nonlinear_arith);
    assert((i + 1) * max <= 0xFFFF_FFFF_FFFF_FFFF * 0xFFFF_FFFF_FFFF_FFFF) by (nonlinear_arith)
        requires
            i + 1 <= max,
            max <= 0xFFFF_FFFF_FFFF_FFFF,
    ;
}

} // verus!
