//! Rendering of unsigned integers as ASCII decimal digits.

use vstd::prelude::*;

verus! {

/// The ASCII byte for a single decimal digit `d` (`d < 10`).
pub open spec fn digit_byte(d: nat) -> u8 {
    (48 + d) as u8
}

/// The ASCII decimal digits of `n`, most significant first, with no
/// leading zeros (`0` itself renders as the single byte `b'0'`).
pub open spec fn dec_digits_of(n: nat) -> Seq<u8>
    decreases n,
{
    if n < 10 {
        seq![digit_byte(n)]
    } else {
        dec_digits_of(n / 10).push(digit_byte(n % 10))
    }
}

/// Appends the decimal digits of `n` to `out`.
pub fn push_dec_u64(out: &mut Vec<u8>, n: u64)
    ensures
        final(out)@ == old(out)@ + dec_digits_of(n as nat),
    decreases n,
{
    if n < 10 {
        out.push(48 + (n as u8));
        assert(out@ =~= old(out)@ + dec_digits_of(n as nat));
    } else {
        push_dec_u64(out, n / 10);
        out.push(48 + ((n % 10) as u8));
        assert(out@ =~= old(out)@ + dec_digits_of(n as nat));
    }
}

/// Renders `n` alone as decimal digits.
pub fn dec_u64(n: u64) -> (r: Vec<u8>)
    ensures
        r@ == dec_digits_of(n as nat),
{
    let mut out: Vec<u8> = Vec::new();
    push_dec_u64(&mut out, n);
    assert(out@ =~= dec_digits_of(n as nat));
    out
}

/// Appends all of `piece` to `out`.
pub fn push_all(out: &mut Vec<u8>, piece: &Vec<u8>)
    ensures
        final(out)@ == old(out)@ + piece@,
{
    let mut k: usize = 0;
    while k < piece.len()
        invariant
            k <= piece@.len(),
            out@ == old(out)@ + piece@.take(k as int),
        decreases piece@.len() - k,
    {
        out.push(piece[k]);
        proof {
            assert(out@ =~= old(out)@ + piece@.take(k + 1));
        }
        k += 1;
    }
    proof {
        assert(piece@.take(piece@.len() as int) =~= piece@);
    }
}

} // verus!
