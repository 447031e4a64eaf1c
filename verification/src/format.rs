//! Human-readable unit formatting of fixed-point magnitudes.
//!
//! A magnitude is held in micro-units (millionths). Byte-class magnitudes are
//! scaled by the largest power of 1024 they reach (KB, MB, GB, TB) and
//! rendered with two decimal places; below 1024 they render as whole bytes
//! with no decimals. Fractional digits beyond the rendered precision are
//! truncated, so a magnitude just below a threshold never rounds up into it.
//! A rate flag appends a per-second suffix. Utilization-class magnitudes
//! render as a percentage with one decimal place.

use crate::digits::{dec_digits_of, digit_byte, push_dec_u64};
use vstd::prelude::*;

verus! {


/// ASCII bytes used in renderings.
pub const DOT: u8 = 46;

pub const SP: u8 = 32;

pub const DASH: u8 = 45;

pub const PCT: u8 = 37;

pub const SLASH: u8 = 47;

pub const LOW_S: u8 = 115;

pub const UP_B: u8 = 66;

pub const UP_T: u8 = 84;

pub const UP_G: u8 = 71;

pub const UP_M: u8 = 77;

pub const UP_K: u8 = 75;

/// Micro-units per one whole unit.
pub const SCALE: u64 = 1_000_000;

/// 1024 units, in micro-units.
pub const KB_MICROS: u64 = 1_024_000_000;

/// 1024^2 units, in micro-units.
pub const MB_MICROS: u64 = 1_048_576_000_000;

/// 1024^3 units, in micro-units.
pub const GB_MICROS: u64 = 1_073_741_824_000_000;

/// 1024^4 units, in micro-units.
pub const TB_MICROS: u64 = 1_099_511_627_776_000_000;

/// The per-second suffix, present only for rates.
pub open spec fn rate_suffix(per_sec: bool) -> Seq<u8> {
    if per_sec {
        seq![SLASH, LOW_S]
    } else {
        seq![]
    }
}

/// `m` scaled down by `unit` micro-units, rendered with two (truncated)
/// decimal places and the given unit suffix: `"d.dd <suffix>"`.
pub open spec fn scaled_text(m: int, unit: int, suffix: Seq<u8>) -> Seq<u8> {
    let h = m * 100 / unit;
    dec_digits_of((h / 100) as nat) + seq![DOT] + seq![
        digit_byte(((h % 100) / 10) as nat),
        digit_byte((h % 10) as nat),
    ] + seq![SP] + suffix
}

/// The magnitude of `m` in whole units, truncated toward zero.
pub open spec fn whole_units_of(m: int) -> nat {
    if m >= 0 {
        (m / (SCALE as int)) as nat
    } else {
        (((-m) as nat) / (SCALE as nat)) as nat
    }
}

/// `m` rendered as whole base units (bytes), truncated toward zero,
/// with a leading minus sign when negative: `"dddd B"`.
pub open spec fn base_text(m: int) -> Seq<u8> {
    let digits = dec_digits_of(whole_units_of(m)) + seq![SP, UP_B];
    if m < 0 {
        seq![DASH] + digits
    } else {
        digits
    }
}

/// The full rendering of a byte-class magnitude `m` (in micro-units):
/// the largest unit whose threshold `m` reaches, else whole bytes,
/// then the rate suffix.
pub open spec fn magnitude_text(m: int, per_sec: bool) -> Seq<u8> {
    let body = if m >= TB_MICROS as int {
        scaled_text(m, TB_MICROS as int, seq![UP_T, UP_B])
    } else if m >= GB_MICROS as int {
        scaled_text(m, GB_MICROS as int, seq![UP_G, UP_B])
    } else if m >= MB_MICROS as int {
        scaled_text(m, MB_MICROS as int, seq![UP_M, UP_B])
    } else if m >= KB_MICROS as int {
        scaled_text(m, KB_MICROS as int, seq![UP_K, UP_B])
    } else {
        base_text(m)
    };
    body + rate_suffix(per_sec)
}

/// Appends the two-decimal scaled rendering of `m` by `unit` to `out`.
fn push_scaled(out: &mut Vec<u8>, m: i64, unit: u64, c0: u8, c1: u8)
    requires
        unit >= 100,
        m >= unit,
    ensures
        final(out)@ == old(out)@ + scaled_text(m as int, unit as int, seq![c0, c1]),
{
    let h128: u128 = (m as u128) * 100 / (unit as u128);
    proof {
        assert((m as u128) * 100 == (m as int) * 100);
        assert(h128 == (m as int) * 100 / (unit as int));
        vstd::arithmetic::div_mod::lemma_div_is_ordered_by_denominator(
            (m as int) * 100,
            100,
            unit as int,
        );
        vstd::arithmetic::div_mod::lemma_div_multiples_vanish(m as int, 100);
        assert((m as int) * 100 / 100 == m as int);
        assert(h128 <= m as int);
    }
    let h: u64 = h128 as u64;
    push_dec_u64(out, h / 100);
    out.push(DOT);
    let t: u64 = h % 100;
    out.push(48 + ((t / 10) as u8));
    out.push(48 + ((t % 10) as u8));
    out.push(SP);
    out.push(c0);
    out.push(c1);
    proof {
        assert((h % 100) % 10 == h % 10) by {
            vstd::arithmetic::div_mod::lemma_mod_mod(h as int, 10, 10);
            assert(h as int % 100 == h as int % ((10 * 10) as int));
        }
        assert(h as int == (m as int) * 100 / (unit as int));
        assert(out@ =~= old(out)@ + scaled_text(m as int, unit as int, seq![c0, c1]));
    }
}

/// Formats a byte-class magnitude `m` (micro-units) with a power-of-1024
/// unit, exactly as `magnitude_text` describes.
pub fn format_magnitude(m: i64, per_sec: bool) -> (r: Vec<u8>)
    ensures
        r@ == magnitude_text(m as int, per_sec),
{
    let mut out: Vec<u8> = Vec::new();
    if m >= 0 && (m as u64) >= TB_MICROS {
        push_scaled(&mut out, m, TB_MICROS, UP_T, UP_B);
    } else if m >= 0 && (m as u64) >= GB_MICROS {
        push_scaled(&mut out, m, GB_MICROS, UP_G, UP_B);
    } else if m >= 0 && (m as u64) >= MB_MICROS {
        push_scaled(&mut out, m, MB_MICROS, UP_M, UP_B);
    } else if m >= 0 && (m as u64) >= KB_MICROS {
        push_scaled(&mut out, m, KB_MICROS, UP_K, UP_B);
    } else {
        let units: u64 = if m >= 0 {
            (m as u64) / SCALE
        } else {
            out.push(DASH);
            ((-(m as i128)) as u64) / SCALE
        };
        push_dec_u64(&mut out, units);
        out.push(SP);
        out.push(UP_B);
        assert(out@ =~= base_text(m as int));
    }
    if per_sec {
        out.push(SLASH);
        out.push(LOW_S);
    }
    assert(out@ =~= magnitude_text(m as int, per_sec));
    out
}

/// `m` (micro-units) rendered as a percentage with one (truncated) decimal
/// place: one hundred times the value, as `"dd.d%"`, minus-signed when
/// negative.
pub open spec fn percent_text(m: int) -> Seq<u8> {
    let t = if m >= 0 {
        ((m / 1000) as nat)
    } else {
        (((-m) as nat) / 1000)
    };
    let digits = dec_digits_of(t / 10) + seq![DOT, digit_byte(t % 10), PCT];
    if m < 0 {
        seq![DASH] + digits
    } else {
        digits
    }
}

/// Formats a utilization-class magnitude `m` (micro-units) as a percentage
/// with one decimal place, exactly as `percent_text` describes.
pub fn format_percent(m: i64) -> (r: Vec<u8>)
    ensures
        r@ == percent_text(m as int),
{
    let mut out: Vec<u8> = Vec::new();
    let t: u64 = if m >= 0 {
        (m as u64) / 1000
    } else {
        out.push(DASH);
        ((-(m as i128)) as u64) / 1000
    };
    push_dec_u64(&mut out, t / 10);
    out.push(DOT);
    out.push(48 + ((t % 10) as u8));
    out.push(PCT);
    assert(out@ =~= percent_text(m as int));
    out
}

} // verus!
