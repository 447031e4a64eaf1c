//! The numeric field grammar and its fixed-point value.
//!
//! A numeric token is an optional minus sign, then decimal digits with at
//! most one dot and at least one digit (`7`, `-0.25`, `12.`, `.5`). Its
//! value is held in micro-units (millionths): fraction digits beyond the
//! sixth are truncated, and the magnitude must fit in `i64`.

use vstd::prelude::*;

verus! {

/// ASCII decimal digit.
pub open spec fn is_digit(b: u8) -> bool {
    48 <= b && b <= 57
}

/// Every byte is a decimal digit.
pub open spec fn all_digits(s: Seq<u8>) -> bool {
    forall|i: int| 0 <= i < s.len() ==> is_digit(#[trigger] s[i])
}

/// The value of a run of decimal digits, most significant first.
pub open spec fn digits_val(s: Seq<u8>) -> int
    decreases s.len(),
{
    if s.len() == 0 {
        0
    } else {
        digits_val(s.drop_last()) * 10 + (s.last() - 48)
    }
}

/// Ten to the `n`th.
pub open spec fn pow10(n: nat) -> int
    decreases n,
{
    if n == 0 {
        1
    } else {
        10 * pow10((n - 1) as nat)
    }
}

/// A digit run's value is non-negative and below ten to its length.
pub proof fn lemma_digits_val_bounds(s: Seq<u8>)
    requires
        all_digits(s),
    ensures
        0 <= digits_val(s) < pow10(s.len()),
    decreases s.len(),
{
    if s.len() > 0 {
        assert(all_digits(s.drop_last()));
        lemma_digits_val_bounds(s.drop_last());
        assert(pow10(s.len()) == 10 * pow10((s.len() - 1) as nat));
    }
}

/// A digit run's value only grows as digits are appended.
pub proof fn lemma_digits_val_prefix(s: Seq<u8>, k: int)
    requires
        all_digits(s),
        0 <= k <= s.len(),
    ensures
        0 <= digits_val(s.take(k)) <= digits_val(s),
    decreases s.len(),
{
    if k < s.len() {
        assert(all_digits(s.drop_last()));
        assert(s.drop_last().take(k) =~= s.take(k));
        lemma_digits_val_prefix(s.drop_last(), k);
        lemma_digits_val_bounds(s.drop_last());
    } else {
        assert(s.take(k) =~= s);
        lemma_digits_val_bounds(s);
    }
}

/// The token after its optional leading minus sign.
pub open spec fn unsigned_body(s: Seq<u8>) -> Seq<u8> {
    if s.len() > 0 && s[0] == 45 {
        s.skip(1)
    } else {
        s
    }
}

/// The index of the first dot of `s` at or after `i`, or the length.
pub open spec fn dot_pos(s: Seq<u8>, i: int) -> int
    decreases s.len() - i when 0 <= i <= s.len()
{
    if i >= s.len() {
        s.len() as int
    } else if s[i] == 46 {
        i
    } else {
        dot_pos(s, i + 1)
    }
}

/// Everything the first dot position promises: no dot before it, and a dot
/// at it when it is inside the sequence.
pub proof fn lemma_dot_pos(s: Seq<u8>, i: int)
    requires
        0 <= i <= s.len(),
    ensures
        i <= dot_pos(s, i) <= s.len(),
        forall|j: int| i <= j < dot_pos(s, i) ==> s[j] != 46,
        dot_pos(s, i) < s.len() ==> s[dot_pos(s, i)] == 46,
    decreases s.len() - i,
{
    if i < s.len() && s[i] != 46 {
        lemma_dot_pos(s, i + 1);
    }
}

/// The integer-part digits: everything before the first dot.
pub open spec fn int_digits(t: Seq<u8>) -> Seq<u8> {
    t.take(dot_pos(t, 0))
}

/// The fraction digits: everything after the first dot, when there is one.
pub open spec fn frac_digits(t: Seq<u8>) -> Seq<u8> {
    if dot_pos(t, 0) < t.len() {
        t.skip(dot_pos(t, 0) + 1)
    } else {
        Seq::<u8>::empty()
    }
}

/// A numeric token: an optional minus sign, then digits with at most one
/// dot and at least one digit.
pub open spec fn is_number(s: Seq<u8>) -> bool {
    let t = unsigned_body(s);
    &&& t.len() > 0
    &&& all_digits(int_digits(t))
    &&& all_digits(frac_digits(t))
    &&& int_digits(t).len() + frac_digits(t).len() >= 1
}

/// How many fraction digits carry into micro-units.
pub open spec fn frac_kept(t: Seq<u8>) -> int {
    if frac_digits(t).len() <= 6 {
        frac_digits(t).len() as int
    } else {
        6
    }
}

/// The magnitude of a numeric token in micro-units, ignoring its sign;
/// fraction digits beyond the sixth are truncated.
pub open spec fn number_magnitude(s: Seq<u8>) -> int {
    let t = unsigned_body(s);
    let k = frac_kept(t);
    digits_val(int_digits(t)) * 1_000_000 + digits_val(frac_digits(t).take(k)) * pow10(
        (6 - k) as nat,
    )
}

/// Whether the token carries a leading minus sign.
pub open spec fn number_is_neg(s: Seq<u8>) -> bool {
    s.len() > 0 && s[0] == 45
}

/// The signed value of a numeric token, in micro-units.
pub open spec fn number_micros(s: Seq<u8>) -> int {
    if number_is_neg(s) {
        -number_magnitude(s)
    } else {
        number_magnitude(s)
    }
}

/// A field the parser accepts: numeric, and small enough for `i64`
/// micro-units.
pub open spec fn parses_i64(s: Seq<u8>) -> bool {
    is_number(s) && number_magnitude(s) <= i64::MAX as int
}

/// Appending a digit multiplies a run's value by ten and adds the digit.
proof fn lemma_digits_val_snoc(s: Seq<u8>, k: int)
    requires
        0 <= k < s.len(),
    ensures
        digits_val(s.take(k + 1)) == digits_val(s.take(k)) * 10 + (s[k] - 48),
{
    assert(s.take(k + 1).drop_last() =~= s.take(k));
    assert(s.take(k + 1).last() == s[k]);
}

/// Parses a numeric token into signed micro-units. Returns `Some` exactly
/// on the tokens `parses_i64` accepts, with the value `number_micros`
/// gives them.
pub fn parse_number(tok: &[u8]) -> (r: Option<i64>)
    ensures
        r is Some <==> parses_i64(tok@),
        r matches Some(v) ==> v as int == number_micros(tok@),
{
    let n = tok.len();
    let neg = n > 0 && tok[0] == 45;
    let start: usize = if neg { 1 } else { 0 };
    let ghost t = unsigned_body(tok@);
    proof {
        assert(t =~= tok@.skip(start as int));
        lemma_dot_pos(t, 0);
    }
    if start >= n {
        // Empty body: not a number.
        return None;
    }
    // Integer-part digits.
    let mut i: usize = start;
    let mut acc: u64 = 0;
    while i < n && tok[i] >= 48 && tok[i] <= 57
        invariant
            start <= i <= n,
            n == tok@.len(),
            t == tok@.skip(start as int),
            start as int == (if number_is_neg(tok@) { 1int } else { 0int }),
            forall|j: int| start <= j < i ==> is_digit(#[trigger] tok@[j]),
            acc as int == digits_val(tok@.subrange(start as int, i as int)),
        decreases n - i,
    {
        let d: u64 = (tok[i] - 48) as u64;
        let step = match acc.checked_mul(10) {
            Some(x) => x.checked_add(d),
            None => None,
        };
        match step {
            Some(x) => {
                proof {
                    lemma_digits_val_snoc(tok@.skip(start as int), i - start);
                    assert(tok@.skip(start as int).take(i - start) =~= tok@.subrange(
                        start as int,
                        i as int,
                    ));
                    assert(tok@.skip(start as int).take(i - start + 1) =~= tok@.subrange(
                        start as int,
                        i + 1,
                    ));
                }
                acc = x;
            },
            None => {
                // The integer part alone exceeds the representable
                // magnitude: the token is either not a number or out of
                // range, so it is rejected either way.
                proof {
                    if is_number(tok@) {
                        lemma_overflow_rejects(tok@, i as int, acc as int);
                    }
                }
                return None;
            },
        }
        i += 1;
    }
    // The integer part ends here: at the dot, or at the end.
    if i < n && tok[i] != 46 {
        // A stray byte inside the number: not a number.
        proof {
            lemma_not_number_stray(tok@, i as int, 0);
        }
        return None;
    }
    proof {
        lemma_int_part_shape(tok@, i as int);
    }
    // Fraction digits.
    let mut fv: u64 = 0;
    let mut kept: usize = 0;
    let f_start: usize = if i < n { i + 1 } else { i };
    if i == start && f_start >= n {
        // No digits at all ("-", ".", "-."): not a number.
        proof {
            assert(int_digits(t).len() == 0);
            assert(frac_digits(t).len() == 0);
        }
        return None;
    }
    let mut j: usize = f_start;
    while j < n
        invariant
            f_start <= j <= n,
            n == tok@.len(),
            t == tok@.skip(start as int),
            start as int == (if number_is_neg(tok@) { 1int } else { 0int }),
            start <= i < f_start <= n || (i == f_start && i == n),
            i < n ==> f_start == i + 1 && tok@[i as int] == 46,
            forall|q: int| f_start <= q < j ==> is_digit(#[trigger] tok@[q]),
            kept == (if j - f_start <= 6 {
                j - f_start
            } else {
                6
            }),
            fv as int == digits_val(tok@.subrange(f_start as int, f_start + kept)),
            fv < 1_000_000,
        decreases n - j,
    {
        let c = tok[j];
        if c < 48 || c > 57 {
            // A non-digit after the dot: not a number.
            proof {
                lemma_not_number_stray(tok@, j as int, i as int);
            }
            return None;
        }
        if kept < 6 {
            proof {
                lemma_digits_val_snoc(tok@.skip(f_start as int), kept as int);
                assert(tok@.skip(f_start as int).take(kept as int) =~= tok@.subrange(
                    f_start as int,
                    f_start + kept,
                ));
                assert(tok@.skip(f_start as int).take(kept + 1) =~= tok@.subrange(
                    f_start as int,
                    f_start + kept + 1,
                ));
                assert(all_digits(tok@.subrange(f_start as int, f_start + kept)));
                lemma_digits_val_bounds(tok@.subrange(f_start as int, f_start + kept));
                lemma_pow10_small(kept as nat);
            }
            fv = fv * 10 + ((c - 48) as u64);
            kept += 1;
            proof {
                assert(all_digits(tok@.subrange(f_start as int, f_start + kept)));
                lemma_digits_val_bounds(tok@.subrange(f_start as int, f_start + kept));
                lemma_pow10_small(kept as nat);
            }
        }
        j += 1;
    }
    // Scale the kept fraction digits up to micro-units.
    let mut pad: usize = kept;
    while pad < 6
        invariant
            kept <= pad <= 6,
            all_digits(tok@.subrange(f_start as int, f_start + kept)),
            fv as int == digits_val(tok@.subrange(f_start as int, f_start + kept)) * pow10(
                (pad - kept) as nat,
            ),
            fv < 1_000_000,
            n == tok@.len(),
            f_start <= n,
            kept <= (if n - f_start <= 6 {
                n - f_start
            } else {
                6
            }),
        decreases 6 - pad,
    {
        proof {
            lemma_pow10_mul_bound(tok@.subrange(f_start as int, f_start + kept), (pad
                - kept) as nat);
        }
        fv = fv * 10;
        pad += 1;
    }
    proof {
        lemma_number_shape(tok@, i as int, f_start as int, kept as int);
    }
    // Assemble the magnitude.
    let total = match acc.checked_mul(1_000_000) {
        Some(x) => match x.checked_add(fv) {
            Some(y) => y,
            None => {
                proof {
                    lemma_magnitude_exceeds(tok@, i as int, f_start as int, kept as int);
                }
                return None;
            },
        },
        None => {
            proof {
                lemma_magnitude_exceeds(tok@, i as int, f_start as int, kept as int);
            }
            return None;
        },
    };
    if total > 9_223_372_036_854_775_807u64 {
        proof {
            lemma_magnitude_exceeds(tok@, i as int, f_start as int, kept as int);
        }
        return None;
    }
    let v = total as i64;
    if neg {
        Some(-v)
    } else {
        Some(v)
    }
}

/// Ten to a small power stays below a million.
proof fn lemma_pow10_small(k: nat)
    requires
        k <= 6,
    ensures
        pow10(k) <= 1_000_000,
        pow10(k) >= 1,
{
    assert(pow10(0) == 1);
    assert(pow10(1) == 10);
    assert(pow10(2) == 100);
    assert(pow10(3) == 1000);
    assert(pow10(4) == 10000);
    assert(pow10(5) == 100000);
    assert(pow10(6) == 1000000);
}

/// A kept-digit value scaled by the remaining padding stays below a
/// million.
proof fn lemma_pow10_mul_bound(s: Seq<u8>, e: nat)
    requires
        all_digits(s),
        s.len() + e < 6,
    ensures
        digits_val(s) * pow10(e) * 10 == digits_val(s) * pow10(e + 1),
        0 <= digits_val(s) * pow10(e + 1) < 1_000_000,
{
    lemma_digits_val_bounds(s);
    lemma_pow10_small(e);
    lemma_pow10_small((e + 1) as nat);
    lemma_pow10_small(s.len());
    assert(pow10(e + 1) == 10 * pow10(e));
    assert(digits_val(s) * pow10(e) * 10 == digits_val(s) * pow10(e + 1)) by (nonlinear_arith)
        requires
            pow10(e + 1) == 10 * pow10(e),
    ;
    lemma_pow10_split(s.len(), e + 1);
    lemma_pow10_small((s.len() + e + 1) as nat);
    assert(digits_val(s) * pow10(e + 1) < pow10(s.len()) * pow10(e + 1)) by (nonlinear_arith)
        requires
            digits_val(s) < pow10(s.len()),
            pow10(e + 1) >= 1,
            digits_val(s) >= 0,
    ;
    assert(digits_val(s) * pow10(e + 1) >= 0) by (nonlinear_arith)
        requires
            digits_val(s) >= 0,
            pow10(e + 1) >= 1,
    ;
}

/// Powers of ten multiply by adding exponents.
proof fn lemma_pow10_split(a: nat, b: nat)
    ensures
        pow10(a) * pow10(b) == pow10(a + b),
        pow10(a) >= 1,
        pow10(b) >= 1,
    decreases a,
{
    if a == 0 {
        lemma_pow10_pos(b);
    } else {
        lemma_pow10_split((a - 1) as nat, b);
        assert(pow10(a) == 10 * pow10((a - 1) as nat));
        assert(pow10(a + b) == 10 * pow10((a - 1) as nat + b));
        assert(pow10(a) * pow10(b) == 10 * (pow10((a - 1) as nat) * pow10(b))) by (nonlinear_arith)
            requires
                pow10(a) == 10 * pow10((a - 1) as nat),
        ;
    }
}

/// Powers of ten are positive.
proof fn lemma_pow10_pos(n: nat)
    ensures
        pow10(n) >= 1,
    decreases n,
{
    if n > 0 {
        lemma_pow10_pos((n - 1) as nat);
    }
}

/// When the integer-digit scan overflows, any number the token could be
/// has magnitude beyond `i64`.
proof fn lemma_overflow_rejects(s: Seq<u8>, i: int, acc: int)
    requires
        is_number(s),
        0 <= i < s.len(),
        is_digit(s[i]),
        ({
            let start = if number_is_neg(s) {
                1int
            } else {
                0int
            };
            &&& start <= i
            &&& (forall|j: int| start <= j < i ==> is_digit(#[trigger] s[j]))
            &&& acc == digits_val(s.subrange(start, i))
            &&& acc * 10 + (s[i] - 48) > u64::MAX as int
        }),
    ensures
        number_magnitude(s) > i64::MAX as int,
{
    let t = unsigned_body(s);
    let start = if number_is_neg(s) {
        1int
    } else {
        0int
    };
    assert(t =~= s.subrange(start, s.len() as int));
    let d = dot_pos(t, 0);
    lemma_dot_pos(t, 0);
    // Digits reach at least position i - start + 1 of t, and the dot is
    // not among them, so the integer part extends past them.
    assert(forall|j: int| 0 <= j < i - start + 1 ==> is_digit(#[trigger] t[j]) && t[j] != 46) by {
        assert(forall|j: int| 0 <= j < i - start + 1 ==> #[trigger] t[j] == s[start + j]);
    }
    if d < i - start + 1 {
        assert(t[d] == 46);
        assert(false);
    }
    let pref = t.take(i - start + 1);
    assert(pref =~= s.subrange(start, i + 1));
    lemma_digits_val_snoc(t, i - start);
    assert(t.take(i - start) =~= s.subrange(start, i));
    assert(t[i - start] == s[i]);
    assert(digits_val(pref) == acc * 10 + (s[i] - 48));
    assert(all_digits(int_digits(t)));
    lemma_digits_val_prefix(int_digits(t), i - start + 1);
    assert(int_digits(t).take(i - start + 1) =~= pref);
    // digits_val(int part) >= digits_val(pref) > u64::MAX.
    let k = frac_kept(t);
    assert(all_digits(frac_digits(t)));
    assert(all_digits(frac_digits(t).take(k)));
    lemma_digits_val_bounds(frac_digits(t).take(k));
    lemma_pow10_pos((6 - k) as nat);
    assert(digits_val(int_digits(t)) * 1_000_000 >= digits_val(int_digits(t)))
        by (nonlinear_arith)
        requires
            digits_val(int_digits(t)) > 0,
    ;
    assert(digits_val(frac_digits(t).take(k)) * pow10((6 - k) as nat) >= 0) by (nonlinear_arith)
        requires
            digits_val(frac_digits(t).take(k)) >= 0,
            pow10((6 - k) as nat) >= 1,
    ;
}

/// A stray byte makes the token a non-number: one that is neither a digit
/// nor a first dot (`dotp` names an earlier dot when the byte is a dot).
proof fn lemma_not_number_stray(s: Seq<u8>, i: int, dotp: int)
    requires
        0 <= i < s.len(),
        ({
            let start = if number_is_neg(s) {
                1int
            } else {
                0int
            };
            &&& start <= i
            &&& !is_digit(s[i])
            &&& (s[i] != 46 || (start <= dotp < i && s[dotp] == 46))
        }),
    ensures
        !is_number(s),
{
    let t = unsigned_body(s);
    let start = if number_is_neg(s) {
        1int
    } else {
        0int
    };
    assert(t =~= s.subrange(start, s.len() as int));
    if is_number(s) {
        let d = dot_pos(t, 0);
        lemma_dot_pos(t, 0);
        let p = i - start;
        assert(t[p] == s[i]);
        // Position p of t is neither a digit nor (unless a dot came
        // earlier) a dot.
        if s[i] != 46 {
            if p < d {
                assert(int_digits(t)[p] == t[p]);
                assert(is_digit(t[p]));
                assert(false);
            } else if p == d {
                assert(d < t.len() ==> t[d] == 46);
                assert(false);
            } else {
                assert(d < t.len());
                assert(frac_digits(t)[p - d - 1] == t[p]);
                assert(is_digit(t[p]));
                assert(false);
            }
        } else {
            let q = dotp - start;
            assert(t[q] == 46);
            // Two dots: the first bounds the dot position, the second
            // sits past it inside the fraction digits.
            if q < d {
                assert(false);
            }
            assert(d <= q < p);
            assert(d < t.len());
            assert(frac_digits(t)[p - d - 1] == t[p]);
            assert(is_digit(t[p]));
            assert(false);
        }
    }
}

/// After the integer scan stops at the dot or the end, the spec's integer
/// part is exactly the scanned range.
proof fn lemma_int_part_shape(s: Seq<u8>, i: int)
    requires
        ({
            let start = if number_is_neg(s) {
                1int
            } else {
                0int
            };
            &&& 0 <= start <= i <= s.len()
            &&& (forall|j: int| start <= j < i ==> is_digit(#[trigger] s[j]))
            &&& (i < s.len() ==> s[i] == 46)
        }),
    ensures
        ({
            let t = unsigned_body(s);
            let start = if number_is_neg(s) {
                1int
            } else {
                0int
            };
            &&& dot_pos(t, 0) == i - start
            &&& int_digits(t) == s.subrange(start, i)
            &&& all_digits(int_digits(t))
            &&& frac_digits(t) == (if i < s.len() {
                s.subrange(i + 1, s.len() as int)
            } else {
                Seq::<u8>::empty()
            })
        }),
{
    let t = unsigned_body(s);
    let start = if number_is_neg(s) {
        1int
    } else {
        0int
    };
    assert(t =~= s.subrange(start, s.len() as int));
    lemma_dot_pos(t, 0);
    let d = dot_pos(t, 0);
    // No dot among the scanned digits, so d is at least i - start; and a
    // dot right there (or the end) pins it.
    assert(forall|j: int| 0 <= j < i - start ==> is_digit(#[trigger] t[j]) && t[j] != 46);
    lemma_dot_pos_at(t, 0, i - start);
    assert(int_digits(t) =~= s.subrange(start, i));
    if i < s.len() {
        assert(frac_digits(t) =~= s.subrange(i + 1, s.len() as int));
    }
}

/// When no dot appears before position `m`, and `m` is a dot or the end,
/// the first dot is at `m`.
proof fn lemma_dot_pos_at(s: Seq<u8>, i: int, m: int)
    requires
        0 <= i <= m <= s.len(),
        forall|j: int| i <= j < m ==> s[j] != 46,
        m < s.len() ==> s[m] == 46,
    ensures
        dot_pos(s, i) == m,
    decreases m - i,
{
    if i < m {
        lemma_dot_pos_at(s, i + 1, m);
    }
}

/// With the scans done, the token is a number, and its magnitude is the
/// assembled fixed-point value.
proof fn lemma_number_shape(s: Seq<u8>, i: int, f_start: int, kept: int)
    requires
        ({
            let start = if number_is_neg(s) {
                1int
            } else {
                0int
            };
            &&& 0 <= start <= i <= s.len()
            &&& (forall|j: int| start <= j < i ==> is_digit(#[trigger] s[j]))
            &&& (i < s.len() ==> s[i] == 46 && f_start == i + 1)
            &&& (i == s.len() ==> f_start == i)
            &&& (forall|q: int| f_start <= q < s.len() ==> is_digit(#[trigger] s[q]))
            &&& kept == (if s.len() - f_start <= 6 {
                s.len() - f_start
            } else {
                6
            })
            &&& (i > start || s.len() - f_start >= 1)
        }),
    ensures
        is_number(s),
        number_magnitude(s) == digits_val(s.subrange(
            ({
                if number_is_neg(s) {
                    1int
                } else {
                    0int
                }
            }),
            i,
        )) * 1_000_000 + digits_val(s.subrange(f_start, f_start + kept)) * pow10((6 - kept) as nat),
{
    let t = unsigned_body(s);
    let start = if number_is_neg(s) {
        1int
    } else {
        0int
    };
    lemma_int_part_shape(s, i);
    assert(t.len() == s.len() - start);
    if i < s.len() {
        assert(frac_digits(t) == s.subrange(i + 1, s.len() as int));
        assert(frac_digits(t).len() == s.len() - f_start);
        assert(frac_digits(t).take(frac_kept(t)) =~= s.subrange(f_start, f_start + kept));
    } else {
        assert(frac_digits(t).len() == 0);
        assert(frac_digits(t).take(frac_kept(t)) =~= s.subrange(f_start, f_start + kept));
    }
    assert(all_digits(frac_digits(t)));
}

/// When assembling the magnitude overflows the unsigned range or exceeds
/// `i64`, the token's magnitude is out of range.
proof fn lemma_magnitude_exceeds(s: Seq<u8>, i: int, f_start: int, kept: int)
    requires
        ({
            let start = if number_is_neg(s) {
                1int
            } else {
                0int
            };
            &&& 0 <= start <= i <= s.len()
            &&& (forall|j: int| start <= j < i ==> is_digit(#[trigger] s[j]))
            &&& (i < s.len() ==> s[i] == 46 && f_start == i + 1)
            &&& (i == s.len() ==> f_start == i)
            &&& (forall|q: int| f_start <= q < s.len() ==> is_digit(#[trigger] s[q]))
            &&& kept == (if s.len() - f_start <= 6 {
                s.len() - f_start
            } else {
                6
            })
            &&& (i > start || s.len() - f_start >= 1)
            &&& digits_val(s.subrange(start, i)) * 1_000_000 + digits_val(s.subrange(f_start,
                f_start + kept)) * pow10((6 - kept) as nat) > i64::MAX as int
        }),
    ensures
        !parses_i64(s),
{
    lemma_number_shape(s, i, f_start, kept);
}

} // verus!
