//! Serializing accepted records for the append-only sample log.
//!
//! The log holds one header row naming every metric, then one row per
//! accepted record: a capture timestamp followed by the record's values,
//! comma-separated, in full (unscaled) numeric form.

use crate::digits::{dec_digits_of, digit_byte, push_all, push_dec_u64};
use vstd::prelude::*;

verus! {

/// The comma separator.
pub const COMMA: u8 = 44;

/// The six zero-padded fraction digits of `frac` micro-units
/// (`0 <= frac < 1_000_000`), most significant first.
pub open spec fn frac6_text(frac: int) -> Seq<u8> {
    seq![
        digit_byte(((frac / 100_000) % 10) as nat),
        digit_byte(((frac / 10_000) % 10) as nat),
        digit_byte(((frac / 1_000) % 10) as nat),
        digit_byte(((frac / 100) % 10) as nat),
        digit_byte(((frac / 10) % 10) as nat),
        digit_byte((frac % 10) as nat),
    ]
}

/// A record value in plain decimal text: the whole units, then, when the
/// fraction is non-zero, a dot and all six fraction digits; minus-signed
/// when negative.
pub open spec fn value_text(v: int) -> Seq<u8> {
    let a = if v >= 0 {
        v
    } else {
        -v
    };
    let whole = a / 1_000_000;
    let frac = a % 1_000_000;
    let body = dec_digits_of(whole as nat) + (if frac == 0 {
        Seq::<u8>::empty()
    } else {
        seq![46u8] + frac6_text(frac)
    });
    if v < 0 {
        seq![45u8] + body
    } else {
        body
    }
}

/// The values of one record, each preceded by a comma, in order.
pub open spec fn values_text(values: Seq<i64>) -> Seq<u8>
    decreases values.len(),
{
    if values.len() == 0 {
        Seq::<u8>::empty()
    } else {
        values_text(values.drop_last()) + seq![COMMA] + value_text(values.last() as int)
    }
}

/// One log row: the capture timestamp, then every record value,
/// comma-separated.
pub open spec fn row_text(ts: Seq<u8>, values: Seq<i64>) -> Seq<u8> {
    ts + values_text(values)
}

/// The literal column title of the timestamp column.
pub open spec fn timestamp_label() -> Seq<u8> {
    seq![116u8, 105u8, 109u8, 101u8, 115u8, 116u8, 97u8, 109u8, 112u8]
}

/// The metric names, each preceded by a comma, in order.
pub open spec fn names_text(names: Seq<Seq<u8>>) -> Seq<u8>
    decreases names.len(),
{
    if names.len() == 0 {
        Seq::<u8>::empty()
    } else {
        names_text(names.drop_last()) + seq![COMMA] + names.last()
    }
}

/// The log's header row: the timestamp column title, then every metric
/// name, comma-separated.
pub open spec fn header_text(names: Seq<Seq<u8>>) -> Seq<u8> {
    timestamp_label() + names_text(names)
}

/// Renders one record value, exactly as `value_text` describes.
pub fn render_value(v: i64) -> (r: Vec<u8>)
    ensures
        r@ == value_text(v as int),
{
    let mut out: Vec<u8> = Vec::new();
    let a: u64 = if v >= 0 {
        v as u64
    } else {
        out.push(45);
        (-(v as i128)) as u64
    };
    push_dec_u64(&mut out, a / 1_000_000);
    let frac: u64 = a % 1_000_000;
    if frac != 0 {
        out.push(46);
        out.push(48 + (((frac / 100_000) % 10) as u8));
        out.push(48 + (((frac / 10_000) % 10) as u8));
        out.push(48 + (((frac / 1_000) % 10) as u8));
        out.push(48 + (((frac / 100) % 10) as u8));
        out.push(48 + (((frac / 10) % 10) as u8));
        out.push(48 + ((frac % 10) as u8));
    }
    proof {
        assert(out@ =~= value_text(v as int));
    }
    out
}

/// Builds the header row from the metric names, exactly as `header_text`
/// describes.
pub fn log_header(names: &Vec<Vec<u8>>) -> (r: Vec<u8>)
    ensures
        r@ == header_text(names@.map_values(|t: Vec<u8>| t@)),
{
    let mut out: Vec<u8> = Vec::new();
    out.push(116);
    out.push(105);
    out.push(109);
    out.push(101);
    out.push(115);
    out.push(116);
    out.push(97);
    out.push(109);
    out.push(112);
    proof {
        assert(out@ =~= timestamp_label() + names_text(
            names@.map_values(|t: Vec<u8>| t@).take(0),
        ));
    }
    let mut k: usize = 0;
    while k < names.len()
        invariant
            k <= names@.len(),
            out@ == timestamp_label() + names_text(names@.map_values(|t: Vec<u8>| t@).take(
                k as int,
            )),
        decreases names@.len() - k,
    {
        let ghost mapped = names@.map_values(|t: Vec<u8>| t@);
        out.push(COMMA);
        push_all(&mut out, &names[k]);
        proof {
            assert(mapped.take(k + 1).drop_last() =~= mapped.take(k as int));
            assert(mapped.take(k + 1).last() == names@[k as int]@);
            assert(out@ =~= timestamp_label() + names_text(mapped.take(k + 1)));
        }
        k += 1;
    }
    proof {
        let mapped = names@.map_values(|t: Vec<u8>| t@);
        assert(mapped.take(mapped.len() as int) =~= mapped);
    }
    out
}

/// Builds one data row from a timestamp and a record, exactly as
/// `row_text` describes.
pub fn log_row(timestamp: &Vec<u8>, values: &Vec<i64>) -> (r: Vec<u8>)
    ensures
        r@ == row_text(timestamp@, values@),
{
    let mut out: Vec<u8> = Vec::new();
    push_all(&mut out, timestamp);
    proof {
        assert(out@ =~= timestamp@ + values_text(values@.take(0)));
    }
    let mut k: usize = 0;
    while k < values.len()
        invariant
            k <= values@.len(),
            out@ == timestamp@ + values_text(values@.take(k as int)),
        decreases values@.len() - k,
    {
        out.push(COMMA);
        let piece = render_value(values[k]);
        push_all(&mut out, &piece);
        proof {
            assert(values@.take(k + 1).drop_last() =~= values@.take(k as int));
            assert(values@.take(k + 1).last() == values@[k as int]);
            assert(out@ =~= timestamp@ + values_text(values@.take(k + 1)));
        }
        k += 1;
    }
    proof {
        assert(values@.take(values@.len() as int) =~= values@);
    }
    out
}

/// Relies on chrono's `Local::now()` and `DateTime::to_rfc3339`: the
/// wall-clock capture timestamp as RFC 3339 text. The clock is outside
/// the program, so nothing is promised of the bytes.
#[verifier::external_body]
fn now_timestamp() -> (r: Vec<u8>) {
    chrono::Local::now().to_rfc3339().into_bytes()
}

/// Builds one data row for a record captured now: the row is exactly
/// `row_text` of the record under some timestamp text.
pub fn log_row_now(values: &Vec<i64>) -> (r: Vec<u8>)
    ensures
        exists|ts: Seq<u8>| r@ == #[trigger] row_text(ts, values@),
{
    let ts = now_timestamp();
    let r = log_row(&ts, values);
    proof {
        assert(r@ == row_text(ts@, values@));
    }
    r
}

} // verus!
