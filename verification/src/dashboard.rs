//! The render-cycle driver's state and decisions.
//!
//! The dashboard owns the line parser and the history table. Each loop
//! iteration of the surrounding program hands any available input line to
//! `ingest_line`, renders a frame only when `tick_due` says the interval
//! has elapsed, and stops on the key `is_quit_key` accepts. A metric's
//! panel is its bar heights (square-root scaled) plus a summary line of
//! percentile statistics formatted per the metric's kind.

use crate::digits::push_all;
use crate::format::{format_magnitude, format_percent, magnitude_text, percent_text};
use crate::history::{evict_push, HistoryTable};
use crate::parse::{line_accepted, line_record, LineParser};
use crate::stats::{percentile, percentile_of, positive_sorted, summary_input};
use crate::text::tokens_of;
use vstd::prelude::*;

verus! {

/// How a metric's values are displayed: fractional utilization, a byte
/// rate, or an absolute memory quantity given in MiB.
pub enum MetricKind {
    Utilization,
    Rate,
    MemoryMib,
}

/// The floor square root.
pub open spec fn isqrt_spec(n: nat) -> nat
    decreases n,
{
    if n == 0 {
        0
    } else {
        let r = isqrt_spec((n - 1) as nat);
        if (r + 1) * (r + 1) <= n {
            r + 1
        } else {
            r
        }
    }
}

/// The floor square root squares to at most its argument, and the next
/// integer up squares past it.
pub proof fn lemma_isqrt_bounds(n: nat)
    ensures
        isqrt_spec(n) * isqrt_spec(n) <= n,
        (isqrt_spec(n) + 1) * (isqrt_spec(n) + 1) > n,
    decreases n,
{
    if n == 0 {
        assert(isqrt_spec(n) == 0);
        assert(isqrt_spec(n) * isqrt_spec(n) <= n && (isqrt_spec(n) + 1) * (isqrt_spec(n) + 1)
            > n) by (nonlinear_arith)
            requires
                isqrt_spec(n) == 0,
                n == 0,
        ;
    } else {
        lemma_isqrt_bounds((n - 1) as nat);
        let r = isqrt_spec((n - 1) as nat);
        if (r + 1) * (r + 1) <= n {
            assert(isqrt_spec(n) == r + 1);
            assert((r + 1) * (r + 1) > n - 1);
            assert(n == (r + 1) * (r + 1));
            assert(isqrt_spec(n) * isqrt_spec(n) <= n && (isqrt_spec(n) + 1) * (isqrt_spec(n)
                + 1) > n) by (nonlinear_arith)
                requires
                    isqrt_spec(n) == r + 1,
                    n == (r + 1) * (r + 1),
                    r >= 0,
            ;
        } else {
            assert(isqrt_spec(n) == r);
            assert(isqrt_spec(n) * isqrt_spec(n) <= n && (isqrt_spec(n) + 1) * (isqrt_spec(n)
                + 1) > n) by (nonlinear_arith)
                requires
                    isqrt_spec(n) == r,
                    r * r <= n - 1,
                    !((r + 1) * (r + 1) <= n),
                    n >= 1,
            ;
        }
    }
}

/// Any integer whose square brackets `n` is its floor square root.
proof fn lemma_isqrt_unique(n: nat, r: nat)
    requires
        r * r <= n,
        (r + 1) * (r + 1) > n,
    ensures
        r == isqrt_spec(n),
{
    lemma_isqrt_bounds(n);
    let s = isqrt_spec(n);
    if r < s {
        assert((r + 1) * (r + 1) <= s * s) by (nonlinear_arith)
            requires
                0 <= r,
                r + 1 <= s,
        ;
    }
    if s < r {
        assert((s + 1) * (s + 1) <= r * r) by (nonlinear_arith)
            requires
                0 <= s,
                s + 1 <= r,
        ;
    }
}

/// The floor square root of `n`, by binary search.
fn isqrt_u64(n: u64) -> (r: u64)
    ensures
        r as nat == isqrt_spec(n as nat),
{
    let mut lo: u64 = 0;
    let mut hi: u64 = 4_294_967_295;
    proof {
        assert((hi as int + 1) * (hi as int + 1) > u64::MAX as int) by (nonlinear_arith)
            requires
                hi == 4_294_967_295u64,
        ;
    }
    while lo < hi
        invariant
            lo <= hi <= 4_294_967_295,
            (lo as int) * (lo as int) <= n as int,
            (hi as int + 1) * (hi as int + 1) > n as int,
        decreases hi - lo,
    {
        let mid: u64 = lo + (hi - lo + 1) / 2;
        proof {
            assert((mid as int) * (mid as int) <= 4_294_967_295 * 4_294_967_295)
                by (nonlinear_arith)
                requires
                    0 <= mid as int <= 4_294_967_295,
            ;
        }
        if (mid as u128) * (mid as u128) <= (n as u128) {
            lo = mid;
        } else {
            hi = mid - 1;
        }
    }
    proof {
        lemma_isqrt_unique(n as nat, lo as nat);
    }
    lo
}

/// The height of one history bar: zero for idle samples, else the floor
/// square root of the value scaled from micro-units to hundredths of a
/// unit (the square root of the value in units, times one hundred,
/// truncated).
pub open spec fn bar_height_of(v: i64) -> int {
    if v <= 0 {
        0
    } else {
        (isqrt_spec(v as nat) as int) / 10
    }
}

/// Computes one bar height, exactly as `bar_height_of` describes.
pub fn bar_height(v: i64) -> (r: u64)
    ensures
        r as int == bar_height_of(v),
{
    if v <= 0 {
        0
    } else {
        isqrt_u64(v as u64) / 10
    }
}

/// The bar heights of a whole history window, in time order.
pub fn bar_heights(history: &Vec<i64>) -> (r: Vec<u64>)
    ensures
        r@.len() == history@.len(),
        forall|i: int| 0 <= i < r@.len() ==> r@[i] as int == bar_height_of(#[trigger] history@[i]),
{
    let mut out: Vec<u64> = Vec::new();
    let mut k: usize = 0;
    while k < history.len()
        invariant
            k <= history@.len(),
            out@.len() == k as int,
            forall|i: int|
                0 <= i < k as int ==> out@[i] as int == bar_height_of(#[trigger] history@[i]),
        decreases history@.len() - k,
    {
        let h = bar_height(history[k]);
        out.push(h);
        k += 1;
    }
    out
}

/// An absolute MiB quantity in micro-units, rescaled to bytes in
/// micro-units, saturating at the `i64` range.
pub open spec fn mib_to_bytes_micros(m: int) -> int {
    if m * 1_048_576 > i64::MAX as int {
        i64::MAX as int
    } else if m * 1_048_576 < i64::MIN as int {
        i64::MIN as int
    } else {
        m * 1_048_576
    }
}

/// Rescales a MiB quantity to bytes (both in micro-units), saturating.
pub fn mib_to_bytes(m: i64) -> (r: i64)
    ensures
        r as int == mib_to_bytes_micros(m as int),
{
    match m.checked_mul(1_048_576) {
        Some(x) => x,
        None => {
            if m > 0 {
                proof {
                    assert(m * 1_048_576 > i64::MAX as int) by (nonlinear_arith)
                        requires
                            m > 0,
                            m * 1_048_576 > i64::MAX as int || m * 1_048_576 < i64::MIN as int,
                    ;
                }
                i64::MAX
            } else {
                proof {
                    assert(m * 1_048_576 < i64::MIN as int) by (nonlinear_arith)
                        requires
                            m <= 0,
                            m * 1_048_576 > i64::MAX as int || m * 1_048_576 < i64::MIN as int,
                    ;
                }
                i64::MIN
            }
        },
    }
}

/// The text label before the p50 statistic.
pub open spec fn p50_label() -> Seq<u8> {
    seq![112u8, 53u8, 48u8, 58u8, 32u8]
}

/// The separator before the p90 statistic of a byte-class panel.
pub open spec fn p90_sep_bytes() -> Seq<u8> {
    seq![44u8, 112u8, 57u8, 48u8, 58u8, 32u8]
}

/// The separator before the p90 statistic of a utilization panel.
pub open spec fn p90_sep_pct() -> Seq<u8> {
    seq![32u8, 112u8, 57u8, 48u8, 58u8, 32u8]
}

/// The stats line of one metric panel: its p50 and p90 over the
/// positive-filtered, sorted history, formatted per the metric's kind.
pub open spec fn stats_text(kind: MetricKind, history: Seq<i64>) -> Seq<u8> {
    let s = summary_input(history);
    let p50 = percentile_of(s, 50);
    let p90 = percentile_of(s, 90);
    match kind {
        MetricKind::Utilization => p50_label() + percent_text(p50) + p90_sep_pct() + percent_text(
            p90,
        ),
        MetricKind::Rate => p50_label() + magnitude_text(p50, true) + p90_sep_bytes()
            + magnitude_text(p90, true),
        MetricKind::MemoryMib => p50_label() + magnitude_text(mib_to_bytes_micros(p50), false)
            + p90_sep_bytes() + magnitude_text(mib_to_bytes_micros(p90), false),
    }
}

/// Appends the five label bytes `"p50: "`.
fn push_p50_label(out: &mut Vec<u8>)
    ensures
        final(out)@ == old(out)@ + p50_label(),
{
    out.push(112);
    out.push(53);
    out.push(48);
    out.push(58);
    out.push(32);
    proof {
        assert(out@ =~= old(out)@ + p50_label());
    }
}

/// Appends a p90 separator: `",p90: "` for byte-class panels, `" p90: "`
/// for utilization panels.
fn push_p90_sep(out: &mut Vec<u8>, pct: bool)
    ensures
        final(out)@ == old(out)@ + (if pct {
            p90_sep_pct()
        } else {
            p90_sep_bytes()
        }),
{
    if pct {
        out.push(32);
    } else {
        out.push(44);
    }
    out.push(112);
    out.push(57);
    out.push(48);
    out.push(58);
    out.push(32);
    proof {
        if pct {
            assert(out@ =~= old(out)@ + p90_sep_pct());
        } else {
            assert(out@ =~= old(out)@ + p90_sep_bytes());
        }
    }
}

/// Computes one metric's stats line from its raw history, exactly as
/// `stats_text` describes.
pub fn render_stats(kind: &MetricKind, history: &Vec<i64>) -> (r: Vec<u8>)
    ensures
        r@ == stats_text(*kind, history@),
{
    let sorted = positive_sorted(history);
    let p50 = percentile(&sorted, 50);
    let p90 = percentile(&sorted, 90);
    let mut out: Vec<u8> = Vec::new();
    match kind {
        MetricKind::Utilization => {
            push_p50_label(&mut out);
            let a = format_percent(p50);
            push_all(&mut out, &a);
            push_p90_sep(&mut out, true);
            let b = format_percent(p90);
            push_all(&mut out, &b);
        },
        MetricKind::Rate => {
            push_p50_label(&mut out);
            let a = format_magnitude(p50, true);
            push_all(&mut out, &a);
            push_p90_sep(&mut out, false);
            let b = format_magnitude(p90, true);
            push_all(&mut out, &b);
        },
        MetricKind::MemoryMib => {
            push_p50_label(&mut out);
            let a = format_magnitude(mib_to_bytes(p50), false);
            push_all(&mut out, &a);
            push_p90_sep(&mut out, false);
            let b = format_magnitude(mib_to_bytes(p90), false);
            push_all(&mut out, &b);
        },
    }
    out
}

/// The percentile summary of one metric's raw history: p50, p90 and p99
/// over its positive-filtered, sorted values.
pub fn summary_triple(history: &Vec<i64>) -> (r: (i64, i64, i64))
    ensures
        r.0 as int == percentile_of(summary_input(history@), 50),
        r.1 as int == percentile_of(summary_input(history@), 90),
        r.2 as int == percentile_of(summary_input(history@), 99),
{
    let sorted = positive_sorted(history);
    (percentile(&sorted, 50), percentile(&sorted, 90), percentile(&sorted, 99))
}

/// The render gate: a frame is due once the time elapsed since the last
/// render reaches the tick interval.
pub fn tick_due(elapsed_ms: u64, tick_ms: u64) -> (r: bool)
    ensures
        r == (elapsed_ms >= tick_ms),
{
    elapsed_ms >= tick_ms
}

/// The quit poll's decision: only the designated quit key (`q`) ends the
/// render loop; every other key is ignored.
pub fn is_quit_key(key: u8) -> (r: bool)
    ensures
        r == (key == 113),
{
    key == 113
}

/// The dashboard: the parser configuration, the per-metric display kinds,
/// and the history table the render loop reads.
pub struct Dashboard {
    parser: LineParser,
    kinds: Vec<MetricKind>,
    history: HistoryTable,
}

impl Dashboard {
    /// The entity tag's tokens.
    pub closed spec fn tag(self) -> Seq<Seq<u8>> {
        self.parser.tag()
    }

    /// How many metrics are tracked.
    pub closed spec fn metric_count(self) -> int {
        self.kinds@.len() as int
    }

    /// The shared history capacity.
    pub closed spec fn capacity(self) -> int {
        self.history.capacity()
    }

    /// Metric `i`'s display kind.
    pub closed spec fn kind(self, i: int) -> MetricKind {
        self.kinds@[i]
    }

    /// Metric `i`'s current history, oldest first.
    pub closed spec fn buf(self, i: int) -> Seq<i64> {
        self.history.buf(i)
    }

    /// The parser and table agree on the catalog size, and every buffer
    /// stays within the capacity.
    pub closed spec fn wf(self) -> bool {
        &&& self.history.wf()
        &&& self.history.metric_count() == self.metric_count()
        &&& self.parser.metric_count() == self.metric_count()
    }

    /// Builds a dashboard for the given entity tag, metric display kinds
    /// (one per catalog entry, in order) and history capacity.
    pub fn new(tag: &[u8], kinds: Vec<MetricKind>, capacity: usize) -> (r: Self)
        requires
            capacity >= 1,
        ensures
            r.wf(),
            r.tag() == tokens_of(tag@),
            r.metric_count() == kinds@.len(),
            forall|i: int| 0 <= i < kinds@.len() ==> r.kind(i) == kinds@[i],
            r.capacity() == capacity as int,
            forall|i: int| 0 <= i < r.metric_count() ==> r.buf(i) == Seq::<i64>::empty(),
    {
        let n = kinds.len();
        Dashboard { parser: LineParser::new(tag, n), kinds, history: HistoryTable::new(n, capacity) }
    }

    /// Ingests one input line. A line accepted by the parser has each of
    /// its values pushed into the matching metric's history (FIFO
    /// eviction) and is returned for forwarding to the logger; any other
    /// line leaves every buffer unchanged.
    pub fn ingest_line(&mut self, line: &[u8]) -> (r: Option<Vec<i64>>)
        requires
            old(self).wf(),
        ensures
            final(self).wf(),
            final(self).metric_count() == old(self).metric_count(),
            final(self).capacity() == old(self).capacity(),
            final(self).tag() == old(self).tag(),
            forall|i: int| 0 <= i < old(self).metric_count() ==> final(self).kind(i) == old(
                self,
            ).kind(i),
            r is Some <==> line_accepted(old(self).tag(), old(self).metric_count(), line@),
            r matches Some(v) ==> {
                &&& v@ == line_record(old(self).tag(), old(self).metric_count(), line@)
                &&& forall|i: int|
                    0 <= i < old(self).metric_count() ==> final(self).buf(i) == evict_push(
                        old(self).buf(i),
                        v@[i],
                        old(self).capacity(),
                    )
            },
            r is None ==> forall|i: int|
                0 <= i < old(self).metric_count() ==> final(self).buf(i) == old(self).buf(i),
    {
        match self.parser.parse(line) {
            Some(vals) => {
                let mut k: usize = 0;
                while k < vals.len()
                    invariant
                        k <= vals@.len(),
                        vals@.len() == old(self).metric_count(),
                        self.history.wf(),
                        self.history.metric_count() == old(self).metric_count(),
                        self.history.capacity() == old(self).capacity(),
                        self.parser == old(self).parser,
                        self.kinds == old(self).kinds,
                        forall|i: int|
                            0 <= i < k as int ==> self.history.buf(i) == evict_push(
                                old(self).buf(i),
                                vals@[i],
                                old(self).capacity(),
                            ),
                        forall|i: int|
                            k as int <= i < old(self).metric_count() ==> self.history.buf(i)
                                == old(self).buf(i),
                    decreases vals@.len() - k,
                {
                    self.history.push(k, vals[k]);
                    k += 1;
                }
                Some(vals)
            },
            None => None,
        }
    }

    /// One metric's panel data: its bar heights over the full history
    /// window, and its formatted stats line.
    pub fn panel(&self, idx: usize) -> (r: (Vec<u64>, Vec<u8>))
        requires
            self.wf(),
            (idx as int) < self.metric_count(),
        ensures
            r.0@.len() == self.buf(idx as int).len(),
            forall|i: int|
                0 <= i < r.0@.len() ==> r.0@[i] as int == bar_height_of(
                    #[trigger] self.buf(idx as int)[i],
                ),
            r.1@ == stats_text(self.kind(idx as int), self.buf(idx as int)),
    {
        let snap = self.history.snapshot(idx);
        let bars = bar_heights(&snap);
        let text = render_stats(&self.kinds[idx], &snap);
        (bars, text)
    }
}

} // verus!
