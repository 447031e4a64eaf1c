//! Turning one telemetry line into a fixed-width numeric record.
//!
//! Only lines whose leading tokens equal the configured entity tag are
//! samples. After the tag, a sample has exactly one identifier field to
//! discard plus one numeric field per metric; if the count is off or any
//! field fails the numeric grammar, the whole line is rejected and no
//! partial record is produced.

use crate::number::{number_micros, parse_number, parses_i64};
use crate::text::{bytes_eq, tokenize, tokens_of};
use vstd::prelude::*;

verus! {

/// Whether `line` is accepted against tag tokens `tag` and metric count
/// `n`: its tokens begin with the tag tokens, exactly `n + 1` fields
/// follow, and every field is numeric and in range.
pub open spec fn line_accepted(tag: Seq<Seq<u8>>, n: int, line: Seq<u8>) -> bool {
    let toks = tokens_of(line);
    &&& toks.len() == tag.len() + n + 1
    &&& toks.take(tag.len() as int) == tag
    &&& forall|k: int| tag.len() <= k < toks.len() ==> parses_i64(#[trigger] toks[k])
}

/// The record of an accepted line: the values of its numeric fields after
/// the first (the discarded per-line identifier), in catalog order.
pub open spec fn line_record(tag: Seq<Seq<u8>>, n: int, line: Seq<u8>) -> Seq<i64> {
    Seq::new(n as nat, |k: int| number_micros(tokens_of(line)[tag.len() + 1 + k]) as i64)
}

/// The line parser's fixed configuration: the entity tag (as tokens) and
/// the metric catalog size.
pub struct LineParser {
    tag_tokens: Vec<Vec<u8>>,
    n_metrics: usize,
}

impl LineParser {
    /// The tag tokens a sample line must begin with.
    pub closed spec fn tag(self) -> Seq<Seq<u8>> {
        self.tag_tokens@.map_values(|t: Vec<u8>| t@)
    }

    /// The number of metric values per record.
    pub closed spec fn metric_count(self) -> int {
        self.n_metrics as int
    }

    /// Builds a parser for the given entity tag text and catalog size.
    pub fn new(tag: &[u8], n_metrics: usize) -> (r: Self)
        ensures
            r.tag() == tokens_of(tag@),
            r.metric_count() == n_metrics as int,
    {
        LineParser { tag_tokens: tokenize(tag), n_metrics }
    }

    /// Parses one line: `Some` with exactly the `metric_count()` values of
    /// an accepted sample line, `None` for every other line.
    pub fn parse(&self, line: &[u8]) -> (r: Option<Vec<i64>>)
        ensures
            r is Some <==> line_accepted(self.tag(), self.metric_count(), line@),
            r matches Some(v) ==> v@ == line_record(self.tag(), self.metric_count(), line@)
                && v@.len() == self.metric_count(),
    {
        let toks = tokenize(line);
        let ghost tag = self.tag();
        let ghost spec_toks = tokens_of(line@);
        let tlen = self.tag_tokens.len();
        proof {
            assert(spec_toks.len() == toks@.len());
            assert(forall|k: int|
                0 <= k < toks@.len() ==> spec_toks[k] == #[trigger] toks@[k]@);
        }
        // The token count must be exactly tag + identifier + metrics.
        let toks_len = toks.len();
        proof {
            assert(tag.len() == tlen as int);
            assert(spec_toks.len() == toks_len as int);
        }
        let expected = match tlen.checked_add(self.n_metrics) {
            Some(x) => match x.checked_add(1) {
                Some(y) => y,
                None => {
                    // More fields than a machine-sized line can hold.
                    return None;
                },
            },
            None => {
                return None;
            },
        };
        if toks_len != expected {
            return None;
        }
        // The leading tokens must equal the tag tokens.
        let mut i: usize = 0;
        while i < tlen
            invariant
                i <= tlen,
                tlen == self.tag_tokens@.len(),
                toks@.len() >= tlen,
                tag == self.tag(),
                spec_toks == tokens_of(line@),
                spec_toks.len() == toks@.len(),
                forall|k: int| 0 <= k < toks@.len() ==> spec_toks[k] == #[trigger] toks@[k]@,
                forall|j: int| 0 <= j < i ==> spec_toks[j] == tag[j],
            decreases tlen - i,
        {
            if !bytes_eq(&toks[i], &self.tag_tokens[i]) {
                proof {
                    assert(spec_toks[i as int] != tag[i as int]);
                    if spec_toks.take(tlen as int) == tag {
                        assert(spec_toks.take(tlen as int)[i as int] == tag[i as int]);
                        assert(false);
                    }
                }
                return None;
            }
            i += 1;
        }
        proof {
            assert(spec_toks.take(tlen as int) =~= tag);
        }
        // Every remaining field must be numeric; all but the first carry
        // metric values.
        let mut vals: Vec<i64> = Vec::new();
        let mut k: usize = tlen;
        while k < toks.len()
            invariant
                tlen <= k <= toks@.len(),
                toks@.len() == tlen + self.n_metrics + 1,
                tlen == self.tag_tokens@.len(),
                tag == self.tag(),
                spec_toks == tokens_of(line@),
                spec_toks.len() == toks@.len(),
                tag.len() == tlen,
                forall|q: int| 0 <= q < toks@.len() ==> spec_toks[q] == #[trigger] toks@[q]@,
                forall|q: int| tlen <= q < k ==> parses_i64(#[trigger] spec_toks[q]),
                vals@.len() == (if k > tlen {
                    k - tlen - 1
                } else {
                    0
                }),
                forall|q: int|
                    0 <= q < vals@.len() ==> vals@[q] == number_micros(
                        spec_toks[tlen + 1 + q],
                    ) as i64,
            decreases toks@.len() - k,
        {
            match parse_number(toks[k].as_slice()) {
                Some(v) => {
                    if k > tlen {
                        vals.push(v);
                    }
                },
                None => {
                    proof {
                        assert(!parses_i64(spec_toks[k as int]));
                    }
                    return None;
                },
            }
            k += 1;
        }
        proof {
            assert(line_accepted(tag, self.metric_count(), line@));
            assert(vals@ =~= line_record(tag, self.metric_count(), line@));
        }
        Some(vals)
    }
}

} // verus!
