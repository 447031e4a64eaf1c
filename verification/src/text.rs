//! Splitting a line of bytes into whitespace-separated tokens.

use vstd::prelude::*;

verus! {

/// Whitespace bytes of the telemetry stream: space, tab, CR, LF.
pub open spec fn is_ws(b: u8) -> bool {
    b == 32 || b == 9 || b == 13 || b == 10
}

/// The index of the first whitespace byte of `s` at or after `i`, or the
/// length when there is none.
pub open spec fn scan_token_end(s: Seq<u8>, i: int) -> int
    decreases s.len() - i when 0 <= i <= s.len()
{
    if i >= s.len() {
        s.len() as int
    } else if is_ws(s[i]) {
        i
    } else {
        scan_token_end(s, i + 1)
    }
}

/// The end of a token scan stays between its start and the length.
proof fn lemma_scan_end_bounds(s: Seq<u8>, i: int)
    requires
        0 <= i <= s.len(),
    ensures
        i <= scan_token_end(s, i) <= s.len(),
    decreases s.len() - i,
{
    if i < s.len() && !is_ws(s[i]) {
        lemma_scan_end_bounds(s, i + 1);
    }
}

/// The whitespace-separated tokens of `s` from position `i` on: maximal
/// runs of non-whitespace bytes, in order.
pub open spec fn tokens_from(s: Seq<u8>, i: int) -> Seq<Seq<u8>>
    decreases s.len() - i when 0 <= i <= s.len() via tokens_from_dec
{
    if i >= s.len() {
        Seq::empty()
    } else if is_ws(s[i]) {
        tokens_from(s, i + 1)
    } else {
        seq![s.subrange(i, scan_token_end(s, i))] + tokens_from(s, scan_token_end(s, i))
    }
}

#[via_fn]
proof fn tokens_from_dec(s: Seq<u8>, i: int) {
    if 0 <= i && i < s.len() && !is_ws(s[i]) {
        lemma_scan_end_bounds(s, i + 1);
    }
}

/// The whitespace-separated tokens of `s`.
pub open spec fn tokens_of(s: Seq<u8>) -> Seq<Seq<u8>> {
    tokens_from(s, 0)
}

/// Splits `line` into its whitespace-separated tokens, exactly as
/// `tokens_of` describes.
pub fn tokenize(line: &[u8]) -> (r: Vec<Vec<u8>>)
    ensures
        r@.map_values(|t: Vec<u8>| t@) == tokens_of(line@),
{
    let n = line.len();
    let mut toks: Vec<Vec<u8>> = Vec::new();
    let mut i: usize = 0;
    proof {
        assert(toks@.map_values(|t: Vec<u8>| t@) =~= Seq::<Seq<u8>>::empty());
    }
    while i < n
        invariant
            i <= n,
            n == line@.len(),
            tokens_of(line@) == toks@.map_values(|t: Vec<u8>| t@) + tokens_from(line@, i as int),
        decreases n - i,
    {
        let b = line[i];
        if b == 32 || b == 9 || b == 13 || b == 10 {
            i += 1;
        } else {
            let ghost start = i as int;
            let mut cur: Vec<u8> = Vec::new();
            proof {
                assert(cur@ =~= line@.subrange(start, i as int));
            }
            loop
                invariant
                    0 <= start <= i <= n,
                    start < n,
                    n == line@.len(),
                    cur@ == line@.subrange(start, i as int),
                    scan_token_end(line@, start) == scan_token_end(line@, i as int),
                    !is_ws(line@[start]),
                ensures
                    start < i <= n,
                    cur@ == line@.subrange(start, i as int),
                    i as int == scan_token_end(line@, start),
                decreases n - i,
            {
                if i >= n {
                    break;
                }
                let c = line[i];
                if c == 32 || c == 9 || c == 13 || c == 10 {
                    break;
                }
                let ghost pre = cur@;
                cur.push(c);
                i += 1;
                proof {
                    assert(cur@ == pre.push(line@[i - 1]));
                    assert(cur@ =~= line@.subrange(start, i as int));
                }
            }
            let ghost prev_toks = toks@;
            toks.push(cur);
            proof {
                assert(toks@.map_values(|t: Vec<u8>| t@) =~= prev_toks.map_values(
                    |t: Vec<u8>| t@,
                ).push(cur@));
                assert(tokens_from(line@, start) == seq![
                    line@.subrange(start, scan_token_end(line@, start)),
                ] + tokens_from(line@, scan_token_end(line@, start)));
                assert(toks@.map_values(|t: Vec<u8>| t@) + tokens_from(line@, i as int)
                    =~= prev_toks.map_values(|t: Vec<u8>| t@) + tokens_from(line@, start));
            }
        }
    }
    proof {
        assert(toks@.map_values(|t: Vec<u8>| t@) =~= tokens_of(line@));
    }
    toks
}

/// Byte-for-byte equality of two byte vectors.
pub fn bytes_eq(a: &Vec<u8>, b: &Vec<u8>) -> (r: bool)
    ensures
        r <==> a@ == b@,
{
    if a.len() != b.len() {
        return false;
    }
    let mut i: usize = 0;
    while i < a.len()
        invariant
            i <= a@.len(),
            a@.len() == b@.len(),
            forall|j: int| 0 <= j < i ==> a@[j] == b@[j],
        decreases a@.len() - i,
    {
        if a[i] != b[i] {
            return false;
        }
        i += 1;
    }
    proof {
        assert(a@ =~= b@);
    }
    true
}

} // verus!
