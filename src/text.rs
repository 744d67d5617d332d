//! Splitting text into fields and reading numbers from them.
use vstd::prelude::*;
use crate::claw::{field_value, parse_field};
use crate::robots::{is_sep, lemma_skip_bounds, next_token, parse_i32, skip_seps, skip_token, token_i32};

verus! {

proof fn lemma_token_advances(s: Seq<u8>, seps: Seq<u8>, i: int)
    requires
        0 <= i <= s.len(),
        skip_seps(s, seps, i) < s.len(),
    ensures
        skip_seps(s, seps, i) < skip_token(s, seps, skip_seps(s, seps, i)) <= s.len(),
        i <= skip_seps(s, seps, i),
    decreases s.len() - i,
{
    lemma_skip_bounds(s, seps, i);
    if 0 <= i < s.len() && is_sep(seps, s[i]) {
        lemma_token_advances(s, seps, i + 1);
    } else {
        lemma_skip_bounds(s, seps, i + 1);
    }
}

#[via_fn]
proof fn tokens_from_decreases(s: Seq<u8>, seps: Seq<u8>, i: int) {
    if 0 <= i <= s.len() && skip_seps(s, seps, i) < s.len() {
        lemma_token_advances(s, seps, i);
    }
}

/// Bounds of the non-empty runs of non-separator bytes at or after `i`.
pub open spec fn tokens_from(s: Seq<u8>, seps: Seq<u8>, i: int) -> Seq<(int, int)>
    decreases s.len() - i via tokens_from_decreases
{
    if i < 0 || i > s.len() || skip_seps(s, seps, i) >= s.len() {
        Seq::empty()
    } else {
        let start = skip_seps(s, seps, i);
        seq![(start, skip_token(s, seps, start))] + tokens_from(s, seps, skip_token(s, seps, start))
    }
}

/// Bounds of the fields of `s`: its non-empty runs of bytes that are not
/// in `seps`.
pub fn fields(s: &[u8], seps: &[u8]) -> (r: Vec<(usize, usize)>)
    ensures
        r@.len() == tokens_from(s@, seps@, 0).len(),
        forall|k: int| 0 <= k < r@.len() ==> (#[trigger] r@[k]).0 == tokens_from(s@, seps@, 0)[k].0
            && r@[k].1 == tokens_from(s@, seps@, 0)[k].1 && r@[k].0 <= r@[k].1 <= s@.len(),
{
    let ghost all = tokens_from(s@, seps@, 0);
    let mut out: Vec<(usize, usize)> = Vec::new();
    let mut pos: usize = 0;
    loop
        invariant
            pos <= s.len(),
            all == tokens_from(s@, seps@, 0),
            out@.map_values(|t: (usize, usize)| (t.0 as int, t.1 as int)) + tokens_from(s@, seps@, pos as int) == all,
            forall|k: int| 0 <= k < out@.len() ==> (#[trigger] out@[k]).0 <= out@[k].1 <= s@.len(),
        decreases s.len() - pos,
    {
        match next_token(s, seps, pos) {
            None => {
                proof {
                    lemma_skip_bounds(s@, seps@, pos as int);
                }
                assert(tokens_from(s@, seps@, pos as int) =~= Seq::empty());
                assert(out@.map_values(|t: (usize, usize)| (t.0 as int, t.1 as int)) =~= all);
                assert forall|k: int| 0 <= k < out@.len() implies (#[trigger] out@[k]).0 == all[k].0 && out@[k].1 == all[k].1 by {
                    assert(out@.map_values(|t: (usize, usize)| (t.0 as int, t.1 as int))[k] == all[k]);
                }
                return out;
            },
            Some((a, b)) => {
                proof {
                    lemma_token_advances(s@, seps@, pos as int);
                }
                let ghost before = out@;
                out.push((a, b));
                assert(out@.map_values(|t: (usize, usize)| (t.0 as int, t.1 as int)) + tokens_from(s@, seps@, b as int)
                    =~= before.map_values(|t: (usize, usize)| (t.0 as int, t.1 as int)) + tokens_from(s@, seps@, pos as int));
                pos = b;
            },
        }
    }
}

/// The non-empty lines of `s`, as bounds.
pub open spec fn lines_of(s: Seq<u8>) -> Seq<(int, int)> {
    tokens_from(s, seq![10u8], 0)
}

/// Spaces, tabs and carriage returns.
pub open spec fn blanks() -> Seq<u8> {
    seq![32u8, 9u8, 13u8]
}

/// The unsigned values of the fields of `s`, where each is all digits and
/// fits in 64 bits.
pub open spec fn unsigned_fields(s: Seq<u8>, seps: Seq<u8>) -> Option<Seq<u64>> {
    let t = tokens_from(s, seps, 0);
    if forall|k: int| 0 <= k < t.len() ==> (#[trigger] field_value(s, t[k].0, t[k].1)) is Some {
        Some(Seq::new(t.len(), |k: int| field_value(s, t[k].0, t[k].1)->Some_0))
    } else {
        None
    }
}

/// The signed 32-bit values of the fields of `s`, where each is one.
pub open spec fn signed_fields(s: Seq<u8>, seps: Seq<u8>) -> Option<Seq<i32>> {
    let t = tokens_from(s, seps, 0);
    if forall|k: int| 0 <= k < t.len() ==> (#[trigger] token_i32(s, Some(t[k]))) is Some {
        Some(Seq::new(t.len(), |k: int| token_i32(s, Some(t[k]))->Some_0))
    } else {
        None
    }
}

/// Reads every field of `s` as an unsigned number.
pub fn read_unsigned(s: &[u8], seps: &[u8]) -> (r: Option<Vec<u64>>)
    ensures
        r is Some <==> unsigned_fields(s@, seps@) is Some,
        r matches Some(v) ==> Some(v@) == unsigned_fields(s@, seps@),
{
    let ghost t = tokens_from(s@, seps@, 0);
    let f = fields(s, seps);
    let mut out: Vec<u64> = Vec::new();
    let mut k: usize = 0;
    while k < f.len()
        invariant
            t == tokens_from(s@, seps@, 0),
            f@.len() == t.len(),
            forall|m: int| 0 <= m < f@.len() ==> (#[trigger] f@[m]).0 == t[m].0 && f@[m].1 == t[m].1 && f@[m].0 <= f@[m].1 <= s@.len(),
            k <= f.len(),
            out@.len() == k,
            forall|m: int| 0 <= m < k ==> field_value(s@, t[m].0, t[m].1) == Some(#[trigger] out@[m]),
        decreases f.len() - k,
    {
        let (a, b) = f[k];
        match parse_field(s, a, b) {
            Some(v) => {
                out.push(v);
            },
            None => {
                assert(field_value(s@, t[k as int].0, t[k as int].1) is None);
                return None;
            },
        }
        k += 1;
    }
    assert forall|m: int| 0 <= m < t.len() implies (#[trigger] field_value(s@, t[m].0, t[m].1)) is Some by {
        assert(field_value(s@, t[m].0, t[m].1) == Some(out@[m]));
    }
    assert(out@ =~= Seq::new(t.len(), |m: int| field_value(s@, t[m].0, t[m].1)->Some_0));
    Some(out)
}

/// Reads every field of `s` as a signed 32-bit number.
pub fn read_signed(s: &[u8], seps: &[u8]) -> (r: Option<Vec<i32>>)
    ensures
        r is Some <==> signed_fields(s@, seps@) is Some,
        r matches Some(v) ==> Some(v@) == signed_fields(s@, seps@),
{
    let ghost t = tokens_from(s@, seps@, 0);
    let f = fields(s, seps);
    let mut out: Vec<i32> = Vec::new();
    let mut k: usize = 0;
    while k < f.len()
        invariant
            t == tokens_from(s@, seps@, 0),
            f@.len() == t.len(),
            forall|m: int| 0 <= m < f@.len() ==> (#[trigger] f@[m]).0 == t[m].0 && f@[m].1 == t[m].1 && f@[m].0 <= f@[m].1 <= s@.len(),
            k <= f.len(),
            out@.len() == k,
            forall|m: int| 0 <= m < k ==> token_i32(s@, Some(t[m])) == Some(#[trigger] out@[m]),
        decreases f.len() - k,
    {
        let (a, b) = f[k];
        match parse_i32(s, a, b) {
            Some(v) => {
                out.push(v);
            },
            None => {
                assert(token_i32(s@, Some(t[k as int])) is None);
                return None;
            },
        }
        k += 1;
    }
    assert forall|m: int| 0 <= m < t.len() implies (#[trigger] token_i32(s@, Some(t[m]))) is Some by {
        assert(token_i32(s@, Some(t[m])) == Some(out@[m]));
    }
    assert(out@ =~= Seq::new(t.len(), |m: int| token_i32(s@, Some(t[m]))->Some_0));
    Some(out)
}

} // verus!
