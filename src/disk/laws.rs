//! Laws of the compaction engine, proved over the spec functions that the
//! engine's contracts use: single-block compaction keeps every block and
//! leaves no gap, regrouping a decoded layout gives back its extents,
//! whole-extent relocation never splits a file and is a function of its
//! input.
use vstd::prelude::*;
use vstd::seq_lib::to_multiset_update;
use super::{
    checksum, compact_layout, extent_kind, file_extents_from, file_queue_of,
    first_fit, free_extents_from, free_queue_of, layout_of, layout_upto, left_packed, pack,
    relocate, relocate_layout, run_end, step_free, step_layout, lemma_run_end_bounds, Block,
    pass_free, lemma_relocate_without_free,
};

verus! {

proof fn lemma_pack_keeps_blocks(s: Seq<Block>, head: int, tail: int)
    ensures
        pack(s, head, tail).len() == s.len(),
        pack(s, head, tail).to_multiset() == s.to_multiset(),
    decreases tail - head,
{
    if head >= tail || head < 0 || tail > s.len() {
    } else if s[head] is File {
        lemma_pack_keeps_blocks(s, head + 1, tail);
    } else if s[tail - 1] is Free {
        lemma_pack_keeps_blocks(s, head, tail - 1);
    } else {
        let s1 = s.update(head, s[tail - 1]);
        let s2 = s1.update(tail - 1, Block::Free);
        to_multiset_update(s, head, s[tail - 1]);
        to_multiset_update(s1, tail - 1, Block::Free);
        assert(s1[tail - 1] == s[tail - 1]);
        assert(s[head] == Block::Free);
        broadcast use vstd::multiset::group_multiset_axioms;
        s.to_multiset_ensures();
        assert(s.contains(Block::Free));
        assert(s.to_multiset().count(Block::Free) > 0);
        assert(s2.to_multiset() =~= s.to_multiset());
        lemma_pack_keeps_blocks(s2, head + 1, tail - 1);
    }
}

proof fn lemma_pack_left_packed(s: Seq<Block>, head: int, tail: int)
    requires
        0 <= head <= tail <= s.len(),
        forall|i: int| 0 <= i < head ==> (#[trigger] s[i]) is File,
        forall|i: int| tail <= i < s.len() ==> (#[trigger] s[i]) is Free,
    ensures
        left_packed(pack(s, head, tail)),
    decreases tail - head,
{
    if head >= tail {
    } else if s[head] is File {
        lemma_pack_left_packed(s, head + 1, tail);
    } else if s[tail - 1] is Free {
        lemma_pack_left_packed(s, head, tail - 1);
    } else {
        let s2 = s.update(head, s[tail - 1]).update(tail - 1, Block::Free);
        lemma_pack_left_packed(s2, head + 1, tail - 1);
    }
}

/// Single-block compaction keeps every block: the compacted layout has the
/// same length and the same blocks, counted with multiplicity, so the number
/// of occupied blocks and each file's block count are unchanged; only
/// addresses change.
pub proof fn lemma_compact_keeps_blocks(s: Seq<Block>)
    ensures
        compact_layout(s).len() == s.len(),
        compact_layout(s).to_multiset() == s.to_multiset(),
        forall|b: Block| #[trigger] compact_layout(s).to_multiset().count(b) == s.to_multiset().count(b),
{
    lemma_pack_keeps_blocks(s, 0, s.len() as int);
}

/// After single-block compaction no free block lies before an occupied one.
pub proof fn lemma_compact_left_packed(s: Seq<Block>)
    ensures
        left_packed(compact_layout(s)),
{
    lemma_pack_left_packed(s, 0, s.len() as int);
}

/// Whole-extent relocation is a function of the layout: two runs on equal
/// layouts build equal queues and leave equal layouts with equal checksums.
pub proof fn lemma_relocation_deterministic(s1: Seq<Block>, s2: Seq<Block>)
    requires
        s1 == s2,
    ensures
        free_queue_of(s1) == free_queue_of(s2),
        file_queue_of(s1) == file_queue_of(s2),
        relocate_layout(s1) == relocate_layout(s2),
        checksum(relocate_layout(s1)) == checksum(relocate_layout(s2)),
{
}



/// Address at which the extent of digit `i` starts: the sum of the digits
/// before it.
pub open spec fn extent_start(d: Seq<u8>, i: int) -> int
    decreases i,
{
    if i <= 0 {
        0
    } else {
        extent_start(d, i - 1) + d[i - 1]
    }
}

/// The free extents `(start, length)` that the first `n` digits describe,
/// in order; runs of length zero are no extents.
pub open spec fn decoded_free_extents(d: Seq<u8>, n: int) -> Seq<(usize, usize)>
    decreases n,
{
    if n <= 0 {
        Seq::empty()
    } else if (n - 1) % 2 == 1 && d[n - 1] > 0 {
        decoded_free_extents(d, n - 1).push((extent_start(d, n - 1) as usize, d[n - 1] as usize))
    } else {
        decoded_free_extents(d, n - 1)
    }
}

/// The file extents `(file id, length, start)` that the first `n` digits
/// describe, in order.
pub open spec fn decoded_file_extents(d: Seq<u8>, n: int) -> Seq<(u64, usize, usize)>
    decreases n,
{
    if n <= 0 {
        Seq::empty()
    } else if (n - 1) % 2 == 0 && d[n - 1] > 0 {
        decoded_file_extents(d, n - 1).push((((n - 1) / 2) as u64, d[n - 1] as usize, extent_start(d, n - 1) as usize))
    } else {
        decoded_file_extents(d, n - 1)
    }
}

/// A digit stream as the input encoding has it: each digit at most 9, and
/// each file at least one block long (and no more digits than a 64-bit
/// count can number).
pub open spec fn well_formed_digits(d: Seq<u8>) -> bool {
    &&& d.len() <= u64::MAX
    &&& forall|i: int| 0 <= i < d.len() ==> #[trigger] d[i] <= 9
    &&& forall|i: int| 0 <= i < d.len() && i % 2 == 0 ==> #[trigger] d[i] >= 1
}

proof fn lemma_layout_len(d: Seq<u8>, n: int)
    requires
        0 <= n <= d.len(),
    ensures
        layout_upto(d, n).len() == extent_start(d, n),
    decreases n,
{
    if n > 0 {
        lemma_layout_len(d, n - 1);
    }
}

proof fn lemma_run_end_constant_tail(s: Seq<Block>, i: int)
    requires
        0 <= i < s.len(),
        forall|k: int| i <= k < s.len() ==> #[trigger] s[k] == s[i],
    ensures
        run_end(s, i) == s.len(),
    decreases s.len() - i,
{
    if i + 1 < s.len() {
        lemma_run_end_constant_tail(s, i + 1);
    }
}

proof fn lemma_run_end_prefix(a: Seq<Block>, t: Seq<Block>, i: int)
    requires
        0 <= i < a.len(),
        t.len() == 0 || t[0] != a.last(),
    ensures
        run_end(a + t, i) == run_end(a, i),
    decreases a.len() - i,
{
    if i + 1 < a.len() {
        assert((a + t)[i + 1] == a[i + 1]);
        assert((a + t)[i] == a[i]);
        if a[i + 1] == a[i] {
            lemma_run_end_prefix(a, t, i + 1);
        }
    } else if t.len() > 0 {
        assert((a + t)[i + 1] == t[0]);
    }
}

proof fn lemma_extents_append(a: Seq<Block>, t: Seq<Block>, i: int)
    requires
        0 <= i <= a.len(),
        a.len() == 0 || t.len() == 0 || t[0] != a.last(),
    ensures
        free_extents_from(a + t, i) == free_extents_from(a, i) + free_extents_from(a + t, a.len() as int),
        file_extents_from(a + t, i) == file_extents_from(a, i) + file_extents_from(a + t, a.len() as int),
    decreases a.len() - i,
{
    if i == a.len() {
        assert(free_extents_from(a, i) =~= Seq::empty());
        assert(free_extents_from(a + t, i) =~= free_extents_from(a, i) + free_extents_from(a + t, a.len() as int));
        assert(file_extents_from(a + t, i) =~= file_extents_from(a, i) + file_extents_from(a + t, a.len() as int));
    } else {
        lemma_run_end_prefix(a, t, i);
        lemma_run_end_bounds(a, i);
        assert((a + t)[i] == a[i]);
        let e = run_end(a, i);
        lemma_extents_append(a, t, e);
        assert(free_extents_from(a + t, i) =~= free_extents_from(a, i) + free_extents_from(a + t, a.len() as int));
        assert(file_extents_from(a + t, i) =~= file_extents_from(a, i) + file_extents_from(a + t, a.len() as int));
    }
}

proof fn lemma_extents_single_run(a: Seq<Block>, b: Block, n: nat)
    requires
        n >= 1,
    ensures
        free_extents_from(a + Seq::new(n, |k: int| b), a.len() as int)
            == if b is Free { seq![(a.len() as usize, n as usize)] } else { Seq::empty() },
        file_extents_from(a + Seq::new(n, |k: int| b), a.len() as int)
            == if let Block::File(id) = b { seq![(id, n as usize, a.len() as usize)] } else { Seq::empty() },
{
    let s = a + Seq::new(n, |k: int| b);
    assert forall|k: int| a.len() <= k < s.len() implies #[trigger] s[k] == s[a.len() as int] by {}
    lemma_run_end_constant_tail(s, a.len() as int);
    assert(free_extents_from(s, s.len() as int) =~= Seq::empty());
    assert(file_extents_from(s, s.len() as int) =~= Seq::empty());
    assert(seq![(a.len() as usize, n as usize)] + Seq::<(usize, usize)>::empty() =~= seq![(a.len() as usize, n as usize)]);
    if let Block::File(id) = b {
        assert(seq![(id, n as usize, a.len() as usize)] + Seq::<(u64, usize, usize)>::empty()
            =~= seq![(id, n as usize, a.len() as usize)]);
    }
}

/// The last block of the layout of the first `n` digits.
proof fn lemma_layout_last(d: Seq<u8>, n: int)
    requires
        well_formed_digits(d),
        1 <= n <= d.len(),
    ensures
        layout_upto(d, n).len() > 0,
        (n - 1) % 2 == 0 ==> layout_upto(d, n).last() == Block::File(((n - 1) / 2) as u64),
        (n - 1) % 2 == 1 && d[n - 1] > 0 ==> layout_upto(d, n).last() == Block::Free,
        (n - 1) % 2 == 1 && d[n - 1] == 0 ==> layout_upto(d, n).last() == Block::File(((n - 2) / 2) as u64),
    decreases n,
{
    assert(d[n - 1] <= 9);
    if (n - 1) % 2 == 0 {
        assert(d[n - 1] >= 1);
    } else if d[n - 1] == 0 {
        lemma_layout_last(d, n - 1);
        assert(layout_upto(d, n) =~= layout_upto(d, n - 1));
    }
}

/// Grouping the expanded layout of a digit stream back into extents gives
/// the extents the digits describe: the free queue lists the free runs of
/// non-zero length with their addresses, and the file queue lists every
/// file extent, from the last to the first.
pub proof fn lemma_regroup_decoded(d: Seq<u8>)
    requires
        well_formed_digits(d),
    ensures
        free_queue_of(layout_of(d)) == decoded_free_extents(d, d.len() as int),
        file_queue_of(layout_of(d)) == decoded_file_extents(d, d.len() as int).reverse(),
{
    lemma_regroup_upto(d, d.len() as int);
}

proof fn lemma_regroup_upto(d: Seq<u8>, n: int)
    requires
        well_formed_digits(d),
        0 <= n <= d.len(),
    ensures
        free_extents_from(layout_upto(d, n), 0) == decoded_free_extents(d, n),
        file_extents_from(layout_upto(d, n), 0) == decoded_file_extents(d, n),
    decreases n,
{
    if n == 0 {
        assert(free_extents_from(layout_upto(d, 0), 0) =~= Seq::empty());
        assert(file_extents_from(layout_upto(d, 0), 0) =~= Seq::empty());
    } else {
        lemma_regroup_upto(d, n - 1);
        let a = layout_upto(d, n - 1);
        let len = d[n - 1] as nat;
        let t = Seq::new(len, |k: int| extent_kind(n - 1));
        assert(layout_upto(d, n) == a + t);
        lemma_layout_len(d, n - 1);
        if len == 0 {
            assert(a + t =~= a);
        } else {
            if n - 1 >= 1 {
                lemma_layout_last(d, n - 1);
                if (n - 1) % 2 == 0 {
                    assert(((n - 1) / 2) as u64 != ((n - 3) / 2) as u64);
                }
            }
            assert(t[0] == extent_kind(n - 1));
            lemma_extents_append(a, t, 0);
            lemma_extents_single_run(a, extent_kind(n - 1), len);
            if (n - 1) % 2 == 1 {
                assert(free_extents_from(a + t, 0) =~= decoded_free_extents(d, n));
                assert(file_extents_from(a + t, 0) =~= decoded_file_extents(d, n));
            } else {
                assert(free_extents_from(a + t, 0) =~= decoded_free_extents(d, n));
                assert(file_extents_from(a + t, 0) =~= decoded_file_extents(d, n));
            }
        }
    }
}



/// Every file's blocks form one contiguous range: a block between two
/// blocks of the same file belongs to that file too.
pub open spec fn contiguous_files(s: Seq<Block>) -> bool {
    forall|i: int, k: int, j: int|
        0 <= i < k < j < s.len() && (#[trigger] s[i]) is File && s[i] == #[trigger] s[j] ==> #[trigger] s[k] == s[i]
}

/// File `id` holds exactly the blocks `[start, start + len)` of `s`.
pub open spec fn occupies(s: Seq<Block>, id: u64, start: int, len: int) -> bool {
    forall|i: int| 0 <= i < s.len() ==> ((#[trigger] s[i] == Block::File(id)) <==> (start <= i < start + len))
}

/// `t` and `s` have the same length, and file `id` holds the same blocks in both.
pub open spec fn same_blocks_of(t: Seq<Block>, s: Seq<Block>, id: u64) -> bool {
    t.len() == s.len() && forall|i: int| 0 <= i < s.len() ==> (#[trigger] t[i] == Block::File(id) <==> s[i] == Block::File(id))
}

/// What whole-extent relocation keeps true of its layout and queues: free
/// extents are free, in range and disjoint; each pending file extent is in
/// range, non-empty and exactly where its file is; pending files differ.
pub open spec fn relocation_inv(s: Seq<Block>, free: Seq<(usize, usize)>, files: Seq<(u64, usize, usize)>) -> bool {
    &&& forall|a: int| 0 <= a < free.len() ==> (#[trigger] free[a]).0 + free[a].1 <= s.len()
    &&& forall|a: int, i: int| 0 <= a < free.len() && free[a].0 <= i < free[a].0 + free[a].1
        ==> (#[trigger] s[i]) is Free && #[trigger] free[a] == free[a]
    &&& forall|a: int, b: int| 0 <= a < b < free.len()
        ==> (#[trigger] free[a]).0 + free[a].1 <= (#[trigger] free[b]).0 || free[b].0 + free[b].1 <= free[a].0
    &&& forall|a: int| 0 <= a < files.len() ==> {
        &&& (#[trigger] files[a]).1 >= 1
        &&& files[a].2 + files[a].1 <= s.len()
        &&& occupies(s, files[a].0, files[a].2 as int, files[a].1 as int)
    }
    &&& forall|a: int, b: int| 0 <= a < b < files.len() ==> (#[trigger] files[a]).0 != (#[trigger] files[b]).0
}

proof fn lemma_first_fit(free: Seq<(usize, usize)>, len: usize, start: usize, j: int)
    requires
        0 <= j,
    ensures
        first_fit(free, len, start, j) == free.len() || (j <= first_fit(free, len, start, j) < free.len()
            && free[first_fit(free, len, start, j)].1 >= len
            && free[first_fit(free, len, start, j)].0 < start),
    decreases free.len() - j,
{
    if j < free.len() && !(free[j].1 >= len && free[j].0 < start) {
        lemma_first_fit(free, len, start, j + 1);
    }
}

/// One relocation step keeps the invariant, leaves every other file's
/// blocks where they were and, where the file moves, puts it whole at the
/// start of the free extent used.
proof fn lemma_step(s: Seq<Block>, free: Seq<(usize, usize)>, files: Seq<(u64, usize, usize)>)
    requires
        relocation_inv(s, free, files),
        files.len() > 0,
    ensures
        relocation_inv(step_layout(s, free, files[0]), step_free(free, files[0]), files.drop_first()),
        step_layout(s, free, files[0]).len() == s.len(),
        forall|id: u64| id != files[0].0 ==> #[trigger] same_blocks_of(step_layout(s, free, files[0]), s, id),
        exists|p: int| occupies(step_layout(s, free, files[0]), files[0].0, p, files[0].1 as int),
{
    let f = files[0];
    let j = first_fit(free, f.1, f.2, 0);
    lemma_first_fit(free, f.1, f.2, 0);
    let t = step_layout(s, free, f);
    let rest = step_free(free, f);
    let later = files.drop_first();
    assert(occupies(s, f.0, f.2 as int, f.1 as int));
    if 0 <= j < free.len() {
        let e = free[j];
        assert(s[f.2 as int] == Block::File(f.0));
        if e.0 <= f.2 < e.0 + e.1 {
            assert(s[f.2 as int] is Free);
        }
        assert(e.0 + e.1 <= f.2);
        assert(forall|i: int| e.0 <= i < e.0 + e.1 ==> (#[trigger] s[i]) is Free && free[j] == free[j]);
        assert(occupies(t, f.0, e.0 as int, f.1 as int));
        assert forall|id: u64| id != f.0 implies #[trigger] same_blocks_of(t, s, id) by {
            assert forall|i: int| 0 <= i < s.len() implies (#[trigger] t[i] == Block::File(id) <==> s[i] == Block::File(id)) by {
                if e.0 <= i < e.0 + f.1 {
                    assert(s[i] is Free);
                }
            }
        }
        assert forall|a: int, i: int| 0 <= a < rest.len() && rest[a].0 <= i < rest[a].0 + rest[a].1
            implies (#[trigger] t[i]) is Free && #[trigger] rest[a] == rest[a] by {
            if e.1 > f.1 {
                if a == j {
                    assert(s[i] is Free && free[j] == free[j]);
                } else {
                    assert(s[i] is Free && free[a] == free[a]);
                    assert(free[a].0 + free[a].1 <= free[j].0 || free[j].0 + free[j].1 <= free[a].0);
                }
            } else {
                let b = if a < j { a } else { a + 1 };
                assert(rest[a] == free[b]);
                assert(s[i] is Free && free[b] == free[b]);
                assert(free[b].0 + free[b].1 <= free[j].0 || free[j].0 + free[j].1 <= free[b].0);
            }
        }
        assert forall|a: int, b: int| 0 <= a < b < rest.len() implies
            (#[trigger] rest[a]).0 + rest[a].1 <= (#[trigger] rest[b]).0 || rest[b].0 + rest[b].1 <= rest[a].0 by {
            if e.1 > f.1 {
                assert(free[a].0 + free[a].1 <= free[b].0 || free[b].0 + free[b].1 <= free[a].0);
            } else {
                let a2 = if a < j { a } else { a + 1 };
                let b2 = if b < j { b } else { b + 1 };
                assert(free[a2].0 + free[a2].1 <= free[b2].0 || free[b2].0 + free[b2].1 <= free[a2].0);
            }
        }
        assert forall|a: int| 0 <= a < rest.len() implies (#[trigger] rest[a]).0 + rest[a].1 <= t.len() by {
            if e.1 > f.1 {
                assert(free[a].0 + free[a].1 <= s.len());
            } else {
                let b = if a < j { a } else { a + 1 };
                assert(free[b].0 + free[b].1 <= s.len());
            }
        }
        assert forall|a: int| 0 <= a < later.len() implies {
            &&& (#[trigger] later[a]).1 >= 1
            &&& later[a].2 + later[a].1 <= t.len()
            &&& occupies(t, later[a].0, later[a].2 as int, later[a].1 as int)
        } by {
            assert(later[a] == files[a + 1]);
            assert(files[0].0 != files[a + 1].0);
            assert(occupies(s, files[a + 1].0, files[a + 1].2 as int, files[a + 1].1 as int));
            assert forall|i: int| 0 <= i < t.len() implies ((#[trigger] t[i] == Block::File(later[a].0))
                <==> (later[a].2 <= i < later[a].2 + later[a].1)) by {
                if e.0 <= i < e.0 + f.1 {
                    assert(s[i] is Free);
                }
                assert(s[i] == Block::File(later[a].0) <==> (later[a].2 <= i < later[a].2 + later[a].1));
            }
        }
        assert forall|a: int, b: int| 0 <= a < b < later.len() implies (#[trigger] later[a]).0 != (#[trigger] later[b]).0 by {
            assert(files[a + 1].0 != files[b + 1].0);
        }
    } else {
        assert(t == s);
        assert(rest == free);
        assert forall|id: u64| id != f.0 implies #[trigger] same_blocks_of(t, s, id) by {}
        assert forall|a: int| 0 <= a < later.len() implies {
            &&& (#[trigger] later[a]).1 >= 1
            &&& later[a].2 + later[a].1 <= t.len()
            &&& occupies(t, later[a].0, later[a].2 as int, later[a].1 as int)
        } by {
            assert(later[a] == files[a + 1]);
        }
        assert forall|a: int, b: int| 0 <= a < b < later.len() implies (#[trigger] later[a]).0 != (#[trigger] later[b]).0 by {
            assert(files[a + 1].0 != files[b + 1].0);
        }
        assert(occupies(t, f.0, f.2 as int, f.1 as int));
    }
}

proof fn lemma_relocate_len(s: Seq<Block>, free: Seq<(usize, usize)>, files: Seq<(u64, usize, usize)>)
    requires
        relocation_inv(s, free, files),
    ensures
        relocate(s, free, files).len() == s.len(),
    decreases files.len(),
{
    if files.len() > 0 {
        lemma_step(s, free, files);
        lemma_relocate_len(step_layout(s, free, files[0]), step_free(free, files[0]), files.drop_first());
    }
}

proof fn lemma_relocate_other(
    s: Seq<Block>,
    free: Seq<(usize, usize)>,
    files: Seq<(u64, usize, usize)>,
    id: u64,
    q: int,
    len: int,
)
    requires
        relocation_inv(s, free, files),
        occupies(s, id, q, len),
        forall|a: int| 0 <= a < files.len() ==> (#[trigger] files[a]).0 != id,
    ensures
        occupies(relocate(s, free, files), id, q, len),
    decreases files.len(),
{
    if files.len() > 0 {
        lemma_step(s, free, files);
        let t = step_layout(s, free, files[0]);
        assert(same_blocks_of(t, s, id));
        let later = files.drop_first();
        assert forall|a: int| 0 <= a < later.len() implies (#[trigger] later[a]).0 != id by {
            assert(later[a] == files[a + 1]);
        }
        lemma_relocate_other(t, step_free(free, files[0]), later, id, q, len);
    }
}

proof fn lemma_relocate_entry(s: Seq<Block>, free: Seq<(usize, usize)>, files: Seq<(u64, usize, usize)>, j: int)
    requires
        relocation_inv(s, free, files),
        0 <= j < files.len(),
    ensures
        exists|p: int| #[trigger] occupies(relocate(s, free, files), files[j].0, p, files[j].1 as int),
    decreases files.len(),
{
    lemma_step(s, free, files);
    let t = step_layout(s, free, files[0]);
    let rest = step_free(free, files[0]);
    let later = files.drop_first();
    if j == 0 {
        let p = choose|p: int| occupies(t, files[0].0, p, files[0].1 as int);
        assert forall|a: int| 0 <= a < later.len() implies (#[trigger] later[a]).0 != files[0].0 by {
            assert(later[a] == files[a + 1]);
            assert(files[0].0 != files[a + 1].0);
        }
        lemma_relocate_other(t, rest, later, files[0].0, p, files[0].1 as int);
        assert(relocate(s, free, files) == relocate(t, rest, later));
        assert(occupies(relocate(s, free, files), files[j].0, p, files[j].1 as int));
    } else {
        assert(later[j - 1] == files[j]);
        lemma_relocate_entry(t, rest, later, j - 1);
        assert(relocate(s, free, files) == relocate(t, rest, later));
        let q = choose|q: int| #[trigger] occupies(relocate(t, rest, later), later[j - 1].0, q, later[j - 1].1 as int);
        assert(occupies(relocate(s, free, files), files[j].0, q, files[j].1 as int));
    }
}

proof fn lemma_run_props(s: Seq<Block>, i: int)
    requires
        0 <= i < s.len(),
    ensures
        i < run_end(s, i) <= s.len(),
        forall|k: int| i <= k < run_end(s, i) ==> #[trigger] s[k] == s[i],
        run_end(s, i) == s.len() || s[run_end(s, i)] != s[i],
    decreases s.len() - i,
{
    if i + 1 < s.len() && s[i + 1] == s[i] {
        lemma_run_props(s, i + 1);
    }
}

/// The extents found from a run boundary `i` on lie in order after `i`,
/// are non-empty, and each covers one whole maximal run.
proof fn lemma_extents_props(s: Seq<Block>, i: int)
    requires
        0 <= i <= s.len(),
        s.len() <= usize::MAX,
        i == 0 || i == s.len() || s[i - 1] != s[i],
    ensures
        forall|a: int| 0 <= a < free_extents_from(s, i).len() ==> {
            &&& i <= (#[trigger] free_extents_from(s, i)[a]).0
            &&& free_extents_from(s, i)[a].1 >= 1
            &&& free_extents_from(s, i)[a].0 + free_extents_from(s, i)[a].1 <= s.len()
        },
        forall|a: int, k: int| 0 <= a < free_extents_from(s, i).len()
            && free_extents_from(s, i)[a].0 <= k < free_extents_from(s, i)[a].0 + free_extents_from(s, i)[a].1
            ==> (#[trigger] s[k]) is Free && #[trigger] free_extents_from(s, i)[a] == free_extents_from(s, i)[a],
        forall|a: int, b: int| 0 <= a < b < free_extents_from(s, i).len() ==>
            (#[trigger] free_extents_from(s, i)[a]).0 + free_extents_from(s, i)[a].1 <= (#[trigger] free_extents_from(s, i)[b]).0,
        forall|a: int| 0 <= a < file_extents_from(s, i).len() ==> {
            let f = #[trigger] file_extents_from(s, i)[a];
            &&& i <= f.2
            &&& f.1 >= 1
            &&& f.2 + f.1 <= s.len()
            &&& f.2 == 0 || s[f.2 - 1] != Block::File(f.0)
            &&& f.2 + f.1 == s.len() || s[f.2 + f.1] != Block::File(f.0)
            &&& forall|k: int| f.2 <= k < f.2 + f.1 ==> #[trigger] s[k] == Block::File(f.0)
        },
        forall|a: int, b: int| 0 <= a < b < file_extents_from(s, i).len() ==>
            (#[trigger] file_extents_from(s, i)[a]).2 + file_extents_from(s, i)[a].1 <= (#[trigger] file_extents_from(s, i)[b]).2,
    decreases s.len() - i,
{
    if i < s.len() {
        lemma_run_props(s, i);
        let e = run_end(s, i);
        assert(s[e - 1] == s[i]);
        lemma_extents_props(s, e);
        let fr = free_extents_from(s, i);
        let fl = file_extents_from(s, i);
        let fr2 = free_extents_from(s, e);
        let fl2 = file_extents_from(s, e);
        if s[i] is Free {
            assert(fr == seq![(i as usize, (e - i) as usize)] + fr2);
            assert(fl == fl2);
            assert forall|a: int| 0 <= a < fr.len() implies #[trigger] fr[a] == if a == 0 { (i as usize, (e - i) as usize) } else { fr2[a - 1] } by {}
        } else {
            let id = s[i]->File_0;
            assert(fl == seq![(id, (e - i) as usize, i as usize)] + fl2);
            assert(fr == fr2);
            assert forall|a: int| 0 <= a < fl.len() implies #[trigger] fl[a] == if a == 0 { (id, (e - i) as usize, i as usize) } else { fl2[a - 1] } by {}
        }
    } else {
        assert(free_extents_from(s, i).len() == 0);
        assert(file_extents_from(s, i).len() == 0);
    }
}

/// In a layout whose files are contiguous, the scanner's queues satisfy the
/// relocation invariant.
proof fn lemma_queues_inv(s: Seq<Block>)
    requires
        contiguous_files(s),
        s.len() <= usize::MAX,
    ensures
        relocation_inv(s, free_queue_of(s), file_queue_of(s)),
        forall|j: int| 0 <= j < file_queue_of(s).len() ==> occupies(s, (#[trigger] file_queue_of(s)[j]).0,
            file_queue_of(s)[j].2 as int, file_queue_of(s)[j].1 as int),
{
    lemma_extents_props(s, 0);
    let fr = free_queue_of(s);
    let fl = file_extents_from(s, 0);
    let fq = file_queue_of(s);
    assert forall|a: int, b: int| 0 <= a < b < fr.len() implies
        (#[trigger] fr[a]).0 + fr[a].1 <= (#[trigger] fr[b]).0 || fr[b].0 + fr[b].1 <= fr[a].0 by {}
    assert forall|a: int| 0 <= a < fl.len() implies occupies(s, (#[trigger] fl[a]).0, fl[a].2 as int, fl[a].1 as int) by {
        let f = fl[a];
        assert forall|i: int| 0 <= i < s.len() implies ((#[trigger] s[i] == Block::File(f.0)) <==> (f.2 <= i < f.2 + f.1)) by {
            if s[i] == Block::File(f.0) {
                if i < f.2 {
                    assert(s[f.2 as int] == Block::File(f.0));
                    if i < f.2 - 1 {
                        assert(s[f.2 - 1] == s[i]);
                    }
                } else if i >= f.2 + f.1 {
                    assert(s[f.2 as int] == Block::File(f.0));
                    if i > f.2 + f.1 {
                        assert(s[f.2 + f.1] == s[f.2 as int]);
                    }
                }
            }
        }
    }
    assert forall|a: int, b: int| 0 <= a < fl.len() && 0 <= b < fl.len() && a != b implies fl[a].0 != fl[b].0 by {
        let (x, y) = if a < b { (a, b) } else { (b, a) };
        assert(fl[x].2 + fl[x].1 <= fl[y].2);
        if fl[x].0 == fl[y].0 {
            assert(occupies(s, fl[x].0, fl[x].2 as int, fl[x].1 as int));
            assert(s[fl[y].2 as int] == Block::File(fl[y].0));
        }
    }
    assert forall|a: int| 0 <= a < fq.len() implies #[trigger] fq[a] == fl[fl.len() - 1 - a] by {}
    assert forall|a: int, b: int| 0 <= a < b < fq.len() implies (#[trigger] fq[a]).0 != (#[trigger] fq[b]).0 by {
        assert(fq[a] == fl[fl.len() - 1 - a]);
        assert(fq[b] == fl[fl.len() - 1 - b]);
    }
    assert forall|a: int| 0 <= a < fq.len() implies {
        &&& (#[trigger] fq[a]).1 >= 1
        &&& fq[a].2 + fq[a].1 <= s.len()
        &&& occupies(s, fq[a].0, fq[a].2 as int, fq[a].1 as int)
    } by {
        assert(fq[a] == fl[fl.len() - 1 - a]);
    }
}

/// Whole-extent relocation never splits a file: in a layout whose files are
/// contiguous, every file extent of the file queue ends up as one
/// contiguous range of the same length (and nothing else holds that file).
pub proof fn lemma_relocation_keeps_files_whole(s: Seq<Block>)
    requires
        contiguous_files(s),
        s.len() <= usize::MAX,
    ensures
        relocate_layout(s).len() == s.len(),
        forall|j: int| 0 <= j < file_queue_of(s).len() ==> {
            &&& occupies(s, (#[trigger] file_queue_of(s)[j]).0, file_queue_of(s)[j].2 as int, file_queue_of(s)[j].1 as int)
            &&& exists|p: int| #[trigger] occupies(relocate_layout(s), file_queue_of(s)[j].0, p, file_queue_of(s)[j].1 as int)
        },
{
    lemma_queues_inv(s);
    lemma_relocate_len(s, free_queue_of(s), file_queue_of(s));
    let fq = file_queue_of(s);
    assert forall|j: int| 0 <= j < fq.len() implies
        exists|p: int| #[trigger] occupies(relocate_layout(s), (#[trigger] fq[j]).0, p, fq[j].1 as int) by {
        lemma_relocate_entry(s, free_queue_of(s), fq, j);
        let p = choose|p: int| #[trigger] occupies(relocate(s, free_queue_of(s), fq), fq[j].0, p, fq[j].1 as int);
        assert(occupies(relocate_layout(s), fq[j].0, p, fq[j].1 as int));
    }
}

proof fn lemma_layout_contiguous(d: Seq<u8>, n: int)
    requires
        well_formed_digits(d),
        0 <= n <= d.len(),
    ensures
        contiguous_files(layout_upto(d, n)),
        forall|i: int| 0 <= i < layout_upto(d, n).len() && (#[trigger] layout_upto(d, n)[i]) is File
            ==> layout_upto(d, n)[i]->File_0 < (n + 1) / 2,
    decreases n,
{
    if n > 0 {
        lemma_layout_contiguous(d, n - 1);
        let a = layout_upto(d, n - 1);
        let t = Seq::new(d[n - 1] as nat, |k: int| extent_kind(n - 1));
        let s = layout_upto(d, n);
        assert(s == a + t);
        assert forall|i: int| 0 <= i < s.len() && (#[trigger] s[i]) is File implies s[i]->File_0 < (n + 1) / 2 by {
            if i < a.len() {
                assert(s[i] == a[i]);
            } else {
                assert(s[i] == extent_kind(n - 1));
            }
        }
        assert forall|i: int, k: int, j: int|
            0 <= i < k < j < s.len() && (#[trigger] s[i]) is File && s[i] == #[trigger] s[j] implies #[trigger] s[k] == s[i] by {
            if j < a.len() {
                assert(s[i] == a[i] && s[j] == a[j] && s[k] == a[k]);
            } else if i >= a.len() {
                assert(s[i] == extent_kind(n - 1) && s[k] == extent_kind(n - 1));
            } else {
                assert(s[i] == a[i]);
                assert(s[j] == extent_kind(n - 1));
                assert(a[i]->File_0 < n / 2);
            }
        }
    }
}

/// Whole-extent relocation never splits a file of a decoded layout: every
/// file extent of the file queue ends up as one contiguous range as long as
/// it was before.
pub proof fn lemma_decoded_files_stay_whole(d: Seq<u8>)
    requires
        well_formed_digits(d),
        layout_of(d).len() <= usize::MAX,
    ensures
        relocate_layout(layout_of(d)).len() == layout_of(d).len(),
        forall|j: int| 0 <= j < file_queue_of(layout_of(d)).len() ==> {
            &&& occupies(layout_of(d), (#[trigger] file_queue_of(layout_of(d))[j]).0,
                file_queue_of(layout_of(d))[j].2 as int, file_queue_of(layout_of(d))[j].1 as int)
            &&& exists|p: int| #[trigger] occupies(relocate_layout(layout_of(d)), file_queue_of(layout_of(d))[j].0, p,
                file_queue_of(layout_of(d))[j].1 as int)
        },
{
    lemma_layout_contiguous(d, d.len() as int);
    lemma_relocation_keeps_files_whole(layout_of(d));
}

/// Every free extent of the queue lies in the layout, is free there, and
/// no two overlap.
pub open spec fn free_queue_ok(s: Seq<Block>, free: Seq<(usize, usize)>) -> bool {
    &&& forall|a: int| 0 <= a < free.len() ==> (#[trigger] free[a]).0 + free[a].1 <= s.len()
    &&& forall|a: int, i: int| 0 <= a < free.len() && free[a].0 <= i < free[a].0 + free[a].1
        ==> (#[trigger] s[i]) is Free && #[trigger] free[a] == free[a]
    &&& forall|a: int, b: int| 0 <= a < b < free.len()
        ==> (#[trigger] free[a]).0 + free[a].1 <= (#[trigger] free[b]).0 || free[b].0 + free[b].1 <= free[a].0
}

proof fn lemma_pass_keeps_free_queue(s: Seq<Block>, free: Seq<(usize, usize)>, files: Seq<(u64, usize, usize)>)
    requires
        relocation_inv(s, free, files),
    ensures
        free_queue_ok(relocate(s, free, files), pass_free(free, files)),
    decreases files.len(),
{
    if files.len() == 0 {
    } else if free.len() == 0 {
        assert(free =~= Seq::<(usize, usize)>::empty());
        lemma_relocate_without_free(s, files);
    } else {
        lemma_step(s, free, files);
        lemma_pass_keeps_free_queue(step_layout(s, free, files[0]), step_free(free, files[0]), files.drop_first());
    }
}

/// After whole-extent relocation of a layout whose files are contiguous,
/// the free extents left in the queue lie in the final layout, are free
/// there, and do not overlap.
pub proof fn lemma_relocation_free_queue_is_free(s: Seq<Block>)
    requires
        contiguous_files(s),
        s.len() <= usize::MAX,
    ensures
        free_queue_ok(relocate_layout(s), pass_free(free_queue_of(s), file_queue_of(s))),
{
    lemma_queues_inv(s);
    lemma_pass_keeps_free_queue(s, free_queue_of(s), file_queue_of(s));
}

/// Running the whole engine twice on one digit stream gives equal
/// expanded layouts, equal whole-extent relocations, equal queues left
/// after the pass, and equal checksums.
pub proof fn lemma_engine_deterministic(d1: Seq<u8>, d2: Seq<u8>)
    requires
        d1 == d2,
    ensures
        layout_of(d1) == layout_of(d2),
        relocate_layout(layout_of(d1)) == relocate_layout(layout_of(d2)),
        pass_free(free_queue_of(layout_of(d1)), file_queue_of(layout_of(d1)))
            == pass_free(free_queue_of(layout_of(d2)), file_queue_of(layout_of(d2))),
        checksum(relocate_layout(layout_of(d1))) == checksum(relocate_layout(layout_of(d2))),
        checksum(compact_layout(layout_of(d1))) == checksum(compact_layout(layout_of(d2))),
{
}

} // verus!
