//! Block-addressed storage compaction.
//!
//! A layout is a sequence of blocks, each free or held by a numbered file.
//! It is decoded from a run-length digit string, compacted by one of two
//! policies (single blocks, or whole extents) and summarised by an
//! address-weighted checksum.
use vstd::prelude::*;

pub mod laws;

verus! {

/// The content of one block.
#[derive(Clone, Copy, Debug, PartialEq, Eq, Structural)]
pub enum Block {
    Free,
    File(u64),
}

/// Why a layout could not be handled.
#[derive(Clone, Copy, Debug, PartialEq, Eq, Structural)]
pub enum LayoutError {
    /// The digit stream is empty or holds a byte that is not an ASCII digit.
    MalformedInput,
    /// The checksum does not fit in 64 bits.
    ChecksumOverflow,
}

pub open spec fn is_digit(c: u8) -> bool {
    48 <= c <= 57
}

/// What the extent at position `i` of the digit stream holds: even positions
/// are files, numbered in order; odd positions are free runs.
pub open spec fn extent_kind(i: int) -> Block {
    if i % 2 == 0 {
        Block::File((i / 2) as u64)
    } else {
        Block::Free
    }
}

/// The blocks described by the first `n` digits (digit values, not bytes).
pub open spec fn layout_upto(d: Seq<u8>, n: int) -> Seq<Block>
    decreases n,
{
    if n <= 0 {
        Seq::empty()
    } else {
        layout_upto(d, n - 1) + Seq::new(d[n - 1] as nat, |k: int| extent_kind(n - 1))
    }
}

/// The expanded block layout of a digit stream.
pub open spec fn layout_of(d: Seq<u8>) -> Seq<Block> {
    layout_upto(d, d.len() as int)
}

pub open spec fn block_value(b: Block) -> int {
    match b {
        Block::Free => 0,
        Block::File(id) => id as int,
    }
}

/// Sum of `address * file id` over the first `n` blocks.
pub open spec fn checksum_upto(s: Seq<Block>, n: int) -> int
    decreases n,
{
    if n <= 0 {
        0
    } else {
        checksum_upto(s, n - 1) + (n - 1) * block_value(s[n - 1])
    }
}

pub open spec fn checksum(s: Seq<Block>) -> int {
    checksum_upto(s, s.len() as int)
}

/// Partial checksums never decrease.
pub proof fn lemma_checksum_monotone(s: Seq<Block>, i: int, j: int)
    requires
        0 <= i <= j,
    ensures
        0 <= checksum_upto(s, i) <= checksum_upto(s, j),
    decreases j,
{
    if j > i {
        lemma_checksum_monotone(s, i, j - 1);
        assert((j - 1) * block_value(s[j - 1]) >= 0) by (nonlinear_arith)
            requires
                j >= 1,
                block_value(s[j - 1]) >= 0,
        ;
    } else if i > 0 {
        lemma_checksum_monotone(s, i - 1, i - 1);
        assert((i - 1) * block_value(s[i - 1]) >= 0) by (nonlinear_arith)
            requires
                i >= 1,
                block_value(s[i - 1]) >= 0,
        ;
    }
}

/// The checksum of a layout, or `None` where it does not fit in 64 bits.
pub fn layout_checksum(v: &Vec<Block>) -> (r: Option<u64>)
    ensures
        r is Some <==> checksum(v@) <= u64::MAX,
        r matches Some(x) ==> x == checksum(v@),
{
    let mut acc: u64 = 0;
    let mut idx: usize = 0;
    while idx < v.len()
        invariant
            idx <= v.len(),
            acc == checksum_upto(v@, idx as int),
        decreases v.len() - idx,
    {
        if let Block::File(id) = v[idx] {
            let term = match (idx as u64).checked_mul(id) {
                Some(t) => t,
                None => {
                    proof {
                        lemma_checksum_monotone(v@, idx as int, idx as int);
                        lemma_checksum_monotone(v@, idx + 1, v@.len() as int);
                    }
                    return None;
                },
            };
            acc = match acc.checked_add(term) {
                Some(a) => a,
                None => {
                    proof {
                        lemma_checksum_monotone(v@, idx + 1, v@.len() as int);
                    }
                    return None;
                },
            };
        }
        idx += 1;
    }
    Some(acc)
}

/// Single-block compaction of `s` between the cursors `head` and `tail`
/// (exclusive): occupied blocks at the head stay, free blocks at the tail are
/// skipped, and otherwise the last occupied block fills the first free one.
pub open spec fn pack(s: Seq<Block>, head: int, tail: int) -> Seq<Block>
    decreases tail - head,
{
    if head >= tail || head < 0 || tail > s.len() {
        s
    } else if s[head] is File {
        pack(s, head + 1, tail)
    } else if s[tail - 1] is Free {
        pack(s, head, tail - 1)
    } else {
        pack(s.update(head, s[tail - 1]).update(tail - 1, Block::Free), head + 1, tail - 1)
    }
}

/// The layout after single-block compaction.
pub open spec fn compact_layout(s: Seq<Block>) -> Seq<Block> {
    pack(s, 0, s.len() as int)
}

/// No free block lies before an occupied one.
pub open spec fn left_packed(s: Seq<Block>) -> bool {
    forall|a: int, b: int| 0 <= a < b < s.len() && (#[trigger] s[a]) is Free ==> (#[trigger] s[b]) is Free
}

/// End (exclusive) of the run of equal blocks that starts at `i`.
pub open spec fn run_end(s: Seq<Block>, i: int) -> int
    decreases s.len() - i,
{
    if i < 0 || i + 1 >= s.len() || s[i + 1] != s[i] {
        i + 1
    } else {
        run_end(s, i + 1)
    }
}

/// A run ends after it starts and no later than the layout.
pub proof fn lemma_run_end_bounds(s: Seq<Block>, i: int)
    requires
        0 <= i < s.len(),
    ensures
        i < run_end(s, i) <= s.len(),
    decreases s.len() - i,
{
    if i + 1 < s.len() && s[i + 1] == s[i] {
        lemma_run_end_bounds(s, i + 1);
    }
}

#[via_fn]
proof fn free_extents_from_decreases(s: Seq<Block>, i: int) {
    if 0 <= i < s.len() {
        lemma_run_end_bounds(s, i);
    }
}

#[via_fn]
proof fn file_extents_from_decreases(s: Seq<Block>, i: int) {
    if 0 <= i < s.len() {
        lemma_run_end_bounds(s, i);
    }
}

/// The free extents `(start, length)` at or after address `i`, ascending.
pub open spec fn free_extents_from(s: Seq<Block>, i: int) -> Seq<(usize, usize)>
    decreases s.len() - i via free_extents_from_decreases
{
    if i < 0 || i >= s.len() {
        Seq::empty()
    } else if s[i] is Free {
        seq![(i as usize, (run_end(s, i) - i) as usize)] + free_extents_from(s, run_end(s, i))
    } else {
        free_extents_from(s, run_end(s, i))
    }
}

/// The file extents `(file id, length, start)` at or after address `i`, ascending.
pub open spec fn file_extents_from(s: Seq<Block>, i: int) -> Seq<(u64, usize, usize)>
    decreases s.len() - i via file_extents_from_decreases
{
    if i < 0 || i >= s.len() {
        Seq::empty()
    } else if let Block::File(id) = s[i] {
        seq![(id, (run_end(s, i) - i) as usize, i as usize)] + file_extents_from(s, run_end(s, i))
    } else {
        file_extents_from(s, run_end(s, i))
    }
}

/// The free queue of a layout: its free extents by ascending address.
pub open spec fn free_queue_of(s: Seq<Block>) -> Seq<(usize, usize)> {
    free_extents_from(s, 0)
}

/// The file queue of a layout: its file extents by descending address.
pub open spec fn file_queue_of(s: Seq<Block>) -> Seq<(u64, usize, usize)> {
    file_extents_from(s, 0).reverse()
}

/// Every extent of both queues lies inside a layout of `n` blocks.
pub open spec fn queues_within(
    free: Seq<(usize, usize)>,
    files: Seq<(u64, usize, usize)>,
    n: int,
) -> bool {
    &&& forall|j: int| 0 <= j < free.len() ==> (#[trigger] free[j]).0 + free[j].1 <= n
    &&& forall|j: int| 0 <= j < files.len() ==> (#[trigger] files[j]).2 + files[j].1 <= n
}

/// Index of the first free extent from `j` on that can take `len` blocks and
/// starts before `start`; `free.len()` where none can.
pub open spec fn first_fit(free: Seq<(usize, usize)>, len: usize, start: usize, j: int) -> int
    decreases free.len() - j,
{
    if j < 0 || j >= free.len() {
        free.len() as int
    } else if free[j].1 >= len && free[j].0 < start {
        j
    } else {
        first_fit(free, len, start, j + 1)
    }
}

/// `s` with the blocks `[start, start + len)` set to `b`.
pub open spec fn fill(s: Seq<Block>, start: int, len: int, b: Block) -> Seq<Block> {
    Seq::new(s.len(), |i: int| if start <= i < start + len { b } else { s[i] })
}

/// The layout after file extent `f` is offered the first free extent that
/// holds it and lies before it: the file moves there and its old place
/// becomes free. Unchanged where no free extent fits.
pub open spec fn step_layout(s: Seq<Block>, free: Seq<(usize, usize)>, f: (u64, usize, usize)) -> Seq<Block> {
    let j = first_fit(free, f.1, f.2, 0);
    if 0 <= j < free.len() {
        fill(fill(s, free[j].0 as int, f.1 as int, Block::File(f.0)), f.2 as int, f.1 as int, Block::Free)
    } else {
        s
    }
}

/// The free queue after that step: the free extent used gives up its first
/// `f.1` blocks, and leaves the queue where nothing is left of it.
pub open spec fn step_free(free: Seq<(usize, usize)>, f: (u64, usize, usize)) -> Seq<(usize, usize)> {
    let j = first_fit(free, f.1, f.2, 0);
    if 0 <= j < free.len() {
        let e = free[j];
        if e.1 > f.1 {
            free.update(j, ((e.0 + f.1) as usize, (e.1 - f.1) as usize))
        } else {
            free.remove(j)
        }
    } else {
        free
    }
}

/// Whole-extent relocation: each file extent, in queue order, moves into the
/// first free extent that holds it and lies before it; the rest of that free
/// extent stays in the queue, the file's old place becomes free.
pub open spec fn relocate(
    s: Seq<Block>,
    free: Seq<(usize, usize)>,
    files: Seq<(u64, usize, usize)>,
) -> Seq<Block>
    decreases files.len(),
{
    if files.len() == 0 {
        s
    } else {
        relocate(step_layout(s, free, files[0]), step_free(free, files[0]), files.drop_first())
    }
}

/// The free queue after the relocation pass: the pass offers the file
/// extents in queue order while free extents remain.
pub open spec fn pass_free(
    free: Seq<(usize, usize)>,
    files: Seq<(u64, usize, usize)>,
) -> Seq<(usize, usize)>
    decreases files.len(),
{
    if files.len() == 0 || free.len() == 0 {
        free
    } else {
        pass_free(step_free(free, files[0]), files.drop_first())
    }
}

/// The file extents that the relocation pass has not visited: those left
/// when the free queue ran empty.
pub open spec fn pass_files(
    free: Seq<(usize, usize)>,
    files: Seq<(u64, usize, usize)>,
) -> Seq<(u64, usize, usize)>
    decreases files.len(),
{
    if files.len() == 0 || free.len() == 0 {
        files
    } else {
        pass_files(step_free(free, files[0]), files.drop_first())
    }
}

/// The pass ends with one of its two queues empty.
pub proof fn lemma_pass_empties_a_queue(
    free: Seq<(usize, usize)>,
    files: Seq<(u64, usize, usize)>,
)
    ensures
        pass_files(free, files).len() == 0 || pass_free(free, files).len() == 0,
    decreases files.len(),
{
    if files.len() > 0 && free.len() > 0 {
        lemma_pass_empties_a_queue(step_free(free, files[0]), files.drop_first());
    }
}

/// With no free extent left, relocation changes nothing.
pub proof fn lemma_relocate_without_free(s: Seq<Block>, files: Seq<(u64, usize, usize)>)
    ensures
        relocate(s, Seq::<(usize, usize)>::empty(), files) == s,
    decreases files.len(),
{
    if files.len() > 0 {
        assert(step_free(Seq::empty(), files[0]) == Seq::<(usize, usize)>::empty());
        assert(step_layout(s, Seq::empty(), files[0]) == s);
        lemma_relocate_without_free(s, files.drop_first());
    }
}

/// The layout after whole-extent relocation.
pub open spec fn relocate_layout(s: Seq<Block>) -> Seq<Block> {
    relocate(s, free_queue_of(s), file_queue_of(s))
}

/// The value of an ASCII digit.
pub fn char_to_num(c: u8) -> (r: u8)
    requires
        is_digit(c),
    ensures
        r == c - 48,
        r <= 9,
{
    c - 48
}


/// The extent queues that whole-extent relocation works from.
#[derive(Debug)]
pub struct FileAndEmptySlot {
    /// Free extents as `(start, length)`, by ascending address.
    pub empty_queue: Vec<(usize, usize)>,
    /// File extents as `(file id, length, start)`, by descending address.
    pub file_queue: Vec<(u64, usize, usize)>,
}

/// One run of the engine: the digit stream, its expanded layout, the two
/// compacted layouts and their checksums.
#[derive(Debug)]
pub struct Solution {
    /// Digit values of the run-length encoding.
    pub origin: Vec<u8>,
    /// The expanded layout.
    pub converted: Vec<Block>,
    /// The layout after single-block compaction.
    pub compacted: Vec<Block>,
    /// The layout after whole-extent relocation.
    pub compacted_at_once: Vec<Block>,
    pub check_sum: u64,
    pub check_sum_at_once: u64,
    pub file_and_empty_slot: FileAndEmptySlot,
}

/// Copies a layout block by block.
fn copy_layout(v: &Vec<Block>) -> (r: Vec<Block>)
    ensures
        r@ == v@,
{
    let mut r: Vec<Block> = Vec::new();
    let mut i: usize = 0;
    while i < v.len()
        invariant
            i <= v.len(),
            r@ == v@.subrange(0, i as int),
        decreases v.len() - i,
    {
        r.push(v[i]);
        i += 1;
        assert(r@ =~= v@.subrange(0, i as int));
    }
    assert(r@ =~= v@);
    r
}

/// Sets the blocks `[start, start + len)` to `b`.
fn fill_range(out: &mut Vec<Block>, start: usize, len: usize, b: Block)
    requires
        start + len <= old(out).len(),
    ensures
        final(out)@ == fill(old(out)@, start as int, len as int, b),
{
    let ghost s0 = out@;
    let mut p: usize = start;
    while p < start + len
        invariant
            start <= p <= start + len,
            start + len <= out.len(),
            out@ == fill(s0, start as int, p - start, b),
        decreases start + len - p,
    {
        out.set(p, b);
        p += 1;
        assert(out@ =~= fill(s0, start as int, p - start, b));
    }
}

impl Solution {
    /// Reads a digit stream given as ASCII bytes.
    pub fn from_digits(text: &Vec<u8>) -> (r: Result<Solution, LayoutError>)
        ensures
            r is Err <==> (text@.len() == 0 || exists|i: int|
                0 <= i < text@.len() && !is_digit(#[trigger] text@[i])),
            r is Err ==> r == Err::<Solution, LayoutError>(LayoutError::MalformedInput),
            r matches Ok(s) ==> {
                &&& s.origin@ == text@.map_values(|c: u8| (c - 48) as u8)
                &&& s.converted@.len() == 0
                &&& s.compacted@.len() == 0
                &&& s.compacted_at_once@.len() == 0
                &&& s.check_sum == 0
                &&& s.check_sum_at_once == 0
                &&& s.file_and_empty_slot.empty_queue@.len() == 0
                &&& s.file_and_empty_slot.file_queue@.len() == 0
            },
    {
        if text.len() == 0 {
            return Err(LayoutError::MalformedInput);
        }
        let mut origin: Vec<u8> = Vec::new();
        let mut i: usize = 0;
        while i < text.len()
            invariant
                i <= text.len(),
                forall|k: int| 0 <= k < i ==> is_digit(#[trigger] text@[k]),
                origin@ == text@.subrange(0, i as int).map_values(|c: u8| (c - 48) as u8),
            decreases text.len() - i,
        {
            if !(48 <= text[i] && text[i] <= 57) {
                return Err(LayoutError::MalformedInput);
            }
            origin.push(char_to_num(text[i]));
            i += 1;
            assert(origin@ =~= text@.subrange(0, i as int).map_values(|c: u8| (c - 48) as u8));
        }
        assert(text@.subrange(0, i as int) =~= text@);
        Ok(Solution {
            origin,
            converted: Vec::new(),
            compacted: Vec::new(),
            compacted_at_once: Vec::new(),
            check_sum: 0,
            check_sum_at_once: 0,
            file_and_empty_slot: FileAndEmptySlot {
                empty_queue: Vec::new(),
                file_queue: Vec::new(),
            },
        })
    }

    /// Single-block compaction of the expanded layout: two cursors walk
    /// toward each other and each free block at the head takes the last
    /// occupied block at the tail.
    pub fn compact(&mut self)
        ensures
            final(self).compacted@ == compact_layout(old(self).converted@),
            final(self).origin == old(self).origin,
            final(self).converted == old(self).converted,
            final(self).compacted_at_once == old(self).compacted_at_once,
            final(self).check_sum == old(self).check_sum,
            final(self).check_sum_at_once == old(self).check_sum_at_once,
            final(self).file_and_empty_slot == old(self).file_and_empty_slot,
    {
        let mut out = copy_layout(&self.converted);
        let mut head: usize = 0;
        let mut tail: usize = out.len();
        while head < tail
            invariant
                head <= tail <= out.len(),
                out.len() == self.converted.len(),
                pack(out@, head as int, tail as int) == compact_layout(self.converted@),
            decreases tail - head,
        {
            if let Block::File(_) = out[head] {
                head += 1;
            } else if let Block::Free = out[tail - 1] {
                tail -= 1;
            } else {
                let moved = out[tail - 1];
                out.set(head, moved);
                out.set(tail - 1, Block::Free);
                head += 1;
                tail -= 1;
            }
        }
        self.compacted = out;
    }

    /// Checksum of the layout left by single-block compaction.
    pub fn cal_check_sum(&mut self) -> (r: Result<u64, LayoutError>)
        ensures
            r is Ok <==> checksum(old(self).compacted@) <= u64::MAX,
            r is Err ==> r == Err::<u64, LayoutError>(LayoutError::ChecksumOverflow)
                && final(self).check_sum == old(self).check_sum,
            r matches Ok(x) ==> x == checksum(old(self).compacted@) && final(self).check_sum == x,
            final(self).origin == old(self).origin,
            final(self).converted == old(self).converted,
            final(self).compacted == old(self).compacted,
            final(self).compacted_at_once == old(self).compacted_at_once,
            final(self).check_sum_at_once == old(self).check_sum_at_once,
            final(self).file_and_empty_slot == old(self).file_and_empty_slot,
    {
        match layout_checksum(&self.compacted) {
            Some(x) => {
                self.check_sum = x;
                Ok(x)
            },
            None => Err(LayoutError::ChecksumOverflow),
        }
    }

    /// Checksum of the layout left by whole-extent relocation.
    pub fn cal_check_sum_at_once(&mut self) -> (r: Result<u64, LayoutError>)
        ensures
            r is Ok <==> checksum(old(self).compacted_at_once@) <= u64::MAX,
            r is Err ==> r == Err::<u64, LayoutError>(LayoutError::ChecksumOverflow)
                && final(self).check_sum_at_once == old(self).check_sum_at_once,
            r matches Ok(x) ==> x == checksum(old(self).compacted_at_once@)
                && final(self).check_sum_at_once == x,
            final(self).origin == old(self).origin,
            final(self).converted == old(self).converted,
            final(self).compacted == old(self).compacted,
            final(self).compacted_at_once == old(self).compacted_at_once,
            final(self).check_sum == old(self).check_sum,
            final(self).file_and_empty_slot == old(self).file_and_empty_slot,
    {
        match layout_checksum(&self.compacted_at_once) {
            Some(x) => {
                self.check_sum_at_once = x;
                Ok(x)
            },
            None => Err(LayoutError::ChecksumOverflow),
        }
    }

    /// Builds the free queue and the file queue of the expanded layout.
    pub fn scanner_for_file_and_empty_slot(&mut self)
        ensures
            final(self).file_and_empty_slot.empty_queue@ == free_queue_of(old(self).converted@),
            final(self).file_and_empty_slot.file_queue@ == file_queue_of(old(self).converted@),
            queues_within(
                final(self).file_and_empty_slot.empty_queue@,
                final(self).file_and_empty_slot.file_queue@,
                old(self).converted@.len() as int,
            ),
            final(self).origin == old(self).origin,
            final(self).converted == old(self).converted,
            final(self).compacted == old(self).compacted,
            final(self).compacted_at_once == old(self).compacted_at_once,
            final(self).check_sum == old(self).check_sum,
            final(self).check_sum_at_once == old(self).check_sum_at_once,
    {
        let ghost s = self.converted@;
        let n = self.converted.len();
        let mut free: Vec<(usize, usize)> = Vec::new();
        let mut files: Vec<(u64, usize, usize)> = Vec::new();
        let mut i: usize = 0;
        while i < n
            invariant
                n == s.len(),
                s == self.converted@,
                i <= n,
                free@ + free_extents_from(s, i as int) == free_queue_of(s),
                files@ + file_extents_from(s, i as int) == file_extents_from(s, 0),
                queues_within(free@, files@, i as int),
            decreases n - i,
        {
            let b = self.converted[i];
            let mut end: usize = i + 1;
            while end < n && self.converted[end] == b
                invariant
                    i < end <= n,
                    n == s.len(),
                    s == self.converted@,
                    b == s[i as int],
                    b == s[end - 1],
                    run_end(s, i as int) == run_end(s, end - 1),
                decreases n - end,
            {
                end += 1;
            }
            assert(run_end(s, i as int) == end as int);
            match b {
                Block::Free => {
                    assert(free_extents_from(s, i as int) == seq![(i, (end - i) as usize)]
                        + free_extents_from(s, end as int));
                    assert(file_extents_from(s, i as int) == file_extents_from(s, end as int));
                    free.push((i, end - i));
                    assert(free@ + free_extents_from(s, end as int) =~= free_queue_of(s));
                },
                Block::File(id) => {
                    assert(file_extents_from(s, i as int) == seq![(id, (end - i) as usize, i)]
                        + file_extents_from(s, end as int));
                    assert(free_extents_from(s, i as int) == free_extents_from(s, end as int));
                    files.push((id, end - i, i));
                    assert(files@ + file_extents_from(s, end as int) =~= file_extents_from(s, 0));
                },
            }
            i = end;
        }
        assert(free@ =~= free_queue_of(s));
        assert(files@ =~= file_extents_from(s, 0));
        let mut desc: Vec<(u64, usize, usize)> = Vec::new();
        let mut k: usize = files.len();
        while k > 0
            invariant
                k <= files.len(),
                desc@ =~= files@.reverse().subrange(0, files.len() - k),
                forall|j: int| 0 <= j < files.len() ==> (#[trigger] files@[j]).2 + files@[j].1 <= n,
                forall|j: int| 0 <= j < desc.len() ==> (#[trigger] desc@[j]).2 + desc@[j].1 <= n,
            decreases k,
        {
            k -= 1;
            desc.push(files[k]);
            assert(desc@ =~= files@.reverse().subrange(0, files.len() - k));
        }
        assert(desc@ =~= files@.reverse());
        self.file_and_empty_slot = FileAndEmptySlot { empty_queue: free, file_queue: desc };
    }

    /// Whole-extent relocation of the expanded layout, driven by the queues
    /// that the scanner built. Each file extent is taken off the file queue
    /// in turn, while free extents remain; a free extent used up leaves the
    /// free queue, one used in part keeps its place with what is left.
    pub fn compacted_at_once(&mut self)
        requires
            queues_within(
                old(self).file_and_empty_slot.empty_queue@,
                old(self).file_and_empty_slot.file_queue@,
                old(self).converted@.len() as int,
            ),
        ensures
            final(self).compacted_at_once@ == relocate(
                old(self).converted@,
                old(self).file_and_empty_slot.empty_queue@,
                old(self).file_and_empty_slot.file_queue@,
            ),
            final(self).origin == old(self).origin,
            final(self).converted == old(self).converted,
            final(self).compacted == old(self).compacted,
            final(self).check_sum == old(self).check_sum,
            final(self).check_sum_at_once == old(self).check_sum_at_once,
            final(self).file_and_empty_slot.empty_queue@ == pass_free(
                old(self).file_and_empty_slot.empty_queue@,
                old(self).file_and_empty_slot.file_queue@,
            ),
            final(self).file_and_empty_slot.file_queue@ == pass_files(
                old(self).file_and_empty_slot.empty_queue@,
                old(self).file_and_empty_slot.file_queue@,
            ),
            final(self).file_and_empty_slot.file_queue@.len() == 0
                || final(self).file_and_empty_slot.empty_queue@.len() == 0,
    {
        proof {
            lemma_pass_empties_a_queue(self.file_and_empty_slot.empty_queue@, self.file_and_empty_slot.file_queue@);
        }
        let n = self.converted.len();
        let mut out = copy_layout(&self.converted);
        let files = &self.file_and_empty_slot.file_queue;
        let mut free: Vec<(usize, usize)> = Vec::new();
        let mut j: usize = 0;
        while j < self.file_and_empty_slot.empty_queue.len()
            invariant
                j <= self.file_and_empty_slot.empty_queue.len(),
                free@ =~= self.file_and_empty_slot.empty_queue@.subrange(0, j as int),
            decreases self.file_and_empty_slot.empty_queue.len() - j,
        {
            free.push(self.file_and_empty_slot.empty_queue[j]);
            j += 1;
            assert(free@ =~= self.file_and_empty_slot.empty_queue@.subrange(0, j as int));
        }
        assert(free@ =~= self.file_and_empty_slot.empty_queue@);
        let ghost target = relocate(self.converted@, free@, files@);
        let ghost target_free = pass_free(free@, files@);
        let ghost target_files = pass_files(free@, files@);
        assert(files@.skip(0) =~= files@);
        let mut k: usize = 0;
        while k < files.len() && free.len() > 0
            invariant
                k <= files.len(),
                out.len() == n,
                queues_within(free@, files@, n as int),
                relocate(out@, free@, files@.skip(k as int)) == target,
                pass_free(free@, files@.skip(k as int)) == target_free,
                pass_files(free@, files@.skip(k as int)) == target_files,
            decreases files.len() - k,
        {
            let f = files[k];
            assert(f.2 + f.1 <= n);
            assert(files@.skip(k as int)[0] == f);
            assert(files@.skip(k as int).drop_first() =~= files@.skip(k + 1));
            let mut idx: usize = 0;
            while idx < free.len()
                invariant
                    idx <= free.len(),
                    first_fit(free@, f.1, f.2, idx as int) == first_fit(free@, f.1, f.2, 0),
                ensures
                    idx <= free.len(),
                    first_fit(free@, f.1, f.2, idx as int) == first_fit(free@, f.1, f.2, 0),
                    idx < free.len() ==> free@[idx as int].1 >= f.1 && free@[idx as int].0 < f.2,
                decreases free.len() - idx,
            {
                if free[idx].1 >= f.1 && free[idx].0 < f.2 {
                    break;
                }
                idx += 1;
            }
            if idx < free.len() {
                let e = free[idx];
                fill_range(&mut out, e.0, f.1, Block::File(f.0));
                fill_range(&mut out, f.2, f.1, Block::Free);
                if e.1 > f.1 {
                    free.set(idx, (e.0 + f.1, e.1 - f.1));
                } else {
                    free.remove(idx);
                }
            }
            k += 1;
        }
        proof {
            if k < files.len() {
                lemma_relocate_without_free(out@, files@.skip(k as int));
                assert(free@ == Seq::<(usize, usize)>::empty());
            } else {
                assert(files@.skip(k as int) =~= Seq::<(u64, usize, usize)>::empty());
            }
        }
        let mut rest: Vec<(u64, usize, usize)> = Vec::new();
        let mut m: usize = k;
        while m < files.len()
            invariant
                k <= m <= files.len(),
                rest@ =~= files@.subrange(k as int, m as int),
            decreases files.len() - m,
        {
            rest.push(files[m]);
            m += 1;
            assert(rest@ =~= files@.subrange(k as int, m as int));
        }
        assert(rest@ =~= files@.skip(k as int));
        self.compacted_at_once = out;
        self.file_and_empty_slot = FileAndEmptySlot { empty_queue: free, file_queue: rest };
    }

    /// Expands the digit stream into its block layout.
    pub fn convert(&mut self)
        requires
            forall|i: int| 0 <= i < old(self).origin@.len() ==> #[trigger] old(self).origin@[i] <= 9,
        ensures
            final(self).converted@ == old(self).converted@ + layout_of(old(self).origin@),
            final(self).origin == old(self).origin,
            final(self).compacted == old(self).compacted,
            final(self).compacted_at_once == old(self).compacted_at_once,
            final(self).check_sum == old(self).check_sum,
            final(self).check_sum_at_once == old(self).check_sum_at_once,
            final(self).file_and_empty_slot == old(self).file_and_empty_slot,
    {
        let ghost start = self.converted@;
        let mut file_id: u64 = 0;
        let mut ptr: usize = 0;
        while ptr < self.origin.len()
            invariant
                ptr <= self.origin.len(),
                file_id as int == ptr as int / 2,
                self.converted@ == start + layout_upto(self.origin@, ptr as int),
                self.origin == old(self).origin,
                self.compacted == old(self).compacted,
                self.compacted_at_once == old(self).compacted_at_once,
                self.check_sum == old(self).check_sum,
                self.check_sum_at_once == old(self).check_sum_at_once,
                self.file_and_empty_slot == old(self).file_and_empty_slot,
            decreases self.origin.len() - ptr,
        {
            let repeats: u8 = self.origin[ptr];
            let b = if ptr % 2 == 0 {
                Block::File(file_id)
            } else {
                Block::Free
            };
            assert(b == extent_kind(ptr as int));
            let ghost before = self.converted@;
            let mut k: u8 = 0;
            while k < repeats
                invariant
                    k <= repeats,
                    b == extent_kind(ptr as int),
                    self.converted@ == before + Seq::new(k as nat, |j: int| extent_kind(ptr as int)),
                    self.origin == old(self).origin,
                    self.compacted == old(self).compacted,
                    self.compacted_at_once == old(self).compacted_at_once,
                    self.check_sum == old(self).check_sum,
                    self.check_sum_at_once == old(self).check_sum_at_once,
                    self.file_and_empty_slot == old(self).file_and_empty_slot,
                decreases repeats - k,
            {
                self.converted.push(b);
                k += 1;
                assert(self.converted@ =~= before + Seq::new(k as nat, |j: int| extent_kind(ptr as int)));
            }
            assert(layout_upto(self.origin@, ptr + 1) == layout_upto(self.origin@, ptr as int)
                + Seq::new(self.origin@[ptr as int] as nat, |j: int| extent_kind(ptr as int)));
            assert(self.converted@ =~= start + layout_upto(self.origin@, ptr + 1));
            if ptr % 2 == 1 {
                file_id += 1;
            }
            ptr += 1;
        }
    }
}

} // verus!

verus! {

/// Digit values of an ASCII digit stream.
pub open spec fn digit_values(text: Seq<u8>) -> Seq<u8> {
    text.map_values(|c: u8| (c - 48) as u8)
}

/// Runs the whole engine on an ASCII digit stream and returns the checksums
/// of the layouts left by single-block compaction and by whole-extent
/// relocation.
pub fn compaction_checksums(text: &Vec<u8>) -> (r: Result<(u64, u64), LayoutError>)
    ensures
        (text@.len() == 0 || exists|i: int| 0 <= i < text@.len() && !is_digit(#[trigger] text@[i]))
            ==> r == Err::<(u64, u64), LayoutError>(LayoutError::MalformedInput),
        (text@.len() > 0 && forall|i: int| 0 <= i < text@.len() ==> is_digit(#[trigger] text@[i]))
            ==> {
            let s = layout_of(digit_values(text@));
            let a = checksum(compact_layout(s));
            let b = checksum(relocate_layout(s));
            &&& r is Ok <==> (a <= u64::MAX && b <= u64::MAX)
            &&& r is Err ==> r == Err::<(u64, u64), LayoutError>(LayoutError::ChecksumOverflow)
            &&& r matches Ok((x, y)) ==> x == a && y == b
        },
{
    let mut solution = match Solution::from_digits(text) {
        Ok(s) => s,
        Err(e) => return Err(e),
    };
    assert forall|i: int| 0 <= i < solution.origin@.len() implies #[trigger] solution.origin@[i] <= 9 by {
        assert(is_digit(text@[i]));
    }
    solution.convert();
    assert(solution.converted@ =~= layout_of(digit_values(text@)));
    solution.compact();
    solution.scanner_for_file_and_empty_slot();
    solution.compacted_at_once();
    let a = match solution.cal_check_sum() {
        Ok(a) => a,
        Err(e) => return Err(e),
    };
    let b = match solution.cal_check_sum_at_once() {
        Ok(b) => b,
        Err(e) => return Err(e),
    };
    Ok((a, b))
}

} // verus!
