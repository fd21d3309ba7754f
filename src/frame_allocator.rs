use crate::data_structures::{
    has_head, has_taken, lemma_head_bit, FrameFlags, FrameInfo, LinkedList, LinkedListNode,
};
use crate::memory::phys2virt;
use crate::{exp2, ilog2, is_pow2};
use vstd::prelude::*;
use x86_64::structures::paging::page::{PageSize, Size4KiB};

verus! {

/// Orders run from `0` (one frame) to `MAX_LEVEL - 1`.
pub const MAX_LEVEL: usize = 11;

/// The number of regions a frame allocator holds.
pub const MAX_REGION_NUM: usize = 2;

/// The bytes one frame record occupies in the table kept at the front of a region.
pub const FRAME_RECORD_BYTES: usize = 32;

/// The size of a frame in bytes.
pub open spec fn page_bytes() -> nat {
    4096
}

/// Relies on x86_64's `Size4KiB::SIZE`: a small page holds 4096 bytes.
#[verifier::external_body]
pub(crate) fn small_page_size() -> (r: usize)
    ensures
        r == page_bytes(),
{
    Size4KiB::SIZE as usize
}

/// `2^10 == 1024`.
pub proof fn lemma_exp2_10()
    ensures
        exp2(10) == 1024,
{
    reveal_with_fuel(exp2, 11);
}

/// `2^level` for an order below `MAX_LEVEL`.
pub fn level_size(level: usize) -> (r: usize)
    requires
        level < MAX_LEVEL,
    ensures
        r == exp2(level as nat),
        r <= 1024,
{
    let mut r: usize = 1;
    let mut i: usize = 0;
    while i < level
        invariant
            i <= level < MAX_LEVEL,
            r == exp2(i as nat),
        decreases level - i,
    {
        proof {
            crate::lemma_exp2_monotone(i as nat, 10);
            lemma_exp2_10();
        }
        r = r * 2;
        i = i + 1;
    }
    proof {
        crate::lemma_exp2_monotone(level as nat, 10);
        lemma_exp2_10();
    }
    r
}

/// Rounds `size` up to a multiple of `page_size`.
pub fn align_to(size: usize, page_size: usize) -> (r: usize)
    requires
        page_size > 0,
        size + page_size <= usize::MAX,
    ensures
        r % page_size == 0,
        size <= r < size + page_size,
{
    if size % page_size == 0 {
        size
    } else {
        let unit_num = size / page_size;
        proof {
            assert(page_size * (unit_num + 1) == page_size * unit_num + page_size) by (nonlinear_arith);
            assert(size == page_size * unit_num + size % page_size) by (nonlinear_arith)
                requires page_size > 0, unit_num == size / page_size;
            assert((page_size as int * (unit_num + 1)) % (page_size as int) == 0) by (nonlinear_arith)
                requires page_size > 0;
        }
        page_size * (unit_num + 1)
    }
}

/// The number of frames of `page_size` bytes that `size` bytes take.
pub fn required_frame_num(size: usize, page_size: usize) -> (r: usize)
    requires
        page_size > 0,
        size + page_size <= usize::MAX,
    ensures
        r * page_size >= size,
        r * page_size < size + page_size,
{
    let a = align_to(size, page_size);
    proof {
        assert((a / page_size) * page_size == a) by (nonlinear_arith)
            requires a % page_size == 0, page_size > 0;
    }
    a / page_size
}

/// A frame heads a block that may be merged with its buddy at `level`:
/// same order, no references, not reserved, not allocated.
pub open spec fn is_free_buddy(f: FrameInfo, level: u32) -> bool {
    f.level == level && f.count == 0 && !has_taken(f.flgs.bits) && !has_head(f.flgs.bits)
}

/// Whether `frame_info` may be merged into a block at `level`.
pub fn is_free_buddy_frame(frame_info: &FrameInfo, level: u32) -> (r: bool)
    ensures
        r == is_free_buddy(*frame_info, level),
{
    let flgs = frame_info.get_flgs();
    frame_info.get_level() == level && frame_info.get_count() == 0 && (flgs.bits()
        & FrameFlags::taken().bits()) == 0 && (flgs.bits() & FrameFlags::head().bits()) == 0
}

/// The frames held in the free lists of orders below `n`.
pub open spec fn free_total(lists: Seq<Seq<usize>>, n: nat) -> nat
    decreases n,
{
    if n == 0 {
        0
    } else {
        free_total(lists, (n - 1) as nat) + lists[n - 1].len() * exp2((n - 1) as nat)
    }
}

/// The frames of the allocated block that `f` heads, if it heads one.
pub open spec fn head_weight(f: FrameInfo) -> nat {
    if has_head(f.flgs.bits) {
        exp2(f.level as nat)
    } else {
        0
    }
}

/// The frames held in allocated blocks headed among the first `n` records.
pub open spec fn alloc_total(frames: Seq<FrameInfo>, n: nat) -> nat
    decreases n,
{
    if n == 0 {
        0
    } else {
        alloc_total(frames, (n - 1) as nat) + head_weight(frames[n - 1])
    }
}

proof fn lemma_free_total_update(a: Seq<Seq<usize>>, b: Seq<Seq<usize>>, l: int, n: nat)
    requires
        forall|t: int| 0 <= t < n && t != l ==> #[trigger] a[t].len() == b[t].len(),
    ensures
        0 <= l < n ==> free_total(b, n) == free_total(a, n) - a[l].len() * exp2(l as nat) + b[l].len()
            * exp2(l as nat),
        !(0 <= l < n) ==> free_total(b, n) == free_total(a, n),
    decreases n,
{
    if n > 0 {
        lemma_free_total_update(a, b, l, (n - 1) as nat);
    }
}

proof fn lemma_free_total_ge(a: Seq<Seq<usize>>, l: int, n: nat)
    requires
        0 <= l < n,
    ensures
        free_total(a, n) >= a[l].len() * exp2(l as nat),
    decreases n,
{
    if n - 1 > l {
        lemma_free_total_ge(a, l, (n - 1) as nat);
    }
}

proof fn lemma_alloc_total_update(a: Seq<FrameInfo>, b: Seq<FrameInfo>, i: int, n: nat)
    requires
        forall|t: int| 0 <= t < n && t != i ==> head_weight(#[trigger] a[t]) == head_weight(b[t]),
    ensures
        0 <= i < n ==> alloc_total(b, n) == alloc_total(a, n) - head_weight(a[i]) + head_weight(
            b[i],
        ),
        !(0 <= i < n) ==> alloc_total(b, n) == alloc_total(a, n),
    decreases n,
{
    if n > 0 {
        lemma_alloc_total_update(a, b, i, (n - 1) as nat);
    }
}

proof fn lemma_alloc_total_ge(a: Seq<FrameInfo>, i: int, n: nat)
    requires
        0 <= i < n,
    ensures
        alloc_total(a, n) >= head_weight(a[i]),
    decreases n,
{
    if n - 1 > i {
        lemma_alloc_total_ge(a, i, (n - 1) as nat);
    }
}

/// `2^l` as an integer.
pub open spec fn pw(l: nat) -> int {
    exp2(l) as int
}

/// An aligned block and its buddy: the lower of the two heads an aligned
/// block of the next order that is their union.
proof fn lemma_buddy(m: int, l: nat)
    requires
        m >= 0,
        m % pw(l) == 0,
    ensures
        (m / pw(l)) % 2 == 0 ==> m % pw(l + 1) == 0,
        (m / pw(l)) % 2 != 0 ==> m >= pw(l) && (m - pw(l)) % pw(l + 1) == 0 && (m
            - pw(l)) % pw(l) == 0,
        (m + pw(l)) % pw(l) == 0,
        pw(l + 1) == 2 * pw(l),
{
    let p = pw(l);
    crate::lemma_exp2_monotone(0, l);
    assert(pw(l + 1) == 2 * p);
    let q = m / p;
    assert(m == q * p) by (nonlinear_arith)
        requires m % p == 0, p > 0, q == m / p;
    assert(q >= 0) by (nonlinear_arith) requires m >= 0, p > 0, q == m / p;
    if q % 2 == 0 {
        assert(m == (q / 2) * (2 * p)) by (nonlinear_arith) requires m == q * p, q % 2 == 0;
        assert(m % (2 * p) == 0) by (nonlinear_arith) requires m == (q / 2) * (2 * p), p > 0, q >= 0;
    } else {
        assert(m - p == (q - 1) * p) by (nonlinear_arith) requires m == q * p;
        let h = (q - 1) / 2;
        assert(q - 1 == 2 * h);
        assert((q - 1) * p == h * (2 * p)) by (nonlinear_arith) requires q - 1 == 2 * h;
        assert((m - p) % (2 * p) == 0) by (nonlinear_arith)
            requires m - p == ((q - 1) / 2) * (2 * p), p > 0, q >= 1;
        assert(m - p == (q - 1) * p) by (nonlinear_arith) requires m == q * p;
        vstd::arithmetic::div_mod::lemma_mod_multiples_basic(q - 1, p);
        assert(m >= p) by (nonlinear_arith) requires m == q * p, q >= 1, p > 0;
    }
    assert((m + p) % p == 0) by (nonlinear_arith) requires m == q * p, p > 0, q >= 0;
}

/// A multiple of `2^c` is a multiple of every smaller power of two.
proof fn lemma_aligned_lower(a: int, l: nat, c: nat)
    requires
        a >= 0,
        l <= c,
        a % pw(c) == 0,
    ensures
        a % pw(l) == 0,
{
    crate::lemma_exp2_adds(l, (c - l) as nat);
    crate::lemma_exp2_monotone(0, l);
    crate::lemma_exp2_monotone(0, (c - l) as nat);
    let p = pw(l);
    let r = pw((c - l) as nat);
    assert(pw(c) == p * r);
    assert(a == (a / pw(c)) * (p * r)) by (nonlinear_arith)
        requires a % pw(c) == 0, pw(c) == p * r, p > 0, r > 0;
    assert(a == ((a / pw(c)) * r) * p) by (nonlinear_arith)
        requires a == (a / pw(c)) * (p * r);
    assert(a % p == 0) by (nonlinear_arith)
        requires a == ((a / pw(c)) * r) * p, p > 0, a >= 0;
}

/// The lowest order at or above `l` whose free list is not empty, or
/// `MAX_LEVEL` when there is none.
pub open spec fn lowest_nonempty(lists: Seq<Seq<usize>>, l: int) -> int
    decreases MAX_LEVEL - l,
{
    if l >= MAX_LEVEL {
        MAX_LEVEL as int
    } else if l >= 0 && lists[l].len() > 0 {
        l
    } else if l < 0 {
        MAX_LEVEL as int
    } else {
        lowest_nonempty(lists, l + 1)
    }
}

/// The free lists after a block of order `l` was carved out of the head block
/// of order `j >= l`: that block leaves its list, each order `t` from `l` to
/// `j - 1` gains the lower half split off at that order, and the block handed
/// out is the uppermost `2^l` frames.
pub open spec fn carve(lists: Seq<Seq<usize>>, l: int, j: int) -> Seq<Seq<usize>> {
    let e = lists[j].last();
    Seq::new(
        lists.len(),
        |t: int|
            if t == j {
                lists[t].drop_last()
            } else if l <= t < j {
                lists[t].push((e + exp2(j as nat) - exp2((t + 1) as nat)) as usize)
            } else {
                lists[t]
            },
    )
}

/// The first frame of the block handed out by `carve(lists, l, j)`.
pub open spec fn carved_head(lists: Seq<Seq<usize>>, l: int, j: int) -> int {
    lists[j].last() + exp2(j as nat) - exp2(l as nat)
}

/// The free lists after splitting down to order `l` from the head block of
/// order `j > l`: as `carve`, with the uppermost block left at the head of
/// the list of order `l`.
pub open spec fn split_lists(lists: Seq<Seq<usize>>, l: int, j: int) -> Seq<Seq<usize>> {
    carve(lists, l, j).update(l, carve(lists, l, j)[l].push(carved_head(lists, l, j) as usize))
}

/// The free lists after laying out the frames from `pos` to `n` as blocks,
/// each of the largest order that fits what is left, at most `cap`, and no
/// larger than the block before it.
pub open spec fn place_from(lists: Seq<Seq<usize>>, n: int, pos: int, cap: int) -> Seq<Seq<usize>>
    decreases n - pos,
{
    if pos >= n {
        lists
    } else {
        let lg = ilog2((n - pos) as nat) as int;
        let l = if lg < cap { lg } else { cap };
        if l < 0 || exp2(l as nat) == 0 || pos + exp2(l as nat) > n {
            lists
        } else {
            place_from(lists.update(l, lists[l].push(pos as usize)), n, pos + exp2(l as nat), l)
        }
    }
}

/// One empty free list per order.
pub open spec fn empty_lists() -> Seq<Seq<usize>> {
    Seq::new(MAX_LEVEL as nat, |t: int| Seq::<usize>::empty())
}

/// The free lists of a fresh region of `n` usable frames.
pub open spec fn initial_lists(n: int) -> Seq<Seq<usize>> {
    place_from(empty_lists(), n, 0, MAX_LEVEL - 1)
}

/// The first frame of the buddy of the aligned block of order `l` that starts at `m`.
pub open spec fn buddy_of(m: int, l: nat) -> int {
    if (m / pw(l)) % 2 == 0 {
        m + pw(l)
    } else {
        m - pw(l)
    }
}

/// A position at which `v` occurs in `s`.
pub open spec fn pos_of(s: Seq<usize>, v: usize) -> int {
    choose|k: int| 0 <= k < s.len() && s[k] == v
}

/// The head block of the free list of order `l` can be joined with its buddy:
/// below the largest order, the buddy lies in the region, its record shows a
/// free block of the same order, and it is on that free list.
pub open spec fn merges_at(lists: Seq<Seq<usize>>, frames: Seq<FrameInfo>, size: nat, l: int) -> bool {
    let m = lists[l].last() as int;
    let b = buddy_of(m, l as nat);
    &&& 0 <= l && l + 1 < MAX_LEVEL
    &&& lists[l].len() > 0
    &&& 0 <= b < size
    &&& is_free_buddy(frames[b], l as u32)
    &&& lists[l].contains(b as usize)
}

/// The lower of the head block of the free list of order `l` and its buddy.
pub open spec fn merge_low(lists: Seq<Seq<usize>>, l: int) -> int {
    let m = lists[l].last() as int;
    let b = buddy_of(m, l as nat);
    if m < b {
        m
    } else {
        b
    }
}

/// The higher of the head block of the free list of order `l` and its buddy.
pub open spec fn merge_high(lists: Seq<Seq<usize>>, l: int) -> int {
    let m = lists[l].last() as int;
    let b = buddy_of(m, l as nat);
    if m < b {
        b
    } else {
        m
    }
}

/// The free lists after joining the head block of order `l` with its buddy.
pub open spec fn merged_lists(lists: Seq<Seq<usize>>, l: int) -> Seq<Seq<usize>> {
    let b = buddy_of(lists[l].last() as int, l as nat);
    lists.update(l, lists[l].remove(pos_of(lists[l], b as usize)).drop_last()).update(
        l + 1,
        lists[l + 1].push(merge_low(lists, l) as usize),
    )
}

/// The frame records after joining the head block of order `l` with its
/// buddy: the lower one heads the joined block, the higher one heads nothing.
pub open spec fn merged_frames(frames: Seq<FrameInfo>, lists: Seq<Seq<usize>>, l: int) -> Seq<FrameInfo> {
    let lo = merge_low(lists, l);
    let hi = merge_high(lists, l);
    frames.update(lo, FrameInfo { level: (l + 1) as u32, ..frames[lo] }).update(
        hi,
        FrameInfo { level: 0, ..frames[hi] },
    )
}

/// The free lists after joining the head block of order `l` with its buddy,
/// then the result with its buddy, and so on while that is possible.
pub open spec fn coalesce(lists: Seq<Seq<usize>>, frames: Seq<FrameInfo>, size: nat, l: int) -> Seq<Seq<usize>>
    decreases MAX_LEVEL - l,
{
    if 0 <= l && l + 1 < MAX_LEVEL && merges_at(lists, frames, size, l) {
        coalesce(merged_lists(lists, l), merged_frames(frames, lists, l), size, l + 1)
    } else {
        lists
    }
}

/// The record of a frame whose allocation mark was cleared.
pub open spec fn cleared(f: FrameInfo) -> FrameInfo {
    FrameInfo { flgs: FrameFlags { bits: f.flgs.bits & !crate::data_structures::HEAD_BIT }, ..f }
}

/// No free block below the largest order has its buddy on the same free
/// list: every pair of free buddies has been joined.
pub open spec fn fully_merged(lists: Seq<Seq<usize>>) -> bool {
    forall|l: int, k: int|
        0 <= l < MAX_LEVEL - 1 && 0 <= k < lists[l].len() ==> !lists[l].contains(
            #[trigger] buddy_of(lists[l][k] as int, l as nat) as usize,
        )
}

/// Every free block below the largest order has no buddy on its list, except
/// that blocks of order `l` may have the head of that list as their buddy.
pub open spec fn merged_except_head(lists: Seq<Seq<usize>>, l: int) -> bool {
    forall|t: int, k: int|
        0 <= t < MAX_LEVEL - 1 && 0 <= k < lists[t].len() && !(t == l && k == lists[t].len() - 1)
            ==> !lists[t].contains(#[trigger] buddy_of(lists[t][k] as int, t as nat) as usize) || (t == l
            && buddy_of(lists[t][k] as int, t as nat) as usize == lists[t].last())
}

/// The buddy of the buddy of an aligned block is the block itself.
proof fn lemma_buddy_involution(x: int, t: nat)
    requires
        x >= 0,
        x % pw(t) == 0,
    ensures
        buddy_of(x, t) >= 0,
        buddy_of(buddy_of(x, t), t) == x,
        buddy_of(x, t) != x,
        buddy_of(x, t) % pw(t) == 0,
{
    lemma_buddy(x, t);
    crate::lemma_exp2_monotone(0, t);
    let p = pw(t);
    let q = x / p;
    assert(x == p * q) by (nonlinear_arith) requires x % p == 0, p > 0, q == x / p;
    assert(q >= 0) by (nonlinear_arith) requires x >= 0, p > 0, q == x / p;
    if q % 2 == 0 {
        assert(x + p == p * (q + 1)) by (nonlinear_arith) requires x == p * q;
        vstd::arithmetic::div_mod::lemma_div_multiples_vanish(q + 1, p);
    } else {
        assert(x - p == p * (q - 1)) by (nonlinear_arith) requires x == p * q;
        vstd::arithmetic::div_mod::lemma_div_multiples_vanish(q - 1, p);
    }
}

/// Within an aligned block of order `j` at `e`, the upper block of order `t`
/// whose lower neighbour of the same order it is joined with.
proof fn lemma_upper_buddy(e: int, t: nat, j: nat)
    requires
        0 <= e,
        t < j,
        e % pw(j) == 0,
    ensures
        buddy_of(e + pw(j) - pw(t), t) == e + pw(j) - pw(t + 1),
        (e + pw(j) - pw(t)) % pw(t) == 0,
        (e + pw(j) - pw(t + 1)) % pw(t) == 0,
        pw(t + 1) == 2 * pw(t),
        pw(t + 1) <= pw(j),
        pw(t) >= 1,
{
    crate::lemma_exp2_monotone(t + 1, j);
    crate::lemma_exp2_monotone(0, t);
    crate::lemma_exp2_adds(t, (j - t) as nat);
    let p = pw(t);
    let r = pw((j - t) as nat);
    crate::lemma_exp2_monotone(1, (j - t) as nat);
    assert(exp2(1) == 2);
    let r2 = pw((j - t - 1) as nat);
    assert(r == 2 * r2);
    assert(pw(j) == p * r);
    let q = e / pw(j);
    assert(e == q * pw(j)) by (nonlinear_arith)
        requires e % pw(j) == 0, pw(j) > 0, q == e / pw(j);
    assert(q >= 0) by (nonlinear_arith) requires e >= 0, pw(j) > 0, q == e / pw(j);
    let m = e + pw(j) - p;
    let x = (q + 1) * r2;
    assert(x >= 1) by (nonlinear_arith) requires x == (q + 1) * r2, q >= 0, r2 >= 1;
    let a = 2 * x - 1;
    assert(pw(j) == p * (2 * r2));
    assert(e == (q * 2 * r2) * p) by (nonlinear_arith)
        requires e == q * pw(j), pw(j) == p * (2 * r2);
    assert(2 * x * p == (q * 2 * r2) * p + (2 * r2) * p) by (nonlinear_arith)
        requires x == (q + 1) * r2;
    assert(m == a * p) by (nonlinear_arith)
        requires m == e + pw(j) - p, e == (q * 2 * r2) * p, pw(j) == p * (2 * r2), 2 * x * p == (q * 2 * r2) * p + (2 * r2) * p, a == 2 * x - 1;
    vstd::arithmetic::div_mod::lemma_div_multiples_vanish(a, p);
    assert(m / p == a);
    assert(a % 2 == 1);
    vstd::arithmetic::div_mod::lemma_mod_multiples_basic(a, p);
    assert(m - p == (a - 1) * p) by (nonlinear_arith) requires m == a * p;
    vstd::arithmetic::div_mod::lemma_mod_multiples_basic(a - 1, p);
}

/// A contiguous run of physical frames managed as a buddy system.
///
/// Frame `i` of the region (counted from its first usable frame) is described
/// by `memory_map[i]`; `free_lists[l]` holds the first frame of each free block
/// of `2^l` frames.
pub struct Region {
    free_lists: Vec<LinkedList>,
    size: usize,
    free_frame_num: usize,
    base_frame_idx: usize,
    start_frame_idx: usize,
    phys_offset: usize,
    memory_map: Vec<FrameInfo>,
    /// For each frame, the first frame of the block that holds it.
    owner: Ghost<Seq<int>>,
}

impl Region {
    /// The free lists, one per order, each from its oldest entry to its head.
    pub closed spec fn lists(&self) -> Seq<Seq<usize>> {
        self.free_lists@.map_values(|l: LinkedList| l@)
    }

    /// The frame records.
    pub closed spec fn frames(&self) -> Seq<FrameInfo> {
        self.memory_map@
    }

    /// The number of usable frames.
    pub closed spec fn usable(&self) -> nat {
        self.size as nat
    }

    /// The number of free frames.
    pub closed spec fn free_count(&self) -> nat {
        self.free_frame_num as nat
    }

    /// The global index of the first usable frame.
    pub closed spec fn start(&self) -> nat {
        self.start_frame_idx as nat
    }

    /// The global index of the region's first frame.
    pub closed spec fn base(&self) -> nat {
        self.base_frame_idx as nat
    }

    /// The offset at which all physical memory is mapped.
    pub closed spec fn offset(&self) -> nat {
        self.phys_offset as nat
    }

    /// The first frame of the block that holds frame `j`.
    pub closed spec fn owner_of(&self, j: int) -> int {
        self.owner@[j]
    }

    /// The order recorded for frame `h`: the order of the block it heads.
    pub open spec fn lvl(&self, h: int) -> nat {
        self.frames()[h].level as nat
    }

    /// Frame `h` heads an allocated block.
    pub open spec fn is_allocated(&self, h: int) -> bool {
        has_head(self.frames()[h].flgs.bits)
    }

    closed spec fn wf_shape(&self) -> bool {
        &&& self.free_lists@.len() == MAX_LEVEL
        &&& forall|l: int| 0 <= l < MAX_LEVEL ==> (#[trigger] self.free_lists@[l]).wf()
        &&& self.memory_map@.len() == self.size
        &&& self.owner@.len() == self.size
        &&& (self.start_frame_idx + self.size) * page_bytes() + self.phys_offset <= usize::MAX
        &&& (self.size > 0 ==> self.start_frame_idx >= 1)
        &&& forall|i: int|
            0 <= i < self.size ==> {
                &&& (#[trigger] self.memory_map@[i]).index == self.start_frame_idx + i
                &&& self.memory_map@[i].level < MAX_LEVEL
                &&& self.memory_map@[i].count == 0
                &&& !has_taken(self.memory_map@[i].flgs.bits)
                &&& self.memory_map@[i].direct_access == (self.start_frame_idx + i) * page_bytes()
                    + self.phys_offset
            }
    }

    /// Every frame lies in exactly one aligned block, named by its first frame.
    closed spec fn wf_tiling(&self) -> bool {
        &&& forall|j: int|
            0 <= j < self.size ==> {
                let h = #[trigger] self.owner@[j];
                &&& 0 <= h <= j
                &&& j < h + exp2(self.lvl(h))
                &&& h + exp2(self.lvl(h)) <= self.size
                &&& self.owner@[h] == h
                &&& h % pw(self.lvl(h)) == 0
            }
        &&& forall|h: int, j: int|
            #![trigger self.owner@[h], self.owner@[j]]
            0 <= h < self.size && self.owner@[h] == h && h <= j < h + exp2(self.lvl(h))
                ==> self.owner@[j] == h
    }

    /// Each block is either on the free list of its order or marked allocated.
    closed spec fn wf_free(&self) -> bool {
        &&& forall|l: int, k: int|
            #![trigger self.lists()[l][k]]
            0 <= l < MAX_LEVEL && 0 <= k < self.lists()[l].len() ==> {
                let e = self.lists()[l][k] as int;
                &&& e < self.size
                &&& self.owner@[e] == e
                &&& self.lvl(e) == l
                &&& !self.is_allocated(e)
            }
        &&& forall|l: int| 0 <= l < MAX_LEVEL ==> (#[trigger] self.lists()[l]).no_duplicates()
        &&& forall|h: int|
            0 <= h < self.size && #[trigger] self.owner@[h] == h ==> self.is_allocated(h)
                || self.lists()[self.lvl(h) as int].contains(h as usize)
        &&& forall|j: int|
            0 <= j < self.size && #[trigger] self.is_allocated(j) ==> self.owner@[j] == j
    }

    closed spec fn wf_count(&self) -> bool {
        &&& self.free_frame_num == free_total(self.lists(), MAX_LEVEL as nat)
        &&& free_total(self.lists(), MAX_LEVEL as nat) + alloc_total(self.memory_map@, self.size as nat)
            == self.size
    }

    /// The region's invariant.
    pub closed spec fn wf(&self) -> bool {
        &&& self.wf_shape()
        &&& self.wf_tiling()
        &&& self.wf_free()
        &&& self.wf_count()
    }

    /// Takes the head of the free list of order `l` and marks it allocated.
    fn take_free(&mut self, l: usize) -> (e: usize)
        requires
            old(self).wf(),
            l < MAX_LEVEL,
            old(self).lists()[l as int].len() > 0,
        ensures
            final(self).wf(),
            e == old(self).lists()[l as int].last(),
            final(self).lists() == old(self).lists().update(l as int, old(self).lists()[l as int].drop_last()),
            final(self).free_count() == old(self).free_count() - exp2(l as nat),
            final(self).frames() == old(self).frames().update(e as int, FrameInfo {
                flgs: FrameFlags { bits: old(self).frames()[e as int].flgs.bits | crate::data_structures::HEAD_BIT },
                ..old(self).frames()[e as int]
            }),
            final(self).usable() == old(self).usable(),
            final(self).start() == old(self).start(),
            final(self).offset() == old(self).offset(),
            final(self).base() == old(self).base(),
    {
        let ghost old_lists = self.lists();
        let ghost old_frames = self.memory_map@;
        let ghost kl = old_lists[l as int].len() - 1;
        assert(old_lists[l as int][kl] == old_lists[l as int].last());
        let e = match self.free_lists[l].pop() {
            Some(e) => e,
            None => { assert(false); 0 },
        };
        let mut f = self.memory_map[e];
        f.add_flgs(FrameFlags::head());
        self.memory_map.set(e, f);
        proof {
            lemma_free_total_ge(old_lists, l as int, MAX_LEVEL as nat);
            crate::lemma_exp2_monotone(0, l as nat);
            assert(old_lists[l as int].len() * exp2(l as nat) >= exp2(l as nat)) by (nonlinear_arith)
                requires old_lists[l as int].len() >= 1;
        }
        self.free_frame_num = self.free_frame_num - level_size(l);
        proof {
            let lists = self.lists();
            assert(lists =~= old_lists.update(l as int, old_lists[l as int].drop_last()));
            lemma_head_bit(old_frames[e as int].flgs.bits);
            assert forall|l2: int, k: int|
                #![trigger lists[l2][k]]
                0 <= l2 < MAX_LEVEL && 0 <= k < lists[l2].len() implies lists[l2][k] != e by {
                if l2 == l {
                    assert(old_lists[l2][k] != old_lists[l2][kl]);
                } else {
                    assert(old_lists[l2][k] == lists[l2][k]);
                }
            }
            assert forall|h: int|
                0 <= h < self.size && #[trigger] self.owner@[h] == h implies self.is_allocated(h)
                    || self.lists()[self.lvl(h) as int].contains(h as usize) by {
                if h != e && !self.is_allocated(h) {
                    let t = self.lvl(h) as int;
                    assert(old_lists[t].contains(h as usize));
                    let k = choose|k: int| 0 <= k < old_lists[t].len() && old_lists[t][k] == h as usize;
                    if t == l {
                        assert(k != kl);
                        assert(lists[t][k] == h as usize);
                    } else {
                        assert(lists[t][k] == h as usize);
                    }
                }
            }
            lemma_free_total_update(old_lists, lists, l as int, MAX_LEVEL as nat);
            lemma_alloc_total_update(old_frames, self.memory_map@, e as int, self.size as nat);
            assert(free_total(lists, MAX_LEVEL as nat) == free_total(old_lists, MAX_LEVEL as nat) - exp2(l as nat)) by (nonlinear_arith)
                requires
                    free_total(lists, MAX_LEVEL as nat) == free_total(old_lists, MAX_LEVEL as nat) - old_lists[l as int].len() * exp2(l as nat) + lists[l as int].len() * exp2(l as nat),
                    lists[l as int].len() == old_lists[l as int].len() - 1;
            assert forall|l2: int, k: int|
                #![trigger lists[l2][k]]
                0 <= l2 < MAX_LEVEL && 0 <= k < lists[l2].len() implies {
                    let x = lists[l2][k] as int;
                    &&& x < self.size
                    &&& self.owner@[x] == x
                    &&& self.lvl(x) == l2
                    &&& !self.is_allocated(x)
                } by {
                if l2 == l {
                    assert(old_lists[l2][k] == lists[l2][k]);
                } else {
                    assert(old_lists[l2][k] == lists[l2][k]);
                }
                assert(lists[l2][k] != e);
            }
            assert forall|l2: int| 0 <= l2 < MAX_LEVEL implies (#[trigger] lists[l2]).no_duplicates() by {
                assert(old_lists[l2].no_duplicates());
                if l2 == l {
                    assert forall|i: int, j: int| 0 <= i < lists[l2].len() && 0 <= j < lists[l2].len() && i != j implies lists[l2][i] != lists[l2][j] by {
                        assert(old_lists[l2][i] != old_lists[l2][j]);
                    }
                }
            }
            assert forall|j: int|
                0 <= j < self.size && #[trigger] self.is_allocated(j) implies self.owner@[j] == j by {
                if j != e {
                    assert(old_frames[j] == self.memory_map@[j]);
                    assert(old(self).is_allocated(j));
                } else {
                    assert(old(self).lists()[l as int][kl] == e);
                }
            }
            assert(self.wf_free());
        }
        e
    }

    /// Splits the head block of the free list of order `l + 1` into its two
    /// halves, which go onto the free list of order `l`, lower half first.
    fn split_top(&mut self, l: usize)
        requires
            old(self).wf(),
            l + 1 < MAX_LEVEL,
            old(self).lists()[l + 1].len() > 0,
        ensures
            final(self).wf(),
            ({
                let x = old(self).lists()[l + 1].last();
                final(self).lists() == old(self).lists().update(
                    l + 1,
                    old(self).lists()[l + 1].drop_last(),
                ).update(l as int, old(self).lists()[l as int].push(x).push((x + exp2(l as nat)) as usize))
            }),
            final(self).free_count() == old(self).free_count(),
            final(self).usable() == old(self).usable(),
            final(self).start() == old(self).start(),
            final(self).offset() == old(self).offset(),
            final(self).base() == old(self).base(),
            forall|i: int| 0 <= i < old(self).usable() ==> (#[trigger] final(self).frames()[i]).flgs == old(self).frames()[i].flgs,
            forall|i: int| 0 <= i < old(self).usable() && old(self).is_allocated(i) ==> #[trigger] final(self).frames()[i] == old(self).frames()[i],
    {
        let ghost old_lists = self.lists();
        let ghost old_frames = self.memory_map@;
        let ghost old_owner = self.owner@;
        let ghost kl = old_lists[l + 1].len() - 1;
        let x = match self.free_lists[l + 1].pop() {
            Some(x) => x,
            None => { assert(false); 0 },
        };
        let ghost p = exp2(l as nat);
        proof {
            assert(old(self).lists()[l + 1][kl] == x);
            assert(old_owner[x as int] == x);
            assert(old(self).lvl(x as int) == l + 1);
            crate::lemma_exp2_monotone(0, l as nat);
            lemma_aligned_lower(x as int, l as nat, (l + 1) as nat);
            lemma_buddy(x as int, l as nat);
        }
        let half = level_size(l);
        let y = x + half;
        let mut fx = self.memory_map[x];
        fx.set_level(l as u32);
        self.memory_map.set(x, fx);
        let ghost mid_frames = self.memory_map@;
        let mut fy = self.memory_map[y];
        fy.set_level(l as u32);
        self.memory_map.set(y, fy);
        self.free_lists[l].append(LinkedListNode::new(None, x));
        self.free_lists[l].append(LinkedListNode::new(None, y));
        self.owner = Ghost(
            Seq::new(
                self.size as nat,
                |j: int|
                    if y <= j < x + 2 * p {
                        y as int
                    } else {
                        old_owner[j]
                    },
            ),
        );
        proof {
            assert(self.lists() =~= old_lists.update(l + 1, old_lists[l + 1].drop_last()).update(
                l as int,
                old_lists[l as int].push(x).push(y),
            ));
            assert(self.memory_map@ =~= old_frames.update(x as int, FrameInfo { level: l as u32, ..old_frames[x as int] }).update(y as int, FrameInfo { level: l as u32, ..old_frames[y as int] }));
            Self::lemma_split_wf(*old(self), *self, l as int, x as int);
        }
    }

    /// The state after a split of the head block of order `l + 1`, which starts at `x`.
    closed spec fn split_step(pre: Region, post: Region, l: int, x: int) -> bool {
        let p = exp2(l as nat);
        let y = x + p;
        &&& 0 <= l && l + 1 < MAX_LEVEL
        &&& pre.lists()[l + 1].len() > 0
        &&& x == pre.lists()[l + 1].last()
        &&& post.lists() == pre.lists().update(l + 1, pre.lists()[l + 1].drop_last()).update(l, pre.lists()[l].push(x as usize).push(y as usize))
        &&& post.memory_map@ == pre.memory_map@.update(x, FrameInfo { level: l as u32, ..pre.memory_map@[x] }).update(y, FrameInfo { level: l as u32, ..pre.memory_map@[y] })
        &&& post.owner@ == Seq::new(pre.size as nat, |j: int| if y <= j < x + 2 * p { y } else { pre.owner@[j] })
        &&& post.free_lists@.len() == MAX_LEVEL
        &&& forall|t: int| 0 <= t < MAX_LEVEL ==> (#[trigger] post.free_lists@[t]).wf()
        &&& post.size == pre.size
        &&& post.start_frame_idx == pre.start_frame_idx
        &&& post.offset() == pre.offset()
        &&& post.free_frame_num == pre.free_frame_num
    }

    #[verifier::spinoff_prover]
    proof fn lemma_split_wf(pre: Region, post: Region, l: int, x: int)
        requires
            pre.wf(),
            Self::split_step(pre, post, l, x),
        ensures
            post.wf(),
    {
        Self::lemma_split_facts(pre, l, x);
        Self::lemma_split_tiling(pre, post, l, x);
        Self::lemma_split_free(pre, post, l, x);
        Self::lemma_split_count(pre, post, l, x);
    }

    proof fn lemma_split_facts(pre: Region, l: int, x: int)
        requires
            pre.wf(),
            0 <= l && l + 1 < MAX_LEVEL,
            pre.lists()[l + 1].len() > 0,
            x == pre.lists()[l + 1].last(),
        ensures
            pre.owner@[x] == x,
            pre.lvl(x) == l + 1,
            !pre.is_allocated(x),
            0 <= x,
            x + 2 * exp2(l as nat) <= pre.size,
            x % pw(l as nat) == 0,
            (x + exp2(l as nat)) % pw(l as nat) == 0,
            exp2((l + 1) as nat) == 2 * exp2(l as nat),
            exp2(l as nat) >= 1,
            pre.owner@[x + exp2(l as nat)] == x,
            !pre.is_allocated(x + exp2(l as nat)),
            forall|j: int| x <= j < x + 2 * exp2(l as nat) ==> #[trigger] pre.owner@[j] == x,
    {
        let kl = pre.lists()[l + 1].len() - 1;
        assert(pre.lists()[l + 1][kl] == x);
        crate::lemma_exp2_monotone(0, l as nat);
        lemma_aligned_lower(x, l as nat, (l + 1) as nat);
        lemma_buddy(x, l as nat);
        assert forall|j: int| x <= j < x + 2 * exp2(l as nat) implies #[trigger] pre.owner@[j] == x by {
            assert(pre.owner@[x] == x);
        }
        let y = x + exp2(l as nat);
        assert(pre.owner@[y] == x);
        if pre.is_allocated(y) {
            assert(pre.owner@[y] == y);
        }
    }

    #[verifier::spinoff_prover]
    proof fn lemma_split_tiling(pre: Region, post: Region, l: int, x: int)
        requires
            pre.wf(),
            Self::split_step(pre, post, l, x),
            pre.owner@[x] == x,
            pre.lvl(x) == l + 1,
            0 <= x,
            x + 2 * exp2(l as nat) <= pre.size,
            x % pw(l as nat) == 0,
            (x + exp2(l as nat)) % pw(l as nat) == 0,
            exp2(l as nat) >= 1,
            forall|j: int| x <= j < x + 2 * exp2(l as nat) ==> #[trigger] pre.owner@[j] == x,
        ensures
            post.wf_tiling(),
    {
        let p = exp2(l as nat);
        let y = x + p;
        let old_owner = pre.owner@;
        let old_frames = pre.memory_map@;
        let owner = post.owner@;
        let frames = post.memory_map@;
        assert forall|j: int| 0 <= j < post.size implies {
            let h = #[trigger] owner[j];
            &&& 0 <= h <= j
            &&& j < h + exp2(post.lvl(h))
            &&& h + exp2(post.lvl(h)) <= post.size
            &&& owner[h] == h
            &&& h % pw(post.lvl(h)) == 0
        } by {
            if y <= j < x + 2 * p {
            } else if x <= j < y {
            } else {
                let h = old_owner[j];
                assert(old_owner[h] == h);
                if x <= h < x + 2 * p {
                    assert(old_owner[h] == x);
                }
                assert(frames[h] == old_frames[h]);
            }
        }
        assert forall|h: int, j: int|
            #![trigger owner[h], owner[j]]
            0 <= h < post.size && owner[h] == h && h <= j < h + exp2(post.lvl(h)) implies owner[j]
                == h by {
            if h == x {
            } else if h == y {
            } else {
                if x <= h < x + 2 * p {
                    assert(old_owner[h] == x);
                }
                assert(old_owner[h] == h);
                assert(frames[h] == old_frames[h]);
                assert(old_owner[j] == h);
            }
        }
    }

    #[verifier::spinoff_prover]
    proof fn lemma_split_free(pre: Region, post: Region, l: int, x: int)
        requires
            pre.wf(),
            Self::split_step(pre, post, l, x),
            pre.owner@[x] == x,
            pre.lvl(x) == l + 1,
            !pre.is_allocated(x),
            0 <= x,
            x + 2 * exp2(l as nat) <= pre.size,
            exp2(l as nat) >= 1,
            !pre.is_allocated(x + exp2(l as nat)),
            forall|j: int| x <= j < x + 2 * exp2(l as nat) ==> #[trigger] pre.owner@[j] == x,
        ensures
            post.wf_free(),
    {
        let p = exp2(l as nat);
        let y = x + p;
        let old_lists = pre.lists();
        let old_owner = pre.owner@;
        let old_frames = pre.memory_map@;
        let lists = post.lists();
        let owner = post.owner@;
        let frames = post.memory_map@;
        let kl = old_lists[l + 1].len() - 1;
        assert(old_lists[l + 1][kl] == x);
        assert forall|l2: int, k: int|
            #![trigger lists[l2][k]]
            0 <= l2 < MAX_LEVEL && 0 <= k < lists[l2].len() implies {
                let e = lists[l2][k] as int;
                &&& e < post.size
                &&& owner[e] == e
                &&& post.lvl(e) == l2
                &&& !post.is_allocated(e)
            } by {
            let e = lists[l2][k] as int;
            if l2 == l && k == old_lists[l2].len() {
                assert(e == x);
            } else if l2 == l && k == old_lists[l2].len() + 1 {
                assert(e == y);
            } else {
                assert(lists[l2][k] == old_lists[l2][k]);
                assert(pre.lists()[l2][k] == e);
                if l2 == l + 1 {
                    assert(old_lists[l2][k] != old_lists[l2][kl]);
                }
                if x <= e < x + 2 * p {
                    assert(old_owner[e] == x);
                }
                assert(frames[e] == old_frames[e]);
            }
        }
        assert forall|l2: int| 0 <= l2 < MAX_LEVEL implies (#[trigger] lists[l2]).no_duplicates() by {
            assert(old_lists[l2].no_duplicates());
            if l2 == l + 1 {
                assert forall|i: int, j: int| 0 <= i < lists[l2].len() && 0 <= j < lists[l2].len() && i != j implies lists[l2][i] != lists[l2][j] by {
                    assert(old_lists[l2][i] != old_lists[l2][j]);
                }
            } else if l2 == l {
                let n = old_lists[l2].len() as int;
                assert forall|i: int, j: int| 0 <= i < lists[l2].len() && 0 <= j < lists[l2].len() && i != j implies lists[l2][i] != lists[l2][j] by {
                    if i < n && j < n {
                        assert(old_lists[l2][i] != old_lists[l2][j]);
                    }
                    if i < n {
                        assert(pre.lists()[l2][i] == lists[l2][i]);
                    }
                    if j < n {
                        assert(pre.lists()[l2][j] == lists[l2][j]);
                    }
                }
            }
        }
        assert forall|h: int|
            0 <= h < post.size && #[trigger] owner[h] == h implies post.is_allocated(h)
                || lists[post.lvl(h) as int].contains(h as usize) by {
            if h == x {
                assert(lists[l][old_lists[l].len() as int] == x);
            } else if h == y {
                assert(lists[l][old_lists[l].len() as int + 1] == y);
            } else {
                if x <= h < x + 2 * p {
                    assert(old_owner[h] == x);
                }
                assert(old_owner[h] == h);
                assert(frames[h] == old_frames[h]);
                if !post.is_allocated(h) {
                    let t = post.lvl(h) as int;
                    assert(old_lists[t].contains(h as usize));
                    let k = choose|k: int| 0 <= k < old_lists[t].len() && old_lists[t][k] == h as usize;
                    if t == l + 1 {
                        assert(k != kl);
                    }
                    assert(lists[t][k] == h as usize);
                }
            }
        }
        assert forall|j: int|
            0 <= j < post.size && #[trigger] post.is_allocated(j) implies owner[j] == j by {
            if j != x && j != y {
                assert(frames[j] == old_frames[j]);
                assert(pre.is_allocated(j));
                if x <= j < x + 2 * p {
                    assert(old_owner[j] == x);
                }
            }
        }
    }

    #[verifier::spinoff_prover]
    proof fn lemma_split_count(pre: Region, post: Region, l: int, x: int)
        requires
            pre.wf(),
            Self::split_step(pre, post, l, x),
            !pre.is_allocated(x),
            !pre.is_allocated(x + exp2(l as nat)),
            0 <= x,
            x + 2 * exp2(l as nat) <= pre.size,
            exp2((l + 1) as nat) == 2 * exp2(l as nat),
        ensures
            post.wf_count(),
            post.wf_shape(),
    {
        let p = exp2(l as nat);
        let y = x + p;
        let old_lists = pre.lists();
        let lists = post.lists();
        let old_frames = pre.memory_map@;
        let mid_frames = old_frames.update(x, FrameInfo { level: l as u32, ..old_frames[x] });
        let frames = post.memory_map@;
        let mid = old_lists.update(l + 1, old_lists[l + 1].drop_last());
        lemma_free_total_update(old_lists, mid, l + 1, MAX_LEVEL as nat);
        lemma_free_total_update(mid, lists, l, MAX_LEVEL as nat);
        assert(old_lists[l + 1].len() * exp2((l + 1) as nat) == (old_lists[l + 1].len() - 1) * exp2((l + 1) as nat) + 2 * p) by (nonlinear_arith)
            requires exp2((l + 1) as nat) == 2 * p;
        assert((old_lists[l].len() + 2) * p == old_lists[l].len() * p + 2 * p) by (nonlinear_arith);
        lemma_alloc_total_update(old_frames, mid_frames, x, pre.size as nat);
        lemma_alloc_total_update(mid_frames, frames, y, pre.size as nat);
    }

    /// The two regions hold the same free lists, records and counters.
    pub open spec fn same_as(&self, other: &Region) -> bool {
        &&& self.lists() == other.lists()
        &&& self.frames() == other.frames()
        &&& self.usable() == other.usable()
        &&& self.free_count() == other.free_count()
        &&& self.start() == other.start()
        &&& self.base() == other.base()
        &&& self.offset() == other.offset()
    }

    /// The two regions are alike down to the block that holds each frame.
    closed spec fn same_state(&self, other: &Region) -> bool {
        &&& self.lists() == other.lists()
        &&& self.memory_map@ == other.memory_map@
        &&& self.owner@ == other.owner@
        &&& self.size == other.size
        &&& self.free_frame_num == other.free_frame_num
        &&& self.base_frame_idx == other.base_frame_idx
        &&& self.start_frame_idx == other.start_frame_idx
        &&& self.phys_offset == other.phys_offset
    }

    /// Clears the allocation mark of the block headed by `h` and puts it on
    /// the free list of its order.
    fn release(&mut self, h: usize)
        requires
            old(self).wf(),
            h < old(self).usable(),
            old(self).is_allocated(h as int),
        ensures
            final(self).wf(),
            final(self).lists() == old(self).lists().update(
                old(self).lvl(h as int) as int,
                old(self).lists()[old(self).lvl(h as int) as int].push(h),
            ),
            final(self).free_count() == old(self).free_count() + exp2(old(self).lvl(h as int)),
            final(self).frames() == old(self).frames().update(h as int, cleared(old(self).frames()[h as int])),
            final(self).lvl(h as int) == old(self).lvl(h as int),
            final(self).usable() == old(self).usable(),
            final(self).start() == old(self).start(),
            final(self).base() == old(self).base(),
            final(self).offset() == old(self).offset(),
    {
        let ghost pre = *self;
        let mut f = self.memory_map[h];
        let level = f.get_level() as usize;
        f.set_flgs(f.get_flgs().difference(FrameFlags::head()));
        self.memory_map.set(h, f);
        self.free_lists[level].append(LinkedListNode::new(None, h));
        proof {
            lemma_alloc_total_ge(pre.memory_map@, h as int, pre.size as nat);
            lemma_head_bit(pre.memory_map@[h as int].flgs.bits);
        }
        self.free_frame_num = self.free_frame_num + level_size(level);
        proof {
            assert(self.lists() =~= pre.lists().update(level as int, pre.lists()[level as int].push(h)));
            Self::lemma_release_wf(pre, *self, h as int);
        }
    }

    #[verifier::spinoff_prover]
    proof fn lemma_release_wf(pre: Region, post: Region, h: int)
        requires
            pre.wf(),
            0 <= h < pre.size,
            pre.is_allocated(h),
            post.lists() == pre.lists().update(pre.lvl(h) as int, pre.lists()[pre.lvl(h) as int].push(h as usize)),
            post.memory_map@ == pre.memory_map@.update(h, FrameInfo { flgs: FrameFlags { bits: pre.memory_map@[h].flgs.bits & !crate::data_structures::HEAD_BIT }, ..pre.memory_map@[h] }),
            post.owner@ == pre.owner@,
            post.free_lists@.len() == MAX_LEVEL,
            forall|t: int| 0 <= t < MAX_LEVEL ==> (#[trigger] post.free_lists@[t]).wf(),
            post.size == pre.size,
            post.start_frame_idx == pre.start_frame_idx,
            post.offset() == pre.offset(),
            post.free_frame_num == pre.free_frame_num + exp2(pre.lvl(h)),
        ensures
            post.wf(),
    {
        let l = pre.lvl(h) as int;
        let old_lists = pre.lists();
        let lists = post.lists();
        let old_frames = pre.memory_map@;
        let frames = post.memory_map@;
        lemma_head_bit(old_frames[h].flgs.bits);
        assert(pre.owner@[h] == h);
        assert forall|j: int| 0 <= j < post.size implies #[trigger] post.lvl(j) == pre.lvl(j) by {}
        assert(post.wf_tiling());
        assert forall|l2: int, k: int|
            #![trigger lists[l2][k]]
            0 <= l2 < MAX_LEVEL && 0 <= k < lists[l2].len() implies {
                let e = lists[l2][k] as int;
                &&& e < post.size
                &&& post.owner@[e] == e
                &&& post.lvl(e) == l2
                &&& !post.is_allocated(e)
            } by {
            if !(l2 == l && k == old_lists[l2].len()) {
                assert(lists[l2][k] == old_lists[l2][k]);
                assert(pre.lists()[l2][k] == lists[l2][k]);
                assert(lists[l2][k] != h);
            }
        }
        assert forall|l2: int| 0 <= l2 < MAX_LEVEL implies (#[trigger] lists[l2]).no_duplicates() by {
            assert(old_lists[l2].no_duplicates());
            if l2 == l {
                let n = old_lists[l2].len() as int;
                assert forall|i: int, j: int| 0 <= i < lists[l2].len() && 0 <= j < lists[l2].len() && i != j implies lists[l2][i] != lists[l2][j] by {
                    if i < n && j < n {
                        assert(old_lists[l2][i] != old_lists[l2][j]);
                    }
                    if i < n {
                        assert(pre.lists()[l2][i] == lists[l2][i]);
                    }
                    if j < n {
                        assert(pre.lists()[l2][j] == lists[l2][j]);
                    }
                }
            }
        }
        assert forall|g: int|
            0 <= g < post.size && #[trigger] post.owner@[g] == g implies post.is_allocated(g)
                || lists[post.lvl(g) as int].contains(g as usize) by {
            if g == h {
                assert(lists[l][old_lists[l].len() as int] == h);
            } else if !post.is_allocated(g) {
                assert(pre.owner@[g] == g);
                let t = post.lvl(g) as int;
                assert(old_lists[t].contains(g as usize));
                let k = choose|k: int| 0 <= k < old_lists[t].len() && old_lists[t][k] == g as usize;
                assert(lists[t][k] == g as usize);
            }
        }
        assert forall|j: int|
            0 <= j < post.size && #[trigger] post.is_allocated(j) implies post.owner@[j] == j by {
            assert(pre.is_allocated(j));
        }
        assert(post.wf_free());
        lemma_free_total_update(old_lists, lists, l, MAX_LEVEL as nat);
        lemma_alloc_total_update(old_frames, frames, h, pre.size as nat);
        assert((old_lists[l].len() + 1) * exp2(l as nat) == old_lists[l].len() * exp2(l as nat) + exp2(l as nat)) by (nonlinear_arith);
    }

    /// Joins the head block of the free list of order `l` with its buddy when
    /// the buddy is a free block of the same order; tells whether it did. The
    /// joined block goes onto the free list of order `l + 1`.
    fn merge_step(&mut self, l: usize) -> (r: bool)
        requires
            old(self).wf(),
            l + 1 < MAX_LEVEL,
            old(self).lists()[l as int].len() > 0,
        ensures
            final(self).wf(),
            ({
                let m = old(self).lists()[l as int].last() as int;
                let b = buddy_of(m, l as nat);
                &&& r == merges_at(old(self).lists(), old(self).frames(), old(self).usable(), l as int)
                &&& r ==> final(self).lists() == merged_lists(old(self).lists(), l as int)
                &&& r ==> final(self).frames() == merged_frames(old(self).frames(), old(self).lists(), l as int)
                &&& r ==> final(self).lists()[l + 1] == old(self).lists()[l + 1].push(
                    (if m < b { m } else { b }) as usize,
                )
                &&& r ==> final(self).lists()[l + 1].last() as int == (if m < b { m } else { b })
                &&& r ==> final(self).lvl(if m < b { m } else { b }) == l + 1
            }),
            !r ==> final(self).same_state(old(self)),
            final(self).free_count() == old(self).free_count(),
            final(self).usable() == old(self).usable(),
            final(self).start() == old(self).start(),
            final(self).base() == old(self).base(),
            final(self).offset() == old(self).offset(),
    {
        let ghost pre = *self;
        let m = match self.free_lists[l].peek() {
            Some(m) => m,
            None => { assert(false); 0 },
        };
        let p = level_size(l);
        proof {
            let kl = pre.lists()[l as int].len() - 1;
            assert(pre.lists()[l as int][kl] == m);
            crate::lemma_exp2_monotone(0, l as nat);
            lemma_buddy(m as int, l as nat);
        }
        let b = if (m / p) % 2 == 0 {
            m + p
        } else {
            m - p
        };
        if b >= self.size {
            return false;
        }
        if !is_free_buddy_frame(&self.memory_map[b], l as u32) {
            return false;
        }
        let found = self.free_lists[l].remove(b);
        if !found {
            proof {
                assert(self.lists() =~= pre.lists());
                Self::lemma_same_wf(pre, *self);
            }
            return false;
        }
        let ghost after_remove = self.lists();
        let _ = self.free_lists[l].pop();
        let (lo, hi) = if m < b {
            (m, b)
        } else {
            (b, m)
        };
        let mut flo = self.memory_map[lo];
        flo.set_level((l + 1) as u32);
        self.memory_map.set(lo, flo);
        let mut fhi = self.memory_map[hi];
        fhi.set_level(0);
        self.memory_map.set(hi, fhi);
        self.free_lists[l + 1].append(LinkedListNode::new(None, lo));
        let ghost old_owner = pre.owner@;
        self.owner = Ghost(
            Seq::new(
                self.size as nat,
                |j: int|
                    if lo <= j < lo + 2 * p {
                        lo as int
                    } else {
                        old_owner[j]
                    },
            ),
        );
        proof {
            let lists = self.lists();
            let kb = choose|k: int|
                0 <= k < pre.lists()[l as int].len() && pre.lists()[l as int][k] == b && (forall|j: int|
                    k < j < pre.lists()[l as int].len() ==> pre.lists()[l as int][j] != b)
                    && after_remove[l as int] == pre.lists()[l as int].remove(k);
            assert(lists =~= pre.lists().update(l as int, pre.lists()[l as int].remove(kb).drop_last()).update(
                l + 1,
                pre.lists()[l + 1].push(lo),
            ));
            assert(self.memory_map@ =~= pre.memory_map@.update(lo as int, FrameInfo { level: (l + 1) as u32, ..pre.memory_map@[lo as int] }).update(hi as int, FrameInfo { level: 0, ..pre.memory_map@[hi as int] }));
            Self::lemma_merge_wf(pre, *self, l as int, m as int, b as int, kb);
            assert(lists[l + 1].last() == lo);
            let s0 = pre.lists()[l as int];
            assert(s0.contains(b));
            let pk = pos_of(s0, b);
            assert(0 <= pk < s0.len() && s0[pk] == b);
            assert(s0.no_duplicates());
            assert(pk == kb);
            assert(self.lists() == merged_lists(pre.lists(), l as int));
            assert(self.frames() == merged_frames(pre.frames(), pre.lists(), l as int));
        }
        true
    }

    /// The state after the head block `m` of the free list of order `l` was
    /// joined with its buddy `b`, found at position `kb` of that list.
    closed spec fn merge_step_state(pre: Region, post: Region, l: int, m: int, b: int, kb: int) -> bool {
        let p = exp2(l as nat);
        let lo = if m < b { m } else { b };
        let hi = if m < b { b } else { m };
        &&& 0 <= l && l + 1 < MAX_LEVEL
        &&& pre.lists()[l].len() > 0
        &&& m == pre.lists()[l].last()
        &&& b == buddy_of(m, l as nat)
        &&& 0 <= kb < pre.lists()[l].len() && pre.lists()[l][kb] == b
        &&& post.lists() == pre.lists().update(l, pre.lists()[l].remove(kb).drop_last()).update(l + 1, pre.lists()[l + 1].push(lo as usize))
        &&& post.memory_map@ == pre.memory_map@.update(lo, FrameInfo { level: (l + 1) as u32, ..pre.memory_map@[lo] }).update(hi, FrameInfo { level: 0, ..pre.memory_map@[hi] })
        &&& post.owner@ == Seq::new(pre.size as nat, |j: int| if lo <= j < lo + 2 * p { lo } else { pre.owner@[j] })
        &&& post.free_lists@.len() == MAX_LEVEL
        &&& forall|t: int| 0 <= t < MAX_LEVEL ==> (#[trigger] post.free_lists@[t]).wf()
        &&& post.size == pre.size
        &&& post.start_frame_idx == pre.start_frame_idx
        &&& post.offset() == pre.offset()
        &&& post.free_frame_num == pre.free_frame_num
    }

    proof fn lemma_merge_facts(pre: Region, l: int, m: int, b: int, kb: int)
        requires
            pre.wf(),
            0 <= l && l + 1 < MAX_LEVEL,
            pre.lists()[l].len() > 0,
            m == pre.lists()[l].last(),
            b == buddy_of(m, l as nat),
            0 <= kb < pre.lists()[l].len() && pre.lists()[l][kb] == b,
        ensures
            ({
                let p = exp2(l as nat);
                let lo = if m < b { m } else { b };
                let hi = if m < b { b } else { m };
                &&& kb != pre.lists()[l].len() - 1
                &&& pre.owner@[m] == m && pre.owner@[b] == b
                &&& pre.lvl(m) == l && pre.lvl(b) == l
                &&& !pre.is_allocated(m) && !pre.is_allocated(b)
                &&& 0 <= lo && hi == lo + p && lo + 2 * p <= pre.size
                &&& lo % pw((l + 1) as nat) == 0
                &&& exp2((l + 1) as nat) == 2 * p
                &&& p >= 1
                &&& forall|j: int| lo <= j < lo + 2 * p ==> (#[trigger] pre.owner@[j] == lo || pre.owner@[j] == hi)
                &&& forall|j: int| lo <= j < lo + p ==> #[trigger] pre.owner@[j] == lo
                &&& forall|j: int| lo + p <= j < lo + 2 * p ==> #[trigger] pre.owner@[j] == hi
            }),
    {
        let p = exp2(l as nat);
        let kl = pre.lists()[l].len() - 1;
        assert(pre.lists()[l][kl] == m);
        assert(pre.lists()[l][kb] == b);
        assert(pre.lists()[l].no_duplicates());
        crate::lemma_exp2_monotone(0, l as nat);
        lemma_buddy(m, l as nat);
        let lo = if m < b { m } else { b };
        let hi = if m < b { b } else { m };
        assert forall|j: int| lo <= j < lo + p implies #[trigger] pre.owner@[j] == lo by {
            assert(pre.owner@[lo] == lo);
        }
        assert forall|j: int| lo + p <= j < lo + 2 * p implies #[trigger] pre.owner@[j] == hi by {
            assert(pre.owner@[hi] == hi);
        }
    }

    #[verifier::spinoff_prover]
    proof fn lemma_merge_wf(pre: Region, post: Region, l: int, m: int, b: int, kb: int)
        requires
            pre.wf(),
            Self::merge_step_state(pre, post, l, m, b, kb),
        ensures
            post.wf(),
            post.lvl(if m < b { m } else { b }) == l + 1,
    {
        Self::lemma_merge_facts(pre, l, m, b, kb);
        Self::lemma_merge_tiling(pre, post, l, m, b, kb);
        Self::lemma_merge_free(pre, post, l, m, b, kb);
        Self::lemma_merge_count(pre, post, l, m, b, kb);
    }

    #[verifier::spinoff_prover]
    proof fn lemma_merge_tiling(pre: Region, post: Region, l: int, m: int, b: int, kb: int)
        requires
            pre.wf(),
            Self::merge_step_state(pre, post, l, m, b, kb),
            ({
                let p = exp2(l as nat);
                let lo = if m < b { m } else { b };
                let hi = if m < b { b } else { m };
                &&& pre.owner@[m] == m && pre.owner@[b] == b
                &&& 0 <= lo && hi == lo + p && lo + 2 * p <= pre.size
                &&& lo % pw((l + 1) as nat) == 0
                &&& exp2((l + 1) as nat) == 2 * p
                &&& forall|j: int| lo <= j < lo + 2 * p ==> (#[trigger] pre.owner@[j] == lo || pre.owner@[j] == hi)
            }),
        ensures
            post.wf_tiling(),
    {
        let p = exp2(l as nat);
        let lo = if m < b { m } else { b };
        let hi = if m < b { b } else { m };
        let old_owner = pre.owner@;
        let old_frames = pre.memory_map@;
        let owner = post.owner@;
        let frames = post.memory_map@;
        assert forall|j: int| 0 <= j < post.size implies {
            let h = #[trigger] owner[j];
            &&& 0 <= h <= j
            &&& j < h + exp2(post.lvl(h))
            &&& h + exp2(post.lvl(h)) <= post.size
            &&& owner[h] == h
            &&& h % pw(post.lvl(h)) == 0
        } by {
            if lo <= j < lo + 2 * p {
            } else {
                let h = old_owner[j];
                assert(old_owner[h] == h);
                if lo <= h < lo + 2 * p {
                    assert(old_owner[h] == lo || old_owner[h] == hi);
                    assert(old_owner[lo] == lo);
                    assert(old_owner[hi] == hi);
                }
                assert(h != lo && h != hi);
                assert(frames[h] == old_frames[h]);
            }
        }
        assert forall|h: int, j: int|
            #![trigger owner[h], owner[j]]
            0 <= h < post.size && owner[h] == h && h <= j < h + exp2(post.lvl(h)) implies owner[j]
                == h by {
            if h == lo {
            } else {
                if lo <= h < lo + 2 * p {
                    assert(false);
                }
                assert(old_owner[h] == h);
                if h == hi {
                    assert(false);
                }
                assert(frames[h] == old_frames[h]);
                assert(old_owner[j] == h);
                if lo <= j < lo + 2 * p {
                    assert(old_owner[j] == lo || old_owner[j] == hi);
                    assert(old_owner[lo] == lo);
                    assert(old_owner[hi] == hi);
                }
            }
        }
    }

    #[verifier::spinoff_prover]
    proof fn lemma_merge_free(pre: Region, post: Region, l: int, m: int, b: int, kb: int)
        requires
            pre.wf(),
            Self::merge_step_state(pre, post, l, m, b, kb),
            ({
                let p = exp2(l as nat);
                let lo = if m < b { m } else { b };
                let hi = if m < b { b } else { m };
                &&& kb != pre.lists()[l].len() - 1
                &&& pre.owner@[m] == m && pre.owner@[b] == b
                &&& pre.lvl(m) == l && pre.lvl(b) == l
                &&& !pre.is_allocated(m) && !pre.is_allocated(b)
                &&& 0 <= lo && hi == lo + p && lo + 2 * p <= pre.size
                &&& forall|j: int| lo <= j < lo + 2 * p ==> (#[trigger] pre.owner@[j] == lo || pre.owner@[j] == hi)
            }),
        ensures
            post.wf_free(),
    {
        let p = exp2(l as nat);
        let lo = if m < b { m } else { b };
        let hi = if m < b { b } else { m };
        let old_lists = pre.lists();
        let old_owner = pre.owner@;
        let old_frames = pre.memory_map@;
        let lists = post.lists();
        let owner = post.owner@;
        let frames = post.memory_map@;
        let s = old_lists[l];
        let n = s.len() as int;
        let kl = n - 1;
        let ll = s.remove(kb).drop_last();
        assert(s.no_duplicates());
        assert(ll.len() == n - 2);
        assert forall|i: int| 0 <= i < n - 2 implies #[trigger] ll[i] == (if i < kb { s[i] } else { s[i + 1] }) by {}
        // a frame that heads a block other than the two halves lies outside the joined block
        assert forall|e: int| 0 <= e < pre.size && old_owner[e] == e && e != lo && e != hi implies !(lo <= e < lo + 2 * p) && #[trigger] owner[e] == e && frames[e] == old_frames[e] by {
            if lo <= e < lo + 2 * p {
                assert(old_owner[e] == lo || old_owner[e] == hi);
            }
        }
        assert forall|l2: int, k: int|
            #![trigger lists[l2][k]]
            0 <= l2 < MAX_LEVEL && 0 <= k < lists[l2].len() implies {
                let e = lists[l2][k] as int;
                &&& e < post.size
                &&& owner[e] == e
                &&& post.lvl(e) == l2
                &&& !post.is_allocated(e)
            } by {
            let e = lists[l2][k] as int;
            if l2 == l + 1 && k == old_lists[l2].len() {
                assert(e == lo);
            } else {
                let k2 = if l2 == l { if k < kb { k } else { k + 1 } } else { k };
                assert(e == old_lists[l2][k2]);
                assert(pre.lists()[l2][k2] == e);
                if l2 == l {
                    assert(k2 != kb && k2 != kl);
                    assert(s[k2] != s[kb] && s[k2] != s[kl]);
                }
                assert(e != m && e != b);
                assert(owner[e] == e);
            }
        }
        assert forall|l2: int| 0 <= l2 < MAX_LEVEL implies (#[trigger] lists[l2]).no_duplicates() by {
            assert(old_lists[l2].no_duplicates());
            if l2 == l {
                assert forall|i: int, j: int| 0 <= i < lists[l2].len() && 0 <= j < lists[l2].len() && i != j implies lists[l2][i] != lists[l2][j] by {
                    let i2 = if i < kb { i } else { i + 1 };
                    let j2 = if j < kb { j } else { j + 1 };
                    assert(s[i2] != s[j2]);
                }
            } else if l2 == l + 1 {
                let n1 = old_lists[l2].len() as int;
                assert forall|i: int, j: int| 0 <= i < lists[l2].len() && 0 <= j < lists[l2].len() && i != j implies lists[l2][i] != lists[l2][j] by {
                    if i < n1 && j < n1 {
                        assert(old_lists[l2][i] != old_lists[l2][j]);
                    }
                    if i < n1 {
                        assert(pre.lists()[l2][i] == lists[l2][i]);
                    }
                    if j < n1 {
                        assert(pre.lists()[l2][j] == lists[l2][j]);
                    }
                }
            }
        }
        assert forall|g: int|
            0 <= g < post.size && #[trigger] owner[g] == g implies post.is_allocated(g)
                || lists[post.lvl(g) as int].contains(g as usize) by {
            if g == lo {
                assert(lists[l + 1][old_lists[l + 1].len() as int] == lo);
            } else {
                if lo <= g < lo + 2 * p {
                    assert(false);
                }
                assert(old_owner[g] == g);
                if g == hi {
                    assert(false);
                }
                assert(frames[g] == old_frames[g]);
                if !post.is_allocated(g) {
                    let t = post.lvl(g) as int;
                    assert(old_lists[t].contains(g as usize));
                    let k = choose|k: int| 0 <= k < old_lists[t].len() && old_lists[t][k] == g as usize;
                    if t == l {
                        assert(k != kb && k != kl);
                        let k3 = if k < kb { k } else { k - 1 };
                        assert(ll[k3] == s[k]);
                        assert(lists[t][k3] == g as usize);
                    } else {
                        assert(lists[t][k] == g as usize);
                    }
                }
            }
        }
        assert forall|j: int|
            0 <= j < post.size && #[trigger] post.is_allocated(j) implies owner[j] == j by {
            assert(frames[j].flgs == old_frames[j].flgs);
            assert(pre.is_allocated(j));
            assert(old_owner[j] == j);
            assert(j != m && j != b);
        }
    }

    #[verifier::spinoff_prover]
    proof fn lemma_merge_count(pre: Region, post: Region, l: int, m: int, b: int, kb: int)
        requires
            pre.wf(),
            Self::merge_step_state(pre, post, l, m, b, kb),
            ({
                let p = exp2(l as nat);
                let lo = if m < b { m } else { b };
                let hi = if m < b { b } else { m };
                &&& kb != pre.lists()[l].len() - 1
                &&& !pre.is_allocated(m) && !pre.is_allocated(b)
                &&& 0 <= lo && hi == lo + p && lo + 2 * p <= pre.size
                &&& exp2((l + 1) as nat) == 2 * p
            }),
        ensures
            post.wf_count(),
            post.wf_shape(),
            post.lvl(if m < b { m } else { b }) == l + 1,
    {
        let p = exp2(l as nat);
        let lo = if m < b { m } else { b };
        let hi = if m < b { b } else { m };
        let old_lists = pre.lists();
        let lists = post.lists();
        let old_frames = pre.memory_map@;
        let mid_frames = old_frames.update(lo, FrameInfo { level: (l + 1) as u32, ..old_frames[lo] });
        let frames = post.memory_map@;
        let mid = old_lists.update(l, old_lists[l].remove(kb).drop_last());
        lemma_free_total_update(old_lists, mid, l, MAX_LEVEL as nat);
        lemma_free_total_update(mid, lists, l + 1, MAX_LEVEL as nat);
        assert(old_lists[l].len() * p == (old_lists[l].len() - 2) * p + 2 * p) by (nonlinear_arith);
        assert((old_lists[l + 1].len() + 1) * exp2((l + 1) as nat) == old_lists[l + 1].len() * exp2((l + 1) as nat) + 2 * p) by (nonlinear_arith)
            requires exp2((l + 1) as nat) == 2 * p;
        lemma_alloc_total_update(old_frames, mid_frames, lo, pre.size as nat);
        lemma_alloc_total_update(mid_frames, frames, hi, pre.size as nat);
    }

    proof fn lemma_same_wf(a: Region, b: Region)
        requires
            a.wf(),
            a.same_state(&b),
            b.free_lists@.len() == MAX_LEVEL,
            forall|t: int| 0 <= t < MAX_LEVEL ==> (#[trigger] b.free_lists@[t]).wf(),
        ensures
            b.wf(),
    {
        assert(b.wf_shape());
        assert(b.wf_tiling());
        assert forall|l: int, k: int|
            #![trigger b.lists()[l][k]]
            0 <= l < MAX_LEVEL && 0 <= k < b.lists()[l].len() implies {
                let e = b.lists()[l][k] as int;
                &&& e < b.size
                &&& b.owner@[e] == e
                &&& b.lvl(e) == l
                &&& !b.is_allocated(e)
            } by {
            assert(a.lists()[l][k] == b.lists()[l][k]);
        }
        assert forall|l: int| 0 <= l < MAX_LEVEL implies (#[trigger] b.lists()[l]).no_duplicates() by {
            assert(a.lists()[l] == b.lists()[l]);
        }
        assert forall|h: int|
            0 <= h < b.size && #[trigger] b.owner@[h] == h implies b.is_allocated(h)
                || b.lists()[b.lvl(h) as int].contains(h as usize) by {
            assert(a.owner@[h] == h);
            assert(a.lists()[a.lvl(h) as int] == b.lists()[b.lvl(h) as int]);
        }
        assert forall|j: int|
            0 <= j < b.size && #[trigger] b.is_allocated(j) implies b.owner@[j] == j by {
            assert(a.is_allocated(j));
        }
        assert(b.wf_free());
        assert(b.wf_count());
    }

    /// A free-list entry lies inside the region, aligned to its order.
    pub proof fn lemma_entry(&self, l: int, k: int)
        requires
            self.wf(),
            0 <= l < MAX_LEVEL,
            0 <= k < self.lists()[l].len(),
        ensures
            self.lists()[l][k] + exp2(l as nat) <= self.usable(),
            (self.lists()[l][k] as int) % pw(l as nat) == 0,
            self.lists()[l][k] + 2 * exp2(l as nat) <= usize::MAX,
            self.owner_of(self.lists()[l][k] as int) == self.lists()[l][k],
            self.lvl(self.lists()[l][k] as int) == l,
            !self.is_allocated(self.lists()[l][k] as int),
            self.frames()[self.lists()[l][k] as int].count == 0,
            !has_taken(self.frames()[self.lists()[l][k] as int].flgs.bits),
    {
        let e = self.lists()[l][k] as int;
        assert(self.owner@[e] == e);
        crate::lemma_exp2_monotone(l as nat, 10);
        lemma_exp2_10();
        assert(self.size * 4096 <= usize::MAX) by (nonlinear_arith)
            requires (self.start_frame_idx + self.size) * page_bytes() + self.phys_offset <= usize::MAX, page_bytes() == 4096;
        assert(self.size + 1024 <= usize::MAX) by (nonlinear_arith)
            requires self.size * 4096 <= usize::MAX, self.size >= 1;
    }

    /// Makes sure a free block of order `target` exists, splitting the
    /// nearest larger free block if there is none; tells whether one exists.
    /// The halves a split leaves free stay apart until a block beside them
    /// is given back.
    pub fn split(&mut self, target: usize) -> (r: bool)
        requires
            old(self).wf(),
        ensures
            final(self).wf(),
            r == (lowest_nonempty(old(self).lists(), target as int) < MAX_LEVEL),
            !r ==> final(self).same_as(old(self)),
            r && old(self).lists()[target as int].len() > 0 ==> final(self).same_as(old(self)),
            r && old(self).lists()[target as int].len() == 0 ==> final(self).lists() == split_lists(
                old(self).lists(),
                target as int,
                lowest_nonempty(old(self).lists(), target as int),
            ),
            final(self).free_count() == old(self).free_count(),
            final(self).usable() == old(self).usable(),
            final(self).start() == old(self).start(),
            final(self).base() == old(self).base(),
            final(self).offset() == old(self).offset(),
            forall|i: int| 0 <= i < old(self).usable() ==> (#[trigger] final(self).frames()[i]).flgs == old(self).frames()[i].flgs,
            forall|i: int| 0 <= i < old(self).usable() && old(self).is_allocated(i) ==> #[trigger] final(self).frames()[i] == old(self).frames()[i],
        decreases MAX_LEVEL - target,
    {
        if target >= MAX_LEVEL {
            return false;
        }
        if self.free_lists[target].size() > 0 {
            return true;
        }
        let ghost pre = *self;
        if !self.split(target + 1) {
            return false;
        }
        let ghost mid = *self;
        let ghost j = lowest_nonempty(pre.lists(), target + 1);
        proof {
            let lists = pre.lists();
            let e = lists[j].last();
            Self::lemma_lowest(lists, target as int + 1);
            pre.lemma_entry(j, lists[j].len() - 1);
            crate::lemma_exp2_monotone(target as nat, j as nat);
            crate::lemma_exp2_monotone((target + 1) as nat, j as nat);
            if j > target + 1 {
                crate::lemma_exp2_monotone((target + 2) as nat, j as nat);
                assert(mid.lists()[target + 1] == lists[target + 1].push((e + exp2(j as nat) - exp2((target + 2) as nat)) as usize).push((e + exp2(j as nat) - exp2((target + 1) as nat)) as usize));
            }
        }
        self.split_top(target);
        proof {
            let lists = pre.lists();
            let e = lists[j].last();
            let p = exp2(target as nat);
            assert(exp2((target + 1) as nat) == 2 * p);
            let want = split_lists(lists, target as int, j);
            if j == target + 1 {
                assert(mid.lists() == lists);
            }
            assert(self.lists()[target as int] =~= want[target as int]);
            assert(self.lists()[target + 1] =~= want[target + 1]);
            assert(self.lists() =~= want);
        }
        true
    }

    proof fn lemma_lowest(lists: Seq<Seq<usize>>, l: int)
        requires
            0 <= l,
            lowest_nonempty(lists, l) < MAX_LEVEL,
        ensures
            l <= lowest_nonempty(lists, l),
            lists[lowest_nonempty(lists, l)].len() > 0,
            forall|t: int| l <= t < lowest_nonempty(lists, l) ==> #[trigger] lists[t].len() == 0,
        decreases MAX_LEVEL - l,
    {
        if l < MAX_LEVEL && lists[l].len() == 0 {
            Self::lemma_lowest(lists, l + 1);
        }
    }

    /// Whether `request_frames(n)` succeeds: `n` is a power of two of an order
    /// below `MAX_LEVEL`, at most the region's size, and a free block of that
    /// order or a larger one exists.
    pub open spec fn can_request(&self, n: nat) -> bool {
        &&& n > 0
        &&& n <= self.usable()
        &&& is_pow2(n)
        &&& ilog2(n) < MAX_LEVEL
        &&& lowest_nonempty(self.lists(), ilog2(n) as int) < MAX_LEVEL
    }

    /// What `request_frames(n)` does to the region and hands back.
    pub open spec fn requested(&self, post: &Region, n: nat, r: Option<FrameInfo>) -> bool {
        &&& r.is_some() == self.can_request(n)
        &&& !self.can_request(n) ==> post.same_as(self)
        &&& self.can_request(n) ==> {
            let l = ilog2(n) as int;
            let j = lowest_nonempty(self.lists(), l);
            let e = carved_head(self.lists(), l, j);
            &&& post.lists() == carve(self.lists(), l, j)
            &&& 0 <= e < self.usable()
            &&& r == Some(post.frames()[e])
            &&& r.unwrap().index == self.start() + e
            &&& r.unwrap().level == l
            &&& has_head(r.unwrap().flgs.bits)
            &&& r.unwrap().direct_access + n * page_bytes() <= usize::MAX
            &&& r.unwrap().direct_access == r.unwrap().index * page_bytes() + self.offset()
            &&& r.unwrap().direct_access >= page_bytes()
            &&& post.free_count() == self.free_count() - n
            &&& forall|i: int| 0 <= i < self.usable() && i != e ==> (#[trigger] post.frames()[i]).flgs == self.frames()[i].flgs
            &&& forall|i: int| 0 <= i < self.usable() && self.is_allocated(i) ==> #[trigger] post.frames()[i] == self.frames()[i]
        }
        &&& post.usable() == self.usable()
        &&& post.start() == self.start()
        &&& post.base() == self.base()
        &&& post.offset() == self.offset()
    }

    /// Allocates a block of `frame_num` frames, which must be a power of two;
    /// hands back the record of its first frame, now marked as allocated.
    pub fn request_frames(&mut self, frame_num: usize) -> (r: Option<FrameInfo>)
        requires
            old(self).wf(),
        ensures
            final(self).wf(),
            old(self).requested(final(self), frame_num as nat, r),
            fully_merged(old(self).lists()) ==> fully_merged(final(self).lists()),
    {
        if frame_num == 0 || frame_num > self.size {
            return None;
        }
        if !crate::is_power2(frame_num) {
            return None;
        }
        let level = crate::floor_log2(frame_num);
        if level >= MAX_LEVEL {
            return None;
        }
        let ghost pre = *self;
        let ghost j = lowest_nonempty(pre.lists(), level as int);
        if self.free_lists[level].size() == 0 {
            if !self.split(level) {
                return None;
            }
        }
        proof {
            crate::lemma_exp2_of_log(frame_num as nat);
            if j < MAX_LEVEL {
                Self::lemma_lowest(pre.lists(), level as int);
                pre.lemma_entry(j, pre.lists()[j].len() - 1);
                crate::lemma_exp2_monotone(level as nat, j as nat);
            }
        }
        let ghost before_take = *self;
        let e = self.take_free(level);
        proof {
            lemma_head_bit(before_take.memory_map@[e as int].flgs.bits);
            let lists = pre.lists();
            let want = carve(lists, level as int, j);
            if j == level {
                assert(self.lists() =~= want);
            } else {
                assert(self.lists()[level as int] =~= want[level as int]);
                assert(self.lists() =~= want);
            }
            assert(self.memory_map@[e as int].index == self.start_frame_idx + e);
            assert(self.memory_map@[e as int].direct_access == (self.start_frame_idx + e) * page_bytes() + self.phys_offset);
            assert((self.start_frame_idx + e) * page_bytes() + frame_num * page_bytes() <= (self.start_frame_idx + self.size) * page_bytes()) by (nonlinear_arith)
                requires e + frame_num <= self.size;
        }
        let r = Some(self.memory_map[e]);
        proof {
            let l = ilog2(frame_num as nat) as int;
            assert(l == level);
            assert(pre.can_request(frame_num as nat));
            assert(self.lists() == carve(pre.lists(), l, j));
            assert(e == carved_head(pre.lists(), l, j));
            assert(r.unwrap().level == l);
            assert(has_head(r.unwrap().flgs.bits));
            assert(self.free_count() == pre.free_count() - frame_num);
            if fully_merged(pre.lists()) {
                pre.lemma_carve_keeps_merged(level as int, j);
            }
        }
        r
    }

    /// Whether `frame_info` names the first frame of an allocated block of this region.
    pub open spec fn holds_block(&self, frame_info: FrameInfo) -> bool {
        &&& self.start() <= frame_info.index < self.start() + self.usable()
        &&& self.is_allocated(frame_info.index - self.start())
    }

    /// What `retrieve_frame(frame_info)` does to the region.
    pub open spec fn retrieved(&self, post: &Region, frame_info: FrameInfo) -> bool {
        &&& !self.holds_block(frame_info) ==> post.same_as(self)
        &&& self.holds_block(frame_info) ==> {
            let h = frame_info.index - self.start();
            let o = post.owner_of(h);
            &&& post.free_count() == self.free_count() + exp2(self.lvl(h))
            &&& !post.is_allocated(h)
            &&& o <= h < o + exp2(post.lvl(o))
            &&& post.lists()[post.lvl(o) as int].contains(o as usize)
            &&& forall|i: int| 0 <= i < self.usable() && i != h ==> (#[trigger] post.frames()[i]).flgs == self.frames()[i].flgs
            &&& forall|i: int| 0 <= i < self.usable() && i != h && self.is_allocated(i) ==> #[trigger] post.frames()[i] == self.frames()[i]
            &&& post.lists() == coalesce(
                self.lists().update(self.lvl(h) as int, self.lists()[self.lvl(h) as int].push(h as usize)),
                self.frames().update(h, cleared(self.frames()[h])),
                self.usable(),
                self.lvl(h) as int,
            )
        }
        &&& post.usable() == self.usable()
        &&& post.start() == self.start()
        &&& post.base() == self.base()
        &&& post.offset() == self.offset()
    }

    /// Gives back the block whose first frame `frame_info` describes, joining
    /// it with its free buddy as long as there is one below the largest order.
    /// A record that does not head an allocated block of this region is ignored.
    #[verifier::spinoff_prover]
    #[verifier::rlimit(40)]
    pub fn retrieve_frame(&mut self, frame_info: &FrameInfo)
        requires
            old(self).wf(),
        ensures
            final(self).wf(),
            old(self).retrieved(final(self), *frame_info),
            fully_merged(old(self).lists()) ==> fully_merged(final(self).lists()),
    {
        let idx = frame_info.get_index();
        if idx < self.start_frame_idx || idx - self.start_frame_idx >= self.size {
            return;
        }
        let h = idx - self.start_frame_idx;
        if !self.memory_map[h].get_flgs().contains(FrameFlags::head()) {
            proof {
                let bits = self.memory_map@[h as int].flgs.bits;
                assert((bits & 4u32 == 4u32) == (bits & 4u32 != 0)) by (bit_vector);
            }
            return;
        }
        proof {
            let bits = self.memory_map@[h as int].flgs.bits;
            assert((bits & 4u32 == 4u32) == (bits & 4u32 != 0)) by (bit_vector);
        }
        let ghost pre = *self;
        let ghost joined = fully_merged(pre.lists());
        let mut level = self.memory_map[h].get_level() as usize;
        self.release(h);
        proof {
            if joined {
                Self::lemma_push_keeps_merged(pre.lists(), level as int, h);
            }
            assert(self.lists()[level as int].last() == h);
            assert(self.owner@[h as int] == h);
        }
        let mut merging = true;
        while merging && level + 1 < MAX_LEVEL
            invariant
                self.wf(),
                level < MAX_LEVEL,
                self.lists()[level as int].len() > 0,
                ({
                    let t = self.lists()[level as int].last() as int;
                    t <= h < t + exp2(level as nat)
                }),
                self.free_count() == pre.free_count() + exp2(pre.lvl(h as int)),
                coalesce(self.lists(), self.frames(), self.usable(), level as int) == coalesce(
                    pre.lists().update(pre.lvl(h as int) as int, pre.lists()[pre.lvl(h as int) as int].push(h)),
                    pre.frames().update(h as int, cleared(pre.frames()[h as int])),
                    pre.usable(),
                    pre.lvl(h as int) as int,
                ),
                !self.is_allocated(h as int),
                self.usable() == pre.usable(),
                self.start() == pre.start(),
                self.base() == pre.base(),
                self.offset() == pre.offset(),
                !merging ==> coalesce(self.lists(), self.frames(), self.usable(), level as int) == self.lists(),
                !merging ==> !merges_at(self.lists(), self.frames(), self.usable(), level as int),
                joined ==> merged_except_head(self.lists(), level as int),
                forall|i: int| 0 <= i < pre.usable() && i != h ==> (#[trigger] self.frames()[i]).flgs == pre.frames()[i].flgs,
                forall|i: int| 0 <= i < pre.usable() && i != h && pre.is_allocated(i) ==> #[trigger] self.frames()[i] == pre.frames()[i],
            decreases MAX_LEVEL - level + (if merging { 1int } else { 0int }),
        {
            let ghost before = *self;
            if !self.merge_step(level) {
                proof {
                    assert(self.lists() == before.lists());
                    assert(self.frames() == before.frames());
                    assert(!merges_at(before.lists(), before.frames(), before.usable(), level as int));
                }
                merging = false;
            } else {
                proof {
                let m = before.lists()[level as int].last() as int;
                let b = buddy_of(m, level as nat);
                crate::lemma_exp2_monotone(0, level as nat);
                lemma_buddy(m, level as nat);
                let kl = before.lists()[level as int].len() - 1;
                assert(before.lists()[level as int][kl] == m);
                before.lemma_entry(level as int, kl);
                let kb = choose|k: int| 0 <= k < before.lists()[level as int].len() && before.lists()[level as int][k] == b as usize;
                before.lemma_entry(level as int, kb);
                    if self.is_allocated(h as int) {
                        assert(before.is_allocated(h as int));
                    }
                }
                level = level + 1;
            }
        }
        proof {
            let t = self.lists()[level as int].last() as int;
            let kl = self.lists()[level as int].len() - 1;
            assert(self.lists()[level as int][kl] == t);
            assert(self.owner@[t] == t);
            assert(self.lvl(t) == level);
            assert(self.owner@[h as int] == t);
            assert(self.lists()[level as int].contains(t as usize));
            if joined {
                self.lemma_stopped_merged(level as int);
            }
        }
    }

    /// The region while its free lists are being laid out: the frames below
    /// `pos` are tiled by free blocks, each frame from `pos` on is a free
    /// single frame that no list holds yet.
    closed spec fn building(&self, pos: int) -> bool {
        &&& 0 <= pos <= self.size
        &&& self.wf_shape()
        &&& self.wf_tiling()
        &&& forall|l: int, k: int|
            #![trigger self.lists()[l][k]]
            0 <= l < MAX_LEVEL && 0 <= k < self.lists()[l].len() ==> {
                let e = self.lists()[l][k] as int;
                &&& e < pos
                &&& self.owner@[e] == e
                &&& self.lvl(e) == l
            }
        &&& forall|l: int| 0 <= l < MAX_LEVEL ==> (#[trigger] self.lists()[l]).no_duplicates()
        &&& forall|h: int|
            0 <= h < pos && #[trigger] self.owner@[h] == h ==> self.lists()[self.lvl(h) as int].contains(
                h as usize,
            )
        &&& forall|j: int| 0 <= j < self.size ==> !(#[trigger] self.is_allocated(j))
        &&& forall|j: int| 0 <= j < self.size ==> (#[trigger] self.memory_map@[j]).flgs.bits == 0
        &&& forall|j: int|
            pos <= j < self.size ==> #[trigger] self.owner@[j] == j && self.lvl(j) == 0
        &&& self.free_frame_num == pos
        &&& free_total(self.lists(), MAX_LEVEL as nat) == pos
    }

    proof fn lemma_alloc_total_zero(frames: Seq<FrameInfo>, n: nat)
        requires
            n <= frames.len(),
            forall|j: int| 0 <= j < n ==> !has_head(#[trigger] frames[j].flgs.bits),
        ensures
            alloc_total(frames, n) == 0,
        decreases n,
    {
        if n > 0 {
            Self::lemma_alloc_total_zero(frames, (n - 1) as nat);
        }
    }

    proof fn lemma_built(&self)
        requires
            self.building(self.size as int),
        ensures
            self.wf(),
    {
        assert forall|j: int| 0 <= j < self.size implies !has_head(#[trigger] self.memory_map@[j].flgs.bits) by {
            assert(!self.is_allocated(j));
        }
        Self::lemma_alloc_total_zero(self.memory_map@, self.size as nat);
        assert forall|l: int, k: int|
            #![trigger self.lists()[l][k]]
            0 <= l < MAX_LEVEL && 0 <= k < self.lists()[l].len() implies !self.is_allocated(self.lists()[l][k] as int) by {
            assert(self.lists()[l][k] < self.size);
        }
    }

    /// Puts the block of order `lvl` at `pos` onto its free list.
    fn place_block(&mut self, pos: usize, lvl: usize)
        requires
            old(self).building(pos as int),
            lvl < MAX_LEVEL,
            pos + exp2(lvl as nat) <= old(self).usable(),
            (pos as int) % pw(lvl as nat) == 0,
        ensures
            final(self).building(pos + exp2(lvl as nat)),
            final(self).lists() == old(self).lists().update(lvl as int, old(self).lists()[lvl as int].push(pos)),
            final(self).usable() == old(self).usable(),
            final(self).start() == old(self).start(),
            final(self).base() == old(self).base(),
            final(self).offset() == old(self).offset(),
    {
        let ghost pre = *self;
        proof {
            crate::lemma_exp2_monotone(0, lvl as nat);
        }
        let mut f = self.memory_map[pos];
        f.set_level(lvl as u32);
        self.memory_map.set(pos, f);
        self.free_lists[lvl].append(LinkedListNode::new(None, pos));
        let p = level_size(lvl);
        self.free_frame_num = self.free_frame_num + p;
        let ghost old_owner = pre.owner@;
        self.owner = Ghost(
            Seq::new(
                self.size as nat,
                |j: int|
                    if pos <= j < pos + p {
                        pos as int
                    } else {
                        old_owner[j]
                    },
            ),
        );
        proof {
            assert(self.lists() =~= pre.lists().update(lvl as int, pre.lists()[lvl as int].push(pos)));
            Self::lemma_place_wf(pre, *self, pos as int, lvl as int);
        }
    }

    #[verifier::spinoff_prover]
    proof fn lemma_place_wf(pre: Region, post: Region, pos: int, lvl: int)
        requires
            pre.building(pos),
            0 <= lvl < MAX_LEVEL,
            pos + exp2(lvl as nat) <= pre.size,
            pos % pw(lvl as nat) == 0,
            post.lists() == pre.lists().update(lvl, pre.lists()[lvl].push(pos as usize)),
            post.memory_map@ == pre.memory_map@.update(pos, FrameInfo { level: lvl as u32, ..pre.memory_map@[pos] }),
            post.owner@ == Seq::new(pre.size as nat, |j: int| if pos <= j < pos + exp2(lvl as nat) { pos } else { pre.owner@[j] }),
            post.free_lists@.len() == MAX_LEVEL,
            forall|t: int| 0 <= t < MAX_LEVEL ==> (#[trigger] post.free_lists@[t]).wf(),
            post.size == pre.size,
            post.start_frame_idx == pre.start_frame_idx,
            post.phys_offset == pre.phys_offset,
            post.free_frame_num == pre.free_frame_num + exp2(lvl as nat),
        ensures
            post.building(pos + exp2(lvl as nat)),
    {
        let p = exp2(lvl as nat);
        crate::lemma_exp2_monotone(0, lvl as nat);
        let old_owner = pre.owner@;
        let old_frames = pre.memory_map@;
        let old_lists = pre.lists();
        let owner = post.owner@;
        let frames = post.memory_map@;
        let lists = post.lists();
        assert(post.wf_shape());
        assert forall|j: int| 0 <= j < post.size implies {
            let h = #[trigger] owner[j];
            &&& 0 <= h <= j
            &&& j < h + exp2(post.lvl(h))
            &&& h + exp2(post.lvl(h)) <= post.size
            &&& owner[h] == h
            &&& h % pw(post.lvl(h)) == 0
        } by {
            if pos <= j < pos + p {
            } else if j < pos {
                let h = old_owner[j];
                assert(old_owner[h] == h);
                assert(frames[h] == old_frames[h]);
            } else {
                assert(old_owner[j] == j);
                assert(frames[j] == old_frames[j]);
            }
        }
        assert forall|h: int, j: int|
            #![trigger owner[h], owner[j]]
            0 <= h < post.size && owner[h] == h && h <= j < h + exp2(post.lvl(h)) implies owner[j]
                == h by {
            if h == pos {
            } else if h < pos {
                assert(old_owner[h] == h);
                assert(frames[h] == old_frames[h]);
                assert(old_owner[j] == h);
                if j >= pos {
                    assert(old_owner[j] == j);
                }
            } else {
                assert(old_owner[h] == h);
                assert(frames[h] == old_frames[h]);
            }
        }
        assert(post.wf_tiling());
        assert forall|l: int, k: int|
            #![trigger lists[l][k]]
            0 <= l < MAX_LEVEL && 0 <= k < lists[l].len() implies {
                let e = lists[l][k] as int;
                &&& e < pos + p
                &&& owner[e] == e
                &&& post.lvl(e) == l
            } by {
            if !(l == lvl && k == old_lists[l].len()) {
                assert(lists[l][k] == old_lists[l][k]);
                assert(pre.lists()[l][k] == lists[l][k]);
                let e = lists[l][k] as int;
                assert(old_owner[e] == e);
                assert(frames[e] == old_frames[e]);
            }
        }
        assert forall|l: int| 0 <= l < MAX_LEVEL implies (#[trigger] lists[l]).no_duplicates() by {
            assert(old_lists[l].no_duplicates());
            if l == lvl {
                let n = old_lists[l].len() as int;
                assert forall|i: int, j: int| 0 <= i < lists[l].len() && 0 <= j < lists[l].len() && i != j implies lists[l][i] != lists[l][j] by {
                    if i < n && j < n {
                        assert(old_lists[l][i] != old_lists[l][j]);
                    }
                    if i < n {
                        assert(pre.lists()[l][i] == lists[l][i]);
                    }
                    if j < n {
                        assert(pre.lists()[l][j] == lists[l][j]);
                    }
                }
            }
        }
        assert forall|h: int|
            0 <= h < pos + p && #[trigger] owner[h] == h implies lists[post.lvl(h) as int].contains(
                h as usize,
            ) by {
            if h == pos {
                assert(lists[lvl][old_lists[lvl].len() as int] == pos);
            } else {
                assert(h < pos);
                assert(old_owner[h] == h);
                assert(frames[h] == old_frames[h]);
                let t = post.lvl(h) as int;
                assert(old_lists[t].contains(h as usize));
                let k = choose|k: int| 0 <= k < old_lists[t].len() && old_lists[t][k] == h as usize;
                assert(lists[t][k] == h as usize);
            }
        }
        assert forall|j: int| 0 <= j < post.size implies !(#[trigger] post.is_allocated(j)) by {
            assert(!pre.is_allocated(j));
        }
        assert forall|j: int|
            pos + p <= j < post.size implies #[trigger] owner[j] == j && post.lvl(j) == 0 by {
            assert(old_owner[j] == j);
        }
        lemma_free_total_update(old_lists, lists, lvl, MAX_LEVEL as nat);
        assert((old_lists[lvl].len() + 1) * p == old_lists[lvl].len() * p + p) by (nonlinear_arith);
    }

    /// `Region::new(size, base_frame_num, physical_memory_offset)` when every
    /// frame's address fits in a machine word, `None` otherwise.
    pub fn try_new(size: usize, base_frame_num: usize, physical_memory_offset: usize) -> (r: Option<Region>)
        ensures
            r.is_some() == ((base_frame_num + size) * page_bytes() + physical_memory_offset <= usize::MAX),
            r.is_some() ==> {
                let g = r.unwrap();
                &&& g.wf()
                &&& g.base() == base_frame_num
                &&& g.offset() == physical_memory_offset
                &&& g.start() + g.usable() == base_frame_num + size
                &&& g.free_count() == g.usable()
                &&& g.lists() == initial_lists(g.usable() as int)
                &&& fully_merged(g.lists())
                &&& forall|i: int|
                    0 <= i < g.usable() ==> {
                        &&& (#[trigger] g.frames()[i]).index == g.start() + i
                        &&& g.frames()[i].direct_access == (g.start() + i) * page_bytes() + physical_memory_offset
                        &&& g.frames()[i].count == 0
                        &&& g.frames()[i].flgs.bits == 0
                    }
                &&& forall|l: int, k: int|
                    0 <= l < MAX_LEVEL && 0 <= k < g.lists()[l].len() ==> g.lvl(#[trigger] g.lists()[l][k] as int) == l
            },
    {
        let end = match base_frame_num.checked_add(size) {
            Some(e) => e,
            None => return None,
        };
        let page_size = small_page_size();
        let bytes = match end.checked_mul(page_size) {
            Some(b) => b,
            None => {
                proof {
                    assert((base_frame_num + size) * page_bytes() > usize::MAX);
                }
                return None;
            },
        };
        match bytes.checked_add(physical_memory_offset) {
            Some(_) => Some(Region::new(size, base_frame_num, physical_memory_offset)),
            None => None,
        }
    }

    /// A region of `size` frames whose first frame has global index
    /// `base_frame_num`, with all physical memory mapped at
    /// `physical_memory_offset`. The leading frames that the table of frame
    /// records takes are set aside; the rest is laid out as free blocks, the
    /// largest first, each of the largest order that fits what is left (at
    /// most `MAX_LEVEL - 1`).
    pub fn new(size: usize, base_frame_num: usize, physical_memory_offset: usize) -> (r: Region)
        requires
            (base_frame_num + size) * page_bytes() + physical_memory_offset <= usize::MAX,
        ensures
            r.wf(),
            r.base() == base_frame_num,
            r.offset() == physical_memory_offset,
            r.start() + r.usable() == base_frame_num + size,
            ({
                let reserved = r.start() - base_frame_num;
                &&& reserved * page_bytes() >= FRAME_RECORD_BYTES * size
                &&& reserved * page_bytes() < FRAME_RECORD_BYTES * size + page_bytes()
            }),
            r.free_count() == r.usable(),
            r.lists() == initial_lists(r.usable() as int),
            fully_merged(r.lists()),
            forall|i: int|
                0 <= i < r.usable() ==> {
                    &&& (#[trigger] r.frames()[i]).index == r.start() + i
                    &&& r.frames()[i].direct_access == (r.start() + i) * page_bytes() + physical_memory_offset
                    &&& r.frames()[i].count == 0
                    &&& r.frames()[i].flgs.bits == 0
                },
            forall|l: int, k: int|
                0 <= l < MAX_LEVEL && 0 <= k < r.lists()[l].len() ==> r.lvl(#[trigger] r.lists()[l][k] as int) == l,
    {
        let page_size = small_page_size();
        proof {
            assert(FRAME_RECORD_BYTES * size + page_size <= usize::MAX) by (nonlinear_arith)
                requires (base_frame_num + size) * 4096 + physical_memory_offset <= usize::MAX, page_size == 4096;
        }
        let info_frame_num = required_frame_num(FRAME_RECORD_BYTES * size, page_size);
        proof {
            assert(info_frame_num <= size) by (nonlinear_arith)
                requires info_frame_num * 4096 < 32 * size + 4096;
        }
        let start = base_frame_num + info_frame_num;
        let usable = size - info_frame_num;
        let mut memory_map: Vec<FrameInfo> = Vec::new();
        let mut i: usize = 0;
        while i < usable
            invariant
                i <= usable,
                start + usable == base_frame_num + size,
                (base_frame_num + size) * page_bytes() + physical_memory_offset <= usize::MAX,
                page_size == page_bytes(),
                memory_map@.len() == i,
                forall|t: int|
                    0 <= t < i ==> {
                        &&& (#[trigger] memory_map@[t]).index == start + t
                        &&& memory_map@[t].level == 0
                        &&& memory_map@[t].direct_access == (start + t) * page_bytes() + physical_memory_offset
                        &&& memory_map@[t].flgs.bits == 0
                        &&& memory_map@[t].count == 0
                    },
            decreases usable - i,
        {
            proof {
                assert((start + i) * page_bytes() + physical_memory_offset <= usize::MAX) by (nonlinear_arith)
                    requires (base_frame_num + size) * page_bytes() + physical_memory_offset <= usize::MAX, start + i < base_frame_num + size;
            }
            let global_idx = start + i;
            let virt_addr = phys2virt(global_idx * page_size, physical_memory_offset);
            memory_map.push(FrameInfo::new(FrameFlags::free(), virt_addr, global_idx));
            i = i + 1;
        }
        let mut free_lists: Vec<LinkedList> = Vec::new();
        let mut l: usize = 0;
        while l < MAX_LEVEL
            invariant
                l <= MAX_LEVEL,
                free_lists@.len() == l,
                forall|t: int| 0 <= t < l ==> (#[trigger] free_lists@[t]).wf() && free_lists@[t]@.len() == 0,
            decreases MAX_LEVEL - l,
        {
            free_lists.push(LinkedList::new());
            l = l + 1;
        }
        let mut region = Region {
            free_lists,
            size: usable,
            free_frame_num: 0,
            base_frame_idx: base_frame_num,
            start_frame_idx: start,
            phys_offset: physical_memory_offset,
            memory_map,
            owner: Ghost(Seq::new(usable as nat, |j: int| j)),
        };
        proof {
            assert forall|j: int| 0 <= j < region.size implies !(#[trigger] region.is_allocated(j)) by {
                let bits = region.memory_map@[j].flgs.bits;
                assert(bits == 0);
                assert(0u32 & 4u32 == 0) by (bit_vector);
                assert(0u32 & 2u32 == 0) by (bit_vector);
            }
            assert forall|j: int| 0 <= j < region.size implies (#[trigger] region.owner@[j]) == j && region.lvl(j) == 0 by {}
            assert forall|j: int| 0 <= j < region.size implies !has_taken(#[trigger] region.memory_map@[j].flgs.bits) by {
                let bits = region.memory_map@[j].flgs.bits;
                assert(bits == 0);
                assert(0u32 & 2u32 == 0) by (bit_vector);
            }
            assert forall|j: int| 0 <= j < region.size implies {
                let h = #[trigger] region.owner@[j];
                &&& 0 <= h <= j
                &&& j < h + exp2(region.lvl(h))
                &&& h + exp2(region.lvl(h)) <= region.size
                &&& region.owner@[h] == h
                &&& h % pw(region.lvl(h)) == 0
            } by {
                assert(region.lvl(j) == 0);
            }
            assert forall|t: int| 0 <= t < MAX_LEVEL implies #[trigger] region.lists()[t] =~= Seq::<usize>::empty() by {}
            assert(region.lists() =~= Seq::new(MAX_LEVEL as nat, |t: int| Seq::<usize>::empty()));
            crate::lemma_exp2_monotone(0, (MAX_LEVEL - 1) as nat);
            Self::lemma_free_total_empty(region.lists(), MAX_LEVEL as nat);
            assert(region.building(0));
            assert(region.lists() == empty_lists());
        }
        let mut pos: usize = 0;
        let mut cap: usize = MAX_LEVEL - 1;
        while pos < usable
            invariant
                region.building(pos as int),
                region.size == usable,
                region.start() == start,
                region.base() == base_frame_num,
                region.offset() == physical_memory_offset,
                pos <= usable,
                cap < MAX_LEVEL,
                (pos as int) % pw(cap as nat) == 0,
                cap == MAX_LEVEL - 1 || usable - pos < exp2(cap as nat),
                forall|t: int| 0 <= t < MAX_LEVEL - 1 ==> (#[trigger] region.lists()[t]).len() <= 1,
                forall|t: int| 0 <= t < cap ==> (#[trigger] region.lists()[t]).len() == 0,
                place_from(region.lists(), usable as int, pos as int, cap as int) == initial_lists(usable as int),
            decreases usable - pos,
        {
            let rest = usable - pos;
            let lg = crate::floor_log2(rest);
            let lvl = if lg < cap {
                lg
            } else {
                cap
            };
            proof {
                crate::lemma_ilog2_bounds(rest as nat);
                crate::lemma_exp2_monotone(lvl as nat, lg as nat);
                crate::lemma_exp2_monotone(lvl as nat, cap as nat);
                lemma_aligned_lower(pos as int, lvl as nat, cap as nat);
            }
            region.place_block(pos, lvl);
            let p = level_size(lvl);
            proof {
                lemma_buddy(pos as int, lvl as nat);
                if lvl < cap {
                    assert(rest < exp2((lg + 1) as nat));
                }
                if cap < MAX_LEVEL - 1 {
                    assert(lvl < cap);
                }
                assert(lvl as int == (if (ilog2(rest as nat) as int) < cap as int { ilog2(rest as nat) as int } else { cap as int }));
                assert(exp2(lvl as nat) != 0);
            }
            pos = pos + p;
            cap = lvl;
        }
        proof {
            region.lemma_built();
            assert forall|l: int, k: int|
                0 <= l < MAX_LEVEL - 1 && 0 <= k < region.lists()[l].len() implies !region.lists()[l].contains(
                    #[trigger] buddy_of(region.lists()[l][k] as int, l as nat) as usize,
                ) by {
                let e = region.lists()[l][k] as int;
                region.lemma_entry(l, k);
                crate::lemma_exp2_monotone(0, l as nat);
                lemma_buddy(e, l as nat);
                if region.lists()[l].contains(buddy_of(e, l as nat) as usize) {
                    let k2 = choose|k2: int| 0 <= k2 < region.lists()[l].len() && region.lists()[l][k2] == buddy_of(e, l as nat) as usize;
                    assert(k2 == 0 && k == 0);
                }
            }
        }
        region
    }

    proof fn lemma_free_total_empty(lists: Seq<Seq<usize>>, n: nat)
        requires
            n <= lists.len(),
            forall|t: int| 0 <= t < n ==> (#[trigger] lists[t]).len() == 0,
        ensures
            free_total(lists, n) == 0,
        decreases n,
    {
        if n > 0 {
            Self::lemma_free_total_empty(lists, (n - 1) as nat);
        }
    }

    /// The number of usable frames.
    pub fn size(&self) -> (r: usize)
        ensures
            r == self.usable(),
    {
        self.size
    }

    /// The number of free frames.
    pub fn free_frame_num(&self) -> (r: usize)
        ensures
            r == self.free_count(),
    {
        self.free_frame_num
    }

    /// The global index of the first usable frame.
    pub fn start_frame_idx(&self) -> (r: usize)
        ensures
            r == self.start(),
    {
        self.start_frame_idx
    }

    /// The number of free blocks of order `level`.
    pub fn free_list_len(&self, level: usize) -> (r: usize)
        requires
            self.wf(),
            level < MAX_LEVEL,
        ensures
            r == self.lists()[level as int].len(),
    {
        self.free_lists[level].size()
    }

    /// The first frame (relative to the first usable one) of the free block
    /// of order `level` that the next request of that order takes.
    pub fn free_list_head(&self, level: usize) -> (r: Option<usize>)
        requires
            self.wf(),
            level < MAX_LEVEL,
        ensures
            self.lists()[level as int].len() == 0 ==> r.is_none(),
            self.lists()[level as int].len() > 0 ==> r == Some(self.lists()[level as int].last()),
    {
        self.free_lists[level].peek()
    }

    /// The record of usable frame `i`.
    pub fn frame(&self, i: usize) -> (r: FrameInfo)
        requires
            self.wf(),
            i < self.usable(),
        ensures
            r == self.frames()[i as int],
    {
        self.memory_map[i]
    }

    /// No frame is lost or counted twice: the frames on the free lists and
    /// those in allocated blocks add up to the region's size, every frame lies
    /// in exactly one block, and that block is either on the free list of its
    /// order or marked allocated, never both.
    pub proof fn lemma_frames_accounted(&self)
        requires
            self.wf(),
        ensures
            self.free_count() == free_total(self.lists(), MAX_LEVEL as nat),
            free_total(self.lists(), MAX_LEVEL as nat) + alloc_total(self.frames(), self.usable())
                == self.usable(),
            forall|j: int|
                0 <= j < self.usable() ==> {
                    let o = #[trigger] self.owner_of(j);
                    &&& o <= j < o + exp2(self.lvl(o))
                    &&& o + exp2(self.lvl(o)) <= self.usable()
                    &&& self.owner_of(o) == o
                    &&& (self.is_allocated(o) != self.lists()[self.lvl(o) as int].contains(
                        o as usize,
                    ))
                },
            forall|o: int, j: int|
                #![trigger self.owner_of(o), self.owner_of(j)]
                0 <= o < self.usable() && self.owner_of(o) == o && o <= j < o + exp2(self.lvl(o))
                    ==> self.owner_of(j) == o,
    {
        assert forall|j: int| 0 <= j < self.usable() implies {
            let o = #[trigger] self.owner_of(j);
            &&& o <= j < o + exp2(self.lvl(o))
            &&& o + exp2(self.lvl(o)) <= self.usable()
            &&& self.owner_of(o) == o
            &&& (self.is_allocated(o) != self.lists()[self.lvl(o) as int].contains(o as usize))
        } by {
            let o = self.owner@[j];
            assert(self.owner@[o] == o);
            if self.lists()[self.lvl(o) as int].contains(o as usize) {
                let t = self.lvl(o) as int;
                let k = choose|k: int| 0 <= k < self.lists()[t].len() && self.lists()[t][k] == o as usize;
                assert(self.lists()[t][k] == o);
            }
        }
        assert forall|o: int, j: int|
            #![trigger self.owner_of(o), self.owner_of(j)]
            0 <= o < self.usable() && self.owner_of(o) == o && o <= j < o + exp2(self.lvl(o))
                implies self.owner_of(j) == o by {
            assert(self.owner@[o] == o);
        }
    }

    /// One step of joining back the halves that a request split off: with the
    /// block at `e` of order `j` carved down to order `t`, the rest of the
    /// joining leads back to the lists before the request.
    proof fn lemma_join_back(
        &self,
        carved: Seq<FrameInfo>,
        lists: Seq<Seq<usize>>,
        frames: Seq<FrameInfo>,
        e: int,
        t: int,
        j: int,
    )
        requires
            self.wf(),
            fully_merged(self.lists()),
            0 <= t <= j < MAX_LEVEL,
            self.lists()[j].len() > 0,
            e == self.lists()[j].last(),
            e % pw(j as nat) == 0,
            e + exp2(j as nat) <= self.size,
            lists == (if t < j { split_lists(self.lists(), t, j) } else { self.lists() }),
            frames.len() == self.size,
            forall|i: int| 0 <= i < e + pw(j as nat) - pw(t as nat) ==> #[trigger] frames[i] == carved[i],
            forall|u: int|
                t <= u < j ==> is_free_buddy(
                    #[trigger] carved[e + pw(j as nat) - pw((u + 1) as nat)],
                    u as u32,
                ),
        ensures
            coalesce(lists, frames, self.size as nat, t) == self.lists(),
        decreases j - t,
    {
        let pre = self.lists();
        if t == j {
            let kl = pre[j].len() - 1;
            assert(pre[j][kl] == e);
            if j + 1 < MAX_LEVEL {
                assert(!pre[j].contains(buddy_of(pre[j][kl] as int, j as nat) as usize));
            }
        } else {
            lemma_upper_buddy(e, t as nat, j as nat);
            let m = e + pw(j as nat) - pw(t as nat);
            let c = e + pw(j as nat) - pw((t + 1) as nat);
            assert(lists[t] == pre[t].push(c as usize).push(m as usize));
            // c is inside the free block at e, so it heads no free block of order t
            assert(!pre[t].contains(c as usize)) by {
                if pre[t].contains(c as usize) {
                    let k = choose|k: int| 0 <= k < pre[t].len() && pre[t][k] == c as usize;
                    assert(self.lists()[t][k] == c);
                    assert(self.owner@[c] == c);
                    let kl = pre[j].len() - 1;
                    assert(self.lists()[j][kl] == e);
                    assert(self.owner@[e] == e);
                    assert(self.owner@[c] == e);
                }
            }
            assert(merges_at(lists, frames, self.size as nat, t)) by {
                assert(lists[t].last() == m);
                assert(frames[c] == carved[c]);
                assert(lists[t][pre[t].len() as int] == c);
            }
            let n = pre[t].len() as int;
            let pk = pos_of(lists[t], c as usize);
            assert(lists[t].contains(c as usize)) by {
                assert(lists[t][n] == c);
            }
            assert(0 <= pk < lists[t].len() && lists[t][pk] == c);
            if pk < n {
                assert(pre[t][pk] == c);
            }
            assert(pk == n);
            assert(lists[t].remove(pk).drop_last() =~= pre[t]);
            let next = if t + 1 < j { split_lists(pre, t + 1, j) } else { pre };
            assert(merge_low(lists, t) == c);
            assert(merge_high(lists, t) == m);
            if t + 1 < j {
                lemma_upper_buddy(e, (t + 1) as nat, j as nat);
                assert(merged_lists(lists, t)[t + 1] =~= next[t + 1]);
            } else {
                let kl = pre[j].len() - 1;
                assert(pre[j][kl] == e);
                assert(merged_lists(lists, t)[t + 1] =~= next[t + 1]);
            }
            assert(merged_lists(lists, t) =~= next);
            let frames2 = merged_frames(frames, lists, t);
            assert forall|i: int| 0 <= i < e + pw(j as nat) - pw((t + 1) as nat) implies #[trigger] frames2[i] == carved[i] by {
                assert(i != c && i != m);
                assert(i < frames.len());
                assert(frames2[i] == frames[i]);
                assert(frames[i] == carved[i]);
            }
            self.lemma_join_back(carved, next, frames2, e, t + 1, j);
        }
    }

    /// Asking for a block and giving it straight back leaves every free list
    /// as it was, provided every pair of free buddies had been joined.
    #[verifier::spinoff_prover]
    #[verifier::rlimit(60)]
    pub proof fn lemma_request_then_retrieve(&self, mid: &Region, post: &Region, n: nat, f: FrameInfo)
        requires
            self.wf(),
            mid.wf(),
            fully_merged(self.lists()),
            self.requested(mid, n, Some(f)),
            mid.retrieved(post, f),
        ensures
            post.lists() == self.lists(),
            post.free_count() == self.free_count(),
    {
        let l = ilog2(n) as int;
        let pre = self.lists();
        let j = lowest_nonempty(pre, l);
        Self::lemma_lowest(pre, l);
        let kj = pre[j].len() - 1;
        let e = pre[j][kj] as int;
        self.lemma_entry(j, kj);
        crate::lemma_exp2_of_log(n);
        crate::lemma_exp2_monotone(l as nat, j as nat);
        let h = carved_head(pre, l, j);
        lemma_head_bit(mid.frames()[h].flgs.bits);
        assert(mid.holds_block(f));
        assert(f.index - mid.start() == h);
        assert(mid.lvl(h) == l);
        let start_lists = mid.lists().update(l, mid.lists()[l].push(h as usize));
        let start_frames = mid.frames().update(h, cleared(mid.frames()[h]));
        if j == l {
            assert(start_lists[l] =~= pre[l]);
            assert(start_lists =~= pre);
        } else {
            assert(start_lists =~= split_lists(pre, l, j));
        }
        assert forall|u: int|
            l <= u < j implies is_free_buddy(
                #[trigger] mid.frames()[e + pw(j as nat) - pw((u + 1) as nat)],
                u as u32,
            ) by {
            crate::lemma_exp2_monotone((u + 1) as nat, j as nat);
            let c = e + pw(j as nat) - pw((u + 1) as nat);
            let k = mid.lists()[u].len() - 1;
            assert(mid.lists()[u][k] == c);
            assert(mid.owner@[c] == c);
        }
        assert forall|i: int| 0 <= i < e + pw(j as nat) - pw(l as nat) implies #[trigger] start_frames[i] == mid.frames()[i] by {}
        self.lemma_join_back(mid.frames(), start_lists, start_frames, e, l, j);
    }

    /// Splitting a free block of order `l + 1` into halves, asking for both
    /// halves and giving them back, the upper one first, joins the halves
    /// back into the block: every free list ends as it was before the split,
    /// provided every pair of free buddies had been joined.
    #[verifier::spinoff_prover]
    #[verifier::rlimit(60)]
    pub proof fn lemma_split_halves_join(
        &self,
        r1: &Region,
        r2: &Region,
        r3: &Region,
        r4: &Region,
        r5: &Region,
        l: nat,
        hi: FrameInfo,
        lo: FrameInfo,
    )
        requires
            self.wf(),
            r1.wf(),
            r2.wf(),
            r3.wf(),
            r4.wf(),
            fully_merged(self.lists()),
            l + 1 < MAX_LEVEL,
            self.lists()[l as int].len() == 0,
            self.lists()[l + 1 as int].len() > 0,
            r1.lists() == split_lists(self.lists(), l as int, lowest_nonempty(self.lists(), l as int)),
            r1.usable() == self.usable(),
            r1.requested(r2, exp2(l), Some(hi)),
            r2.requested(r3, exp2(l), Some(lo)),
            r3.retrieved(r4, hi),
            r4.retrieved(r5, lo),
        ensures
            r5.lists() == self.lists(),
    {
        let pre = self.lists();
        let li = l as int;
        let kb = pre[li + 1].len() - 1;
        let b0 = pre[li + 1][kb] as int;
        let p = pw(l);
        self.lemma_entry(li + 1, kb);
        crate::lemma_log_of_exp2(l);
        assert(lowest_nonempty(pre, li + 1) == li + 1);
        assert(lowest_nonempty(pre, li) == li + 1);
        lemma_upper_buddy(b0, l, l + 1);
        let up = b0 + p;
        // after the split, the list of order l holds the lower half, then the upper one
        assert(r1.lists()[li] =~= seq![b0 as usize, up as usize]);
        assert(lowest_nonempty(r1.lists(), li) == li);
        assert(carved_head(r1.lists(), li, li) == up);
        assert(ilog2(exp2(l)) == l);
        assert(r1.can_request(exp2(l)));
        assert(r2.lists() == carve(r1.lists(), li, li));
        assert(carve(r1.lists(), li, li)[li] =~= seq![b0 as usize]);
        assert(carve(r1.lists(), li, li) =~= r1.lists().update(li, seq![b0 as usize]));
        assert(r2.lists() =~= r1.lists().update(li, seq![b0 as usize]));
        assert(lowest_nonempty(r2.lists(), li) == li);
        assert(carved_head(r2.lists(), li, li) == b0);
        assert(r2.can_request(exp2(l)));
        assert(r3.lists() == carve(r2.lists(), li, li));
        assert(carve(r2.lists(), li, li)[li] =~= Seq::<usize>::empty());
        assert(carve(r2.lists(), li, li) =~= r1.lists().update(li, Seq::<usize>::empty()));
        assert(r3.lists() =~= r1.lists().update(li, Seq::<usize>::empty()));
        assert(r3.frames()[up] == r2.frames()[up]);
        assert(r3.holds_block(hi));
        assert(hi.index - r3.start() == up);
        assert(r3.lvl(up) == l);
        // giving back the upper half: its buddy, the lower half, is still allocated
        let l3 = r3.lists().update(li, r3.lists()[li].push(up as usize));
        let f3 = r3.frames().update(up, cleared(r3.frames()[up]));
        assert(l3[li].last() == up);
        assert(f3[b0] == r3.frames()[b0]);
        assert(!merges_at(l3, f3, r3.usable(), li));
        assert(r4.lists() == l3);
        // giving back the lower half: its buddy, the upper half, is free on the list
        assert(r4.frames()[b0] == r3.frames()[b0]);
        assert(r4.holds_block(lo));
        assert(lo.index - r4.start() == b0);
        assert(r4.lvl(b0) == l);
        let l4 = r4.lists().update(li, r4.lists()[li].push(b0 as usize));
        let f4 = r4.frames().update(b0, cleared(r4.frames()[b0]));
        assert(r4.lists()[li] =~= seq![up as usize]);
        assert(r4.lists()[li][0] == up);
        assert(b0 % pw(l + 1) == 0);
        assert((b0 / p) % 2 == 0) by {
            let q = b0 / pw(l + 1);
            assert(b0 == q * pw(l + 1)) by (nonlinear_arith)
                requires b0 % pw(l + 1) == 0, pw(l + 1) > 0, q == b0 / pw(l + 1);
            assert(b0 == p * (2 * q)) by (nonlinear_arith)
                requires b0 == q * pw(l + 1), pw(l + 1) == 2 * p;
            vstd::arithmetic::div_mod::lemma_div_multiples_vanish(2 * q, p);
            assert(b0 / p == 2 * q);
        }
        assert(buddy_of(b0, l) == up);
        assert(l4[li] =~= seq![up as usize, b0 as usize]);
        assert(l4[li].contains(up as usize)) by {
            assert(l4[li][0] == up);
        }
        assert(f4[up] == r4.frames()[up]);
        assert(merges_at(l4, f4, r4.usable(), li));
        let pk = pos_of(l4[li], up as usize);
        assert(pk == 0);
        let joined = merged_lists(l4, li);
        assert(merge_low(l4, li) == b0);
        assert(joined[li] =~= pre[li]);
        assert(joined[li + 1] =~= pre[li + 1]);
        assert(joined =~= pre);
        if li + 2 < MAX_LEVEL {
            assert(!pre[li + 1].contains(buddy_of(pre[li + 1][kb] as int, (l + 1) as nat) as usize));
        }
        assert(coalesce(joined, merged_frames(f4, l4, li), r4.usable(), li + 1) == pre);
    }

    /// Putting a block on the free list of order `l` of a fully joined set of
    /// lists leaves all but that block's buddy fully joined.
    proof fn lemma_push_keeps_merged(lists: Seq<Seq<usize>>, l: int, h: usize)
        requires
            fully_merged(lists),
            0 <= l < MAX_LEVEL,
            lists.len() == MAX_LEVEL,
        ensures
            merged_except_head(lists.update(l, lists[l].push(h)), l),
    {
        let n = lists.update(l, lists[l].push(h));
        assert forall|t: int, k: int|
            0 <= t < MAX_LEVEL - 1 && 0 <= k < n[t].len() && !(t == l && k == n[t].len() - 1) implies
            !n[t].contains(#[trigger] buddy_of(n[t][k] as int, t as nat) as usize) || (t == l
                && buddy_of(n[t][k] as int, t as nat) as usize == n[t].last()) by {
            let x = n[t][k];
            assert(x == lists[t][k]);
            let bx = buddy_of(lists[t][k] as int, t as nat) as usize;
            assert(!lists[t].contains(bx));
            if n[t].contains(bx) {
                let k2 = choose|k2: int| 0 <= k2 < n[t].len() && n[t][k2] == bx;
                if !(t == l && k2 == n[t].len() - 1) {
                    assert(lists[t][k2] == bx);
                }
            }
        }
    }

    /// One joining step keeps all free blocks but the new head's buddy fully joined.
    proof fn lemma_merge_keeps_merged(&self, t: int)
        requires
            self.wf(),
            merged_except_head(self.lists(), t),
            merges_at(self.lists(), self.frames(), self.usable(), t),
        ensures
            merged_except_head(merged_lists(self.lists(), t), t + 1),
    {
        let ls = self.lists();
        let n = merged_lists(ls, t);
        let kl = ls[t].len() - 1;
        let m = ls[t][kl] as int;
        self.lemma_entry(t, kl);
        let b = buddy_of(m, t as nat);
        lemma_buddy_involution(m, t as nat);
        let pk = pos_of(ls[t], b as usize);
        assert(0 <= pk < ls[t].len() && ls[t][pk] == b);
        assert(ls[t].no_duplicates());
        assert(pk != kl);
        let rest = ls[t].remove(pk).drop_last();
        assert(n[t] == rest);
        assert forall|y: usize| rest.contains(y) implies ls[t].contains(y) && y != m && y != b by {
            let k = choose|k: int| 0 <= k < rest.len() && rest[k] == y;
            let k3 = if k < pk { k } else { k + 1 };
            assert(ls[t][k3] == y);
            assert(k3 != pk && k3 != kl);
        }
        assert forall|u: int, k: int|
            0 <= u < MAX_LEVEL - 1 && 0 <= k < n[u].len() && !(u == t + 1 && k == n[u].len() - 1) implies
            !n[u].contains(#[trigger] buddy_of(n[u][k] as int, u as nat) as usize) || (u == t + 1
                && buddy_of(n[u][k] as int, u as nat) as usize == n[u].last()) by {
            let x = n[u][k] as int;
            if u == t {
                assert(rest.contains(x as usize)) by {
                    assert(rest[k] == x);
                }
                let kx = choose|kx: int| 0 <= kx < ls[t].len() && ls[t][kx] == x as usize;
                assert(ls[t][kx] == x);
                assert(kx != kl);
                self.lemma_entry(t, kx);
                lemma_buddy_involution(x, t as nat);
                if buddy_of(x, t as nat) == m {
                    assert(x == b);
                }
                assert(!ls[t].contains(buddy_of(ls[t][kx] as int, t as nat) as usize));
            } else if u == t + 1 {
                assert(n[u] == ls[u].push(merge_low(ls, t) as usize));
                assert(n[u][k] == ls[u][k]);
                assert(!ls[u].contains(buddy_of(ls[u][k] as int, u as nat) as usize));
                if n[u].contains(buddy_of(x, u as nat) as usize) {
                    let k2 = choose|k2: int| 0 <= k2 < n[u].len() && n[u][k2] == buddy_of(x, u as nat) as usize;
                    if k2 < ls[u].len() {
                        assert(ls[u][k2] == n[u][k2]);
                    }
                }
            } else {
                assert(n[u] == ls[u]);
                assert(!ls[u].contains(buddy_of(ls[u][k] as int, u as nat) as usize));
            }
        }
    }

    /// When joining has stopped, every free block below the largest order is
    /// without a free buddy.
    proof fn lemma_stopped_merged(&self, t: int)
        requires
            self.wf(),
            0 <= t < MAX_LEVEL,
            self.lists()[t].len() > 0,
            merged_except_head(self.lists(), t),
            !merges_at(self.lists(), self.frames(), self.usable(), t),
        ensures
            fully_merged(self.lists()),
    {
        let ls = self.lists();
        let kl = ls[t].len() - 1;
        let m = ls[t][kl] as int;
        self.lemma_entry(t, kl);
        lemma_buddy_involution(m, t as nat);
        assert forall|u: int, k: int|
            0 <= u < MAX_LEVEL - 1 && 0 <= k < ls[u].len() implies !ls[u].contains(
                #[trigger] buddy_of(ls[u][k] as int, u as nat) as usize,
            ) by {
            let x = ls[u][k] as int;
            self.lemma_entry(u, k);
            lemma_buddy_involution(x, u as nat);
            let bx = buddy_of(x, u as nat);
            if ls[u].contains(bx as usize) {
                let k2 = choose|k2: int| 0 <= k2 < ls[u].len() && ls[u][k2] == bx as usize;
                self.lemma_entry(u, k2);
                if u == t && k == kl {
                    // the head's buddy is free on the list: joining would go on
                    assert(ls[t][k2] == bx);
                    assert(merges_at(ls, self.frames(), self.usable(), t));
                } else if u == t && bx == m {
                    assert(x == buddy_of(m, t as nat));
                    assert(ls[t][k] == x);
                    assert(merges_at(ls, self.frames(), self.usable(), t));
                } else {
                    assert(!(!ls[u].contains(bx as usize)));
                }
            }
        }
    }

    /// Carving a block out of fully joined lists leaves them fully joined.
    proof fn lemma_carve_keeps_merged(&self, l: int, j: int)
        requires
            self.wf(),
            fully_merged(self.lists()),
            0 <= l <= j < MAX_LEVEL,
            self.lists()[j].len() > 0,
        ensures
            fully_merged(carve(self.lists(), l, j)),
    {
        let pre = self.lists();
        let n = carve(pre, l, j);
        let kj = pre[j].len() - 1;
        let e = pre[j][kj] as int;
        self.lemma_entry(j, kj);
        assert forall|u: int, k: int|
            0 <= u < MAX_LEVEL - 1 && 0 <= k < n[u].len() implies !n[u].contains(
                #[trigger] buddy_of(n[u][k] as int, u as nat) as usize,
            ) by {
            let x = n[u][k] as int;
            let bx = buddy_of(x, u as nat);
            if u == j {
                assert(n[u][k] == pre[u][k]);
                assert(!pre[u].contains(buddy_of(pre[u][k] as int, u as nat) as usize));
                if n[u].contains(bx as usize) {
                    let k2 = choose|k2: int| 0 <= k2 < n[u].len() && n[u][k2] == bx as usize;
                    assert(pre[u][k2] == bx);
                }
            } else if l <= u < j {
                lemma_upper_buddy(e, u as nat, j as nat);
                let c = e + pw(j as nat) - pw((u + 1) as nat);
                let mt = e + pw(j as nat) - pw(u as nat);
                // mt lies inside the free block at e, so no free block of order u starts there
                assert(!pre[u].contains(mt as usize)) by {
                    if pre[u].contains(mt as usize) {
                        let k4 = choose|k4: int| 0 <= k4 < pre[u].len() && pre[u][k4] == mt as usize;
                        assert(self.lists()[u][k4] == mt);
                        assert(self.owner@[mt] == mt);
                        assert(self.lists()[j][kj] == e);
                        assert(self.owner@[e] == e);
                        assert(self.owner@[mt] == e);
                    }
                }
                lemma_upper_buddy(e, u as nat, j as nat);
                lemma_buddy_involution(c, u as nat);
                if k == pre[u].len() {
                    assert(x == c);
                    assert(bx == mt) by {
                        lemma_buddy_involution(mt, u as nat);
                    }
                    if n[u].contains(bx as usize) {
                        let k2 = choose|k2: int| 0 <= k2 < n[u].len() && n[u][k2] == bx as usize;
                        if k2 < pre[u].len() {
                            assert(pre[u][k2] == mt);
                        }
                    }
                } else {
                    assert(n[u][k] == pre[u][k]);
                    self.lemma_entry(u, k);
                    lemma_buddy_involution(x, u as nat);
                    assert(!pre[u].contains(buddy_of(pre[u][k] as int, u as nat) as usize));
                    if n[u].contains(bx as usize) {
                        let k2 = choose|k2: int| 0 <= k2 < n[u].len() && n[u][k2] == bx as usize;
                        if k2 < pre[u].len() {
                            assert(pre[u][k2] == bx);
                        } else {
                            assert(bx == c);
                            assert(x == mt) by {
                                lemma_buddy_involution(mt, u as nat);
                            }
                            assert(pre[u][k] == mt);
                        }
                    }
                }
            } else {
                assert(n[u] == pre[u]);
                assert(!pre[u].contains(buddy_of(pre[u][k] as int, u as nat) as usize));
            }
        }
    }

    /// In a region with no block allocated, as `new` makes it, the free lists
    /// hold all its frames: their blocks add up to the region's size, and
    /// every frame lies in exactly one free block.
    pub proof fn lemma_all_free(&self)
        requires
            self.wf(),
            forall|i: int| 0 <= i < self.usable() ==> (#[trigger] self.frames()[i]).flgs.bits == 0,
        ensures
            free_total(self.lists(), MAX_LEVEL as nat) == self.usable(),
            self.free_count() == self.usable(),
            forall|j: int|
                0 <= j < self.usable() ==> {
                    let o = #[trigger] self.owner_of(j);
                    &&& o <= j < o + exp2(self.lvl(o))
                    &&& self.lists()[self.lvl(o) as int].contains(o as usize)
                },
    {
        assert forall|i: int| 0 <= i < self.size implies !has_head(#[trigger] self.memory_map@[i].flgs.bits) by {
            assert(self.frames()[i].flgs.bits == 0);
            assert(0u32 & 4u32 == 0) by (bit_vector);
        }
        Self::lemma_alloc_total_zero(self.memory_map@, self.size as nat);
        self.lemma_frames_accounted();
        assert forall|j: int| 0 <= j < self.usable() implies {
            let o = #[trigger] self.owner_of(j);
            &&& o <= j < o + exp2(self.lvl(o))
            &&& self.lists()[self.lvl(o) as int].contains(o as usize)
        } by {
            let o = self.owner_of(j);
            assert(self.owner_of(o) == o);
            assert(!has_head(self.memory_map@[o].flgs.bits));
        }
    }

    /// What every frame record of a well-formed region holds.
    pub proof fn lemma_records(&self)
        requires
            self.wf(),
        ensures
            self.lists().len() == MAX_LEVEL,
            self.frames().len() == self.usable(),
            self.usable() > 0 ==> self.start() >= 1,
            forall|i: int|
                0 <= i < self.usable() ==> {
                    &&& (#[trigger] self.frames()[i]).index == self.start() + i
                    &&& self.frames()[i].direct_access == (self.start() + i) * page_bytes() + self.offset()
                    &&& self.frames()[i].count == 0
                    &&& !has_taken(self.frames()[i].flgs.bits)
                    &&& self.frames()[i].level < MAX_LEVEL
                },
    {
    }

    /// An allocated block lies inside the region.
    pub proof fn lemma_allocated_block(&self, h: int)
        requires
            self.wf(),
            0 <= h < self.usable(),
            self.is_allocated(h),
        ensures
            h + exp2(self.lvl(h)) <= self.usable(),
    {
        assert(self.owner@[h] == h);
    }

    /// A free block and an allocated block never share a frame.
    pub proof fn lemma_allocated_apart(&self, l: int, k: int, h: int)
        requires
            self.wf(),
            0 <= l < MAX_LEVEL,
            0 <= k < self.lists()[l].len(),
            0 <= h < self.usable(),
            self.is_allocated(h),
        ensures
            h + exp2(self.lvl(h)) <= self.usable(),
            self.lists()[l][k] + exp2(l as nat) <= h || h + exp2(self.lvl(h)) <= self.lists()[l][k],
    {
        let e = self.lists()[l][k] as int;
        assert(self.owner@[e] == e);
        assert(self.owner@[h] == h);
        if !(e + exp2(l as nat) <= h || h + exp2(self.lvl(h)) <= e) {
            let j = if e <= h { h } else { e };
            assert(self.owner@[j] == e);
            assert(self.owner@[j] == h);
        }
    }

    /// Two different free-list entries head blocks that share no frame.
    pub proof fn lemma_free_apart(&self, l1: int, k1: int, l2: int, k2: int)
        requires
            self.wf(),
            0 <= l1 < MAX_LEVEL,
            0 <= k1 < self.lists()[l1].len(),
            0 <= l2 < MAX_LEVEL,
            0 <= k2 < self.lists()[l2].len(),
            l1 != l2 || k1 != k2,
        ensures
            self.lists()[l1][k1] + exp2(l1 as nat) <= self.lists()[l2][k2] || self.lists()[l2][k2]
                + exp2(l2 as nat) <= self.lists()[l1][k1],
    {
        let a = self.lists()[l1][k1] as int;
        let b = self.lists()[l2][k2] as int;
        assert(self.owner@[a] == a);
        assert(self.owner@[b] == b);
        if a == b {
            assert(self.lists()[l1].no_duplicates());
        }
        if !(a + exp2(l1 as nat) <= b || b + exp2(l2 as nat) <= a) {
            let j = if a <= b { b } else { a };
            assert(self.owner@[j] == a);
            assert(self.owner@[j] == b);
        }
    }
}

/// The highest index below `k` of a region that can serve a request for `n`
/// frames, or `-1`.
pub open spec fn serving_region(regions: Seq<Region>, n: nat, k: int) -> int
    decreases k,
{
    if k <= 0 {
        -1
    } else if regions[k - 1].can_request(n) {
        k - 1
    } else {
        serving_region(regions, n, k - 1)
    }
}

/// The highest index below `k` of a region whose usable frames include the
/// frame with global index `idx`, or `-1`.
pub open spec fn owning_region(regions: Seq<Region>, idx: nat, k: int) -> int
    decreases k,
{
    if k <= 0 {
        -1
    } else if regions[k - 1].start() <= idx < regions[k - 1].start() + regions[k - 1].usable() {
        k - 1
    } else {
        owning_region(regions, idx, k - 1)
    }
}

/// Two regions cover disjoint frames and map physical memory at one offset.
pub open spec fn regions_apart(a: Region, b: Region) -> bool {
    &&& (a.start() + a.usable() <= b.start() || b.start() + b.usable() <= a.start())
    &&& a.offset() == b.offset()
}

/// What `alloc_frames(n)` does: the last registered region that can serve
/// the request serves it, the others stay as they were; `None` when no
/// region can serve it.
pub open spec fn alloc_step(pre: &SimpleFrameAllocator, post: &SimpleFrameAllocator, n: nat, r: Option<FrameInfo>) -> bool {
    let i = serving_region(pre.regions(), n, pre.regions().len() as int);
    &&& post.wf()
    &&& post.regions().len() == pre.regions().len()
    &&& i < 0 ==> r.is_none()
    &&& 0 <= i ==> pre.regions()[i].requested(&post.regions()[i], n, r) && r.is_some()
    &&& forall|t: int| 0 <= t < pre.regions().len() && t != i ==> #[trigger] post.regions()[t].same_as(&pre.regions()[t])
}

/// A frame allocator over a small fixed set of regions.
pub struct SimpleFrameAllocator {
    regions: Vec<Region>,
    region_num: usize,
}

impl SimpleFrameAllocator {
    /// The registered regions, in order of registration.
    pub closed spec fn regions(&self) -> Seq<Region> {
        self.regions@
    }

    pub closed spec fn wf(&self) -> bool {
        &&& self.regions@.len() == self.region_num
        &&& self.region_num <= MAX_REGION_NUM
        &&& forall|i: int| 0 <= i < self.region_num ==> (#[trigger] self.regions@[i]).wf()
        &&& forall|i: int, j: int|
            0 <= i < self.region_num && 0 <= j < self.region_num && i != j ==> regions_apart(
                #[trigger] self.regions@[i],
                #[trigger] self.regions@[j],
            )
    }

    /// The registered regions cover disjoint frames and map physical memory
    /// at one offset.
    pub proof fn lemma_regions_apart(&self)
        requires
            self.wf(),
        ensures
            forall|i: int| 0 <= i < self.regions().len() ==> (#[trigger] self.regions()[i]).wf(),
            forall|i: int, j: int|
                0 <= i < self.regions().len() && 0 <= j < self.regions().len() && i != j ==> regions_apart(
                    #[trigger] self.regions()[i],
                    #[trigger] self.regions()[j],
                ),
    {
    }

    /// An allocator with no region.
    pub fn new() -> (r: SimpleFrameAllocator)
        ensures
            r.wf(),
            r.regions().len() == 0,
    {
        SimpleFrameAllocator { regions: Vec::new(), region_num: 0 }
    }

    /// Adds `region` after the ones registered so far.
    pub fn register_region(&mut self, region: Region)
        requires
            old(self).wf(),
            old(self).regions().len() < MAX_REGION_NUM,
            region.wf(),
            forall|t: int| 0 <= t < old(self).regions().len() ==> regions_apart(#[trigger] old(self).regions()[t], region),
        ensures
            final(self).wf(),
            final(self).regions() == old(self).regions().push(region),
    {
        self.regions.push(region);
        self.region_num = self.region_num + 1;
    }

    /// Allocates `frame_num` frames from the last registered region that can
    /// serve the request.
    pub fn alloc_frames(&mut self, frame_num: usize) -> (r: Option<FrameInfo>)
        requires
            old(self).wf(),
        ensures
            alloc_step(old(self), final(self), frame_num as nat, r),
    {
        let ghost pre = self.regions@;
        let mut k: usize = self.region_num;
        while k > 0
            invariant
                self.wf(),
                k <= self.region_num,
                self.regions@.len() == pre.len(),
                pre == old(self).regions@,
                serving_region(pre, frame_num as nat, pre.len() as int) == serving_region(pre, frame_num as nat, k as int),
                forall|t: int| 0 <= t < pre.len() ==> #[trigger] self.regions@[t].same_as(&pre[t]),
            decreases k,
        {
            let ghost before = self.regions@;
            proof {
                assert(self.regions@[k - 1].same_as(&pre[k - 1]));
            }
            let r = self.regions[k - 1].request_frames(frame_num);
            proof {
                assert(before[k - 1].lists() == pre[k - 1].lists());
                assert(before[k - 1].usable() == pre[k - 1].usable());
                assert(before[k - 1].can_request(frame_num as nat) == pre[k - 1].can_request(frame_num as nat));
            }
            if r.is_some() {
                proof {
                    assert(before[k - 1].same_as(&pre[k - 1]));
                    assert forall|t: int| 0 <= t < pre.len() && t != k - 1 implies #[trigger] self.regions@[t].same_as(&pre[t]) by {
                        assert(self.regions@[t] == before[t]);
                    }
                }
                return r;
            }
            proof {
                assert forall|t: int| 0 <= t < pre.len() implies #[trigger] self.regions@[t].same_as(&pre[t]) by {
                    if t != k - 1 {
                        assert(self.regions@[t] == before[t]);
                    }
                }
            }
            k = k - 1;
        }
        None
    }

    /// Gives back the block that `frame_info` heads to the region whose
    /// usable frames include it; a record that no region holds is ignored.
    pub fn dealloc_frame(&mut self, frame_info: &FrameInfo)
        requires
            old(self).wf(),
        ensures
            final(self).wf(),
            final(self).regions().len() == old(self).regions().len(),
            ({
                let i = owning_region(old(self).regions(), frame_info.index as nat, old(self).regions().len() as int);
                &&& 0 <= i ==> old(self).regions()[i].retrieved(&final(self).regions()[i], *frame_info)
                &&& forall|t: int| 0 <= t < old(self).regions().len() && t != i ==> #[trigger] final(self).regions()[t] == old(self).regions()[t]
            }),
    {
        let idx = frame_info.get_index();
        let mut k: usize = self.region_num;
        while k > 0
            invariant
                self.wf(),
                k <= self.region_num,
                self.regions@ == old(self).regions@,
                idx == frame_info.index,
                owning_region(old(self).regions@, idx as nat, old(self).regions@.len() as int) == owning_region(old(self).regions@, idx as nat, k as int),
            decreases k,
        {
            let start = self.regions[k - 1].start_frame_idx;
            let size = self.regions[k - 1].size;
            if start <= idx && idx - start < size {
                let ghost before = self.regions@;
                proof {
                    assert(owning_region(before, idx as nat, k as int) == k - 1);
                }
                self.regions[k - 1].retrieve_frame(frame_info);
                proof {
                    assert forall|t: int| 0 <= t < before.len() && t != k - 1 implies #[trigger] self.regions@[t] == before[t] by {}
                    assert forall|t: int| 0 <= t < old(self).regions().len() && t != k - 1 implies #[trigger] self.regions()[t] == old(self).regions()[t] by {
                        assert(self.regions@[t] == before[t]);
                    }
                }
                return;
            }
            k = k - 1;
        }
    }

    /// The region registered `i`-th.
    pub fn region(&self, i: usize) -> (r: &Region)
        requires
            self.wf(),
            i < self.regions().len(),
        ensures
            *r == self.regions()[i as int],
            r.wf(),
    {
        &self.regions[i]
    }

    /// The number of registered regions.
    pub fn region_num(&self) -> (r: usize)
        requires
            self.wf(),
        ensures
            r == self.regions().len(),
    {
        self.region_num
    }

    /// Allocates one frame; hands back its physical address.
    pub fn allocate_frame(&mut self) -> (r: Option<u64>)
        requires
            old(self).wf(),
        ensures
            final(self).wf(),
            final(self).regions().len() == old(self).regions().len(),
            ({
                let i = serving_region(old(self).regions(), 1, old(self).regions().len() as int);
                &&& i < 0 ==> r.is_none()
                &&& 0 <= i ==> exists|f: FrameInfo| #[trigger] old(self).regions()[i].requested(&final(self).regions()[i], 1, Some(f)) && r == Some((f.index * page_bytes()) as u64)
                &&& forall|t: int| 0 <= t < old(self).regions().len() && t != i ==> #[trigger] final(self).regions()[t].same_as(&old(self).regions()[t])
            }),
    {
        match self.alloc_frames(1) {
            Some(frame_info) => {
                let page_size = small_page_size();
                let addr = frame_info.get_index() * page_size;
                Some(addr as u64)
            },
            None => None,
        }
    }
}

/// `fa` holds `g` as the first record of an allocated block of `n` frames,
/// unchanged since it was handed out.
pub open spec fn holds_grant(fa: &SimpleFrameAllocator, g: FrameInfo, n: nat) -> bool {
    exists|i: int|
        0 <= i < fa.regions().len() && #[trigger] fa.regions()[i].holds_block(g) && exp2(
            fa.regions()[i].lvl(g.index - fa.regions()[i].start()),
        ) == n && fa.regions()[i].frames()[g.index - fa.regions()[i].start()] == g
}

/// A block handed out stays held through later requests.
pub proof fn lemma_grant_kept(pre: &SimpleFrameAllocator, post: &SimpleFrameAllocator, n: nat, r: Option<FrameInfo>, g: FrameInfo)
    requires
        pre.wf(),
        alloc_step(pre, post, n, r),
        holds_grant(pre, g, n),
    ensures
        holds_grant(post, g, n),
{
    let i = choose|i: int|
        0 <= i < pre.regions().len() && #[trigger] pre.regions()[i].holds_block(g) && exp2(
            pre.regions()[i].lvl(g.index - pre.regions()[i].start()),
        ) == n && pre.regions()[i].frames()[g.index - pre.regions()[i].start()] == g;
    let s = serving_region(pre.regions(), n, pre.regions().len() as int);
    let h = g.index - pre.regions()[i].start();
    if i == s {
        assert(post.regions()[i].frames()[h] == pre.regions()[i].frames()[h]);
    } else {
        assert(post.regions()[i].same_as(&pre.regions()[i]));
    }
    assert(post.regions()[i].holds_block(g));
}

/// The last registered region that serves a request is one of the regions.
proof fn lemma_serving_region(regions: Seq<Region>, n: nat, k: int)
    requires
        0 <= k <= regions.len(),
    ensures
        -1 <= serving_region(regions, n, k) < k,
        serving_region(regions, n, k) >= 0 ==> regions[serving_region(regions, n, k)].can_request(n),
    decreases k,
{
    if k > 0 {
        lemma_serving_region(regions, n, k - 1);
    }
}

/// A block just handed out is held by the allocator after the request.
#[verifier::spinoff_prover]
#[verifier::rlimit(40)]
pub proof fn lemma_grant_held(pre: &SimpleFrameAllocator, post: &SimpleFrameAllocator, n: nat, f: FrameInfo)
    requires
        pre.wf(),
        alloc_step(pre, post, n, Some(f)),
    ensures
        holds_grant(post, f, n),
        n >= 1,
        f.direct_access >= page_bytes(),
        f.direct_access + n * page_bytes() <= usize::MAX,
{
    let len = pre.regions().len() as int;
    let s = serving_region(pre.regions(), n, len);
    lemma_serving_region(pre.regions(), n, len);
    let rs = pre.regions()[s];
    let l = ilog2(n) as int;
    let j = lowest_nonempty(rs.lists(), l);
    Region::lemma_lowest(rs.lists(), l);
    crate::lemma_exp2_of_log(n);
    crate::lemma_exp2_monotone(0, l as nat);
    let e = carved_head(rs.lists(), l, j);
    let ps = post.regions()[s];
    assert(ps.frames()[e] == f);
    assert(post.regions()[s].holds_block(f));
    assert(exp2(ps.lvl(f.index - ps.start())) == n);
}

/// A block just handed out is held, and shares no address with any block
/// held before the request.
#[verifier::spinoff_prover]
#[verifier::rlimit(40)]
pub proof fn lemma_grant_apart(pre: &SimpleFrameAllocator, post: &SimpleFrameAllocator, n: nat, f: FrameInfo, g: FrameInfo)
    requires
        pre.wf(),
        alloc_step(pre, post, n, Some(f)),
        holds_grant(pre, g, n),
    ensures
        holds_grant(post, f, n),
        n >= 1,
        f.direct_access >= page_bytes(),
        f.direct_access + n * page_bytes() <= g.direct_access || g.direct_access + n * page_bytes()
            <= f.direct_access,
{
    let len = pre.regions().len() as int;
    let s = serving_region(pre.regions(), n, len);
    lemma_serving_region(pre.regions(), n, len);
    let rs = pre.regions()[s];
    let l = ilog2(n) as int;
    let j = lowest_nonempty(rs.lists(), l);
    Region::lemma_lowest(rs.lists(), l);
    let kj = rs.lists()[j].len() - 1;
    let e0 = rs.lists()[j][kj] as int;
    pre.lemma_regions_apart();
    rs.lemma_entry(j, kj);
    crate::lemma_exp2_of_log(n);
    crate::lemma_exp2_monotone(l as nat, j as nat);
    let e = carved_head(rs.lists(), l, j);
    let ps = post.regions()[s];
    lemma_head_bit(0);
    assert(ps.frames()[e] == f);
    assert(ps.holds_block(f));
    assert(post.regions()[s].holds_block(f));
    assert(exp2(ps.lvl(f.index - ps.start())) == n);
    let i = choose|i: int|
        0 <= i < pre.regions().len() && #[trigger] pre.regions()[i].holds_block(g) && exp2(
            pre.regions()[i].lvl(g.index - pre.regions()[i].start()),
        ) == n && pre.regions()[i].frames()[g.index - pre.regions()[i].start()] == g;
    let ri = pre.regions()[i];
    let h = g.index - ri.start();
    ri.lemma_records();
    assert(g.direct_access == g.index * page_bytes() + ri.offset());
    if i == s {
        rs.lemma_allocated_apart(j, kj, h);
        assert(f.index + n <= g.index || g.index + n <= f.index);
    } else {
        assert(regions_apart(pre.regions()[s], pre.regions()[i]));
        ri.lemma_allocated_block(h);
        assert(e + n == e0 + exp2(j as nat));
        assert(f.index + n <= g.index || g.index + n <= f.index);
    }
    assert(f.direct_access == f.index * page_bytes() + rs.offset());
    assert(f.index * page_bytes() + n * page_bytes() <= g.index * page_bytes() || g.index * page_bytes()
        + n * page_bytes() <= f.index * page_bytes()) by (nonlinear_arith)
        requires f.index + n <= g.index || g.index + n <= f.index, page_bytes() == 4096;
}

} // verus!
