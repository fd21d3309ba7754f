use crate::data_structures::{FrameInfo, LinkedList, LinkedListNode};
use crate::frame_allocator::{
    alloc_step, holds_grant, lemma_grant_apart, lemma_grant_held, lemma_grant_kept, page_bytes,
    serving_region, small_page_size, SimpleFrameAllocator,
};
use vstd::prelude::*;

verus! {

/// The number of object size classes.
pub const LEVEL_NUM: usize = 8;

/// The size in bytes of the objects of class `c`: 32, 64, ..., 4096.
pub open spec fn class_bytes(c: int) -> int {
    if c == 0 {
        32
    } else if c == 1 {
        64
    } else if c == 2 {
        128
    } else if c == 3 {
        256
    } else if c == 4 {
        512
    } else if c == 5 {
        1024
    } else if c == 6 {
        2048
    } else {
        4096
    }
}

/// The size in bytes of the objects of class `c`.
pub fn size_level(c: usize) -> (r: usize)
    requires
        c < LEVEL_NUM,
    ensures
        r == class_bytes(c as int),
{
    match c {
        0 => 32,
        1 => 64,
        2 => 128,
        3 => 256,
        4 => 512,
        5 => 1024,
        6 => 2048,
        _ => 4096,
    }
}

/// The smallest class from `c` on whose objects hold `size` bytes, or
/// `LEVEL_NUM` when none does.
pub open spec fn class_from(size: nat, c: int) -> int
    decreases LEVEL_NUM - c,
{
    if c >= LEVEL_NUM {
        LEVEL_NUM as int
    } else if size <= class_bytes(c) {
        c
    } else {
        class_from(size, c + 1)
    }
}

/// The smallest class whose objects hold `size` bytes, or `LEVEL_NUM`.
pub open spec fn class_of(size: nat) -> int {
    class_from(size, 0)
}

/// The address `malloc(size)` hands out, and the free lists after it: the
/// head of the list of the smallest class that fits, or null (zero) with
/// nothing changed when the size fits no class or that list is empty.
pub open spec fn malloc_result(classes: Seq<Seq<usize>>, size: nat) -> (usize, Seq<Seq<usize>>) {
    let c = class_of(size);
    if c >= LEVEL_NUM || classes[c].len() == 0 {
        (0, classes)
    } else {
        (classes[c].last(), classes.update(c, classes[c].drop_last()))
    }
}

/// The free lists after `free(ptr, size)`: `ptr` goes to the head of the list
/// of the class that `size` selects; a size that fits no class changes nothing.
pub open spec fn free_result(classes: Seq<Seq<usize>>, ptr: usize, size: nat) -> Seq<Seq<usize>> {
    let c = class_of(size);
    if c >= LEVEL_NUM {
        classes
    } else {
        classes.update(c, classes[c].push(ptr))
    }
}

/// The slots of class `c` carved from a block of `frames` frames at `base`,
/// in address order.
pub open spec fn slots(base: int, c: int, frames: nat) -> Seq<usize> {
    Seq::new(
        ((frames * page_bytes()) as int / class_bytes(c)) as nat,
        |i: int| (base + i * class_bytes(c)) as usize,
    )
}

/// No address is free twice, within a class or across classes.
pub open spec fn distinct_free(classes: Seq<Seq<usize>>) -> bool {
    forall|c1: int, k1: int, c2: int, k2: int|
        0 <= c1 < LEVEL_NUM && 0 <= c2 < LEVEL_NUM && 0 <= k1 < classes[c1].len() && 0 <= k2
            < classes[c2].len() && (c1 != c2 || k1 != k2) ==> #[trigger] classes[c1][k1]
            != #[trigger] classes[c2][k2]
}

/// `ptr` is on the free list of some class.
pub open spec fn free_somewhere(classes: Seq<Seq<usize>>, ptr: usize) -> bool {
    exists|c: int| 0 <= c < LEVEL_NUM && #[trigger] classes[c].contains(ptr)
}

/// The blocks of `n` frames that `f` and `g` head share no address.
pub open spec fn spans_apart(f: FrameInfo, g: FrameInfo, n: nat) -> bool {
    f.direct_access + n * page_bytes() <= g.direct_access || g.direct_access + n * page_bytes()
        <= f.direct_access
}

/// Object `k` of class `c` in a block of `n` frames at `d` lies inside that block.
proof fn lemma_slot_in_block(d: int, c: int, n: nat, k: int)
    requires
        0 <= c < LEVEL_NUM,
        0 <= k < slots(d, c, n).len(),
        d >= 0,
        d + n * page_bytes() <= usize::MAX,
    ensures
        slots(d, c, n)[k] as int == d + k * class_bytes(c),
        d <= slots(d, c, n)[k] < d + n * page_bytes(),
{
    let size = class_bytes(c);
    assert(size >= 32);
    let cnt = (n * page_bytes()) as int / size;
    assert(k * size < n * page_bytes()) by (nonlinear_arith)
        requires k < cnt, cnt == (n * page_bytes()) as int / size, size >= 32, k >= 0;
    assert(k * size >= 0) by (nonlinear_arith) requires k >= 0, size >= 32;
}

/// Putting an address that is free nowhere on a list keeps the free
/// addresses distinct.
proof fn lemma_push_distinct(before: Seq<Seq<usize>>, c: int, x: usize)
    requires
        before.len() == LEVEL_NUM,
        0 <= c < LEVEL_NUM,
        distinct_free(before),
        !free_somewhere(before, x),
    ensures
        distinct_free(before.update(c, before[c].push(x))),
{
    let after = before.update(c, before[c].push(x));
    assert forall|c1: int, k1: int, c2: int, k2: int|
        0 <= c1 < LEVEL_NUM && 0 <= c2 < LEVEL_NUM && 0 <= k1 < after[c1].len() && 0 <= k2
            < after[c2].len() && (c1 != c2 || k1 != k2) implies #[trigger] after[c1][k1]
            != #[trigger] after[c2][k2] by {
        let new1 = c1 == c && k1 == before[c].len();
        let new2 = c2 == c && k2 == before[c].len();
        if !new1 && !new2 {
            assert(after[c1][k1] == before[c1][k1]);
            assert(after[c2][k2] == before[c2][k2]);
        } else if new1 && !new2 {
            assert(after[c2][k2] == before[c2][k2]);
            assert(before[c2].contains(before[c2][k2]));
        } else if new2 && !new1 {
            assert(after[c1][k1] == before[c1][k1]);
            assert(before[c1].contains(before[c1][k1]));
        }
    }
}

/// Taking the head of a list keeps the free addresses distinct.
proof fn lemma_pop_distinct(before: Seq<Seq<usize>>, c: int)
    requires
        before.len() == LEVEL_NUM,
        0 <= c < LEVEL_NUM,
        before[c].len() > 0,
        distinct_free(before),
    ensures
        distinct_free(before.update(c, before[c].drop_last())),
{
    let after = before.update(c, before[c].drop_last());
    assert forall|c1: int, k1: int, c2: int, k2: int|
        0 <= c1 < LEVEL_NUM && 0 <= c2 < LEVEL_NUM && 0 <= k1 < after[c1].len() && 0 <= k2
            < after[c2].len() && (c1 != c2 || k1 != k2) implies #[trigger] after[c1][k1]
            != #[trigger] after[c2][k2] by {
        assert(after[c1][k1] == before[c1][k1]);
        assert(after[c2][k2] == before[c2][k2]);
    }
}

/// The objects a class gets from the block `g` granted for it: none when no
/// block was granted.
pub open spec fn class_fill(g: Option<FrameInfo>, c: int, frames: nat) -> Seq<usize> {
    match g {
        Some(f) => slots(f.direct_access as int, c, frames),
        None => Seq::<usize>::empty(),
    }
}

/// `post` and `classes` are what asking `pre` for a block of `frames` frames
/// once per class, from the smallest class on, leaves: `states` are the
/// frame allocator before and after each request and `grants` its answers,
/// and each class holds the objects of its block.
pub open spec fn heap_built(
    pre: SimpleFrameAllocator,
    post: SimpleFrameAllocator,
    classes: Seq<Seq<usize>>,
    frames: nat,
    states: Seq<SimpleFrameAllocator>,
    grants: Seq<Option<FrameInfo>>,
) -> bool {
    &&& states.len() == LEVEL_NUM + 1
    &&& grants.len() == LEVEL_NUM
    &&& states[0] == pre
    &&& states[LEVEL_NUM as int] == post
    &&& classes.len() == LEVEL_NUM
    &&& forall|c: int|
        0 <= c < LEVEL_NUM ==> alloc_step(&states[c], &states[c + 1], frames, #[trigger] grants[c])
            && classes[c] == class_fill(grants[c], c, frames)
}

/// The class that `size` selects is the smallest that holds it.
pub proof fn lemma_class_is_smallest(size: nat)
    ensures
        0 <= class_of(size) <= LEVEL_NUM,
        class_of(size) < LEVEL_NUM ==> size <= class_bytes(class_of(size)),
        forall|c: int| 0 <= c < class_of(size) ==> class_bytes(c) < size,
        class_of(size) == LEVEL_NUM <==> size > 4096,
{
    assert(class_of(size) == class_from(size, 0));
    reveal_with_fuel(class_from, 9);
}

/// Freeing an object and then asking for any size of the same class hands
/// the same object back and leaves the free lists as they were: no frame is
/// taken for it.
pub proof fn lemma_free_then_malloc(classes: Seq<Seq<usize>>, ptr: usize, s1: nat, s2: nat)
    requires
        classes.len() == LEVEL_NUM,
        class_of(s1) < LEVEL_NUM,
        class_of(s2) == class_of(s1),
    ensures
        malloc_result(free_result(classes, ptr, s1), s2) == (ptr, classes),
{
    let c = class_of(s1);
    lemma_class_is_smallest(s1);
    assert(free_result(classes, ptr, s1)[c] == classes[c].push(ptr));
    assert(classes[c].push(ptr).drop_last() =~= classes[c]);
    assert(free_result(classes, ptr, s1).update(c, classes[c].push(ptr).drop_last()) =~= classes);
}

/// A heap of fixed-size objects in eight size classes, whose memory comes
/// from a frame allocator when the heap is made.
pub struct KernelHeapAllocator {
    pre_alloc_memory: Vec<LinkedList>,
    frame_allocator: SimpleFrameAllocator,
}

impl KernelHeapAllocator {
    /// The free objects of each class, each list from its oldest entry to its head.
    pub closed spec fn classes(&self) -> Seq<Seq<usize>> {
        self.pre_alloc_memory@.map_values(|l: LinkedList| l@)
    }

    /// The frame allocator the heap took its memory from.
    pub closed spec fn backing(&self) -> SimpleFrameAllocator {
        self.frame_allocator
    }

    pub closed spec fn wf(&self) -> bool {
        &&& self.pre_alloc_memory@.len() == LEVEL_NUM
        &&& forall|c: int| 0 <= c < LEVEL_NUM ==> (#[trigger] self.pre_alloc_memory@[c]).wf()
        &&& forall|c: int, k: int|
            0 <= c < LEVEL_NUM && 0 <= k < self.classes()[c].len() ==> #[trigger] self.classes()[c][k] != 0
        &&& distinct_free(self.classes())
    }

    /// A well-formed heap has one free list per class, no free object at
    /// address zero, the null result, and no address free twice.
    pub proof fn lemma_classes(&self)
        requires
            self.wf(),
        ensures
            self.classes().len() == LEVEL_NUM,
            forall|c: int, k: int|
                0 <= c < LEVEL_NUM && 0 <= k < self.classes()[c].len() ==> #[trigger] self.classes()[c][k] != 0,
            distinct_free(self.classes()),
    {
    }

    /// A heap over `frame_allocator` that, class by class from the smallest,
    /// asks the frame allocator for a block of `pre_alloc_frame_num` frames
    /// and cuts it into objects of that class. A class whose block could not
    /// be had stays empty.
    pub fn new(frame_allocator: SimpleFrameAllocator, pre_alloc_frame_num: usize) -> (r: KernelHeapAllocator)
        requires
            frame_allocator.wf(),
        ensures
            r.wf(),
            r.backing().wf(),
            r.classes().len() == LEVEL_NUM,
            distinct_free(r.classes()),
            exists|states: Seq<SimpleFrameAllocator>, grants: Seq<Option<FrameInfo>>|
                heap_built(frame_allocator, r.backing(), r.classes(), pre_alloc_frame_num as nat, states, grants),
    {
        let mut pre_alloc_memory: Vec<LinkedList> = Vec::new();
        let mut c: usize = 0;
        while c < LEVEL_NUM
            invariant
                c <= LEVEL_NUM,
                pre_alloc_memory@.len() == c,
                forall|t: int| 0 <= t < c ==> (#[trigger] pre_alloc_memory@[t]).wf() && pre_alloc_memory@[t]@.len() == 0,
            decreases LEVEL_NUM - c,
        {
            pre_alloc_memory.push(LinkedList::new());
            c = c + 1;
        }
        let mut kallocator = KernelHeapAllocator { pre_alloc_memory, frame_allocator };
        proof {
            assert forall|t: int| 0 <= t < LEVEL_NUM implies #[trigger] kallocator.classes()[t].len() == 0 by {}
        }
        kallocator.init(pre_alloc_frame_num);
        kallocator
    }

    /// Fills each class, from the smallest, with the objects of one block of
    /// `pre_alloc_frame_num` frames.
    #[verifier::spinoff_prover]
    #[verifier::rlimit(60)]
    fn init(&mut self, pre_alloc_frame_num: usize)
        requires
            old(self).wf(),
            old(self).frame_allocator.wf(),
            forall|c: int| 0 <= c < LEVEL_NUM ==> #[trigger] old(self).classes()[c].len() == 0,
        ensures
            final(self).wf(),
            final(self).frame_allocator.wf(),
            exists|states: Seq<SimpleFrameAllocator>, grants: Seq<Option<FrameInfo>>|
                heap_built(old(self).frame_allocator, final(self).frame_allocator, final(self).classes(), pre_alloc_frame_num as nat, states, grants),
    {
        let n = pre_alloc_frame_num;
        let ghost states: Seq<SimpleFrameAllocator> = seq![self.frame_allocator];
        let ghost grants: Seq<Option<FrameInfo>> = Seq::empty();
        let mut level: usize = 0;
        while level < LEVEL_NUM
            invariant
                level <= LEVEL_NUM,
                self.wf(),
                self.frame_allocator.wf(),
                states.len() == level + 1,
                grants.len() == level,
                states[0] == old(self).frame_allocator,
                states[level as int] == self.frame_allocator,
                forall|c: int|
                    0 <= c < level ==> alloc_step(&states[c], &states[c + 1], n as nat, #[trigger] grants[c])
                        && self.classes()[c] == class_fill(grants[c], c, n as nat),
                forall|c: int| level <= c < LEVEL_NUM ==> #[trigger] self.classes()[c].len() == 0,
                forall|c: int|
                    0 <= c < level && (#[trigger] grants[c]).is_some() ==> holds_grant(&states[level as int], grants[c].unwrap(), n as nat)
                        && grants[c].unwrap().direct_access >= page_bytes() && grants[c].unwrap().direct_access + n * page_bytes() <= usize::MAX,
                forall|c1: int, c2: int|
                    0 <= c1 < level && 0 <= c2 < level && c1 != c2 && (#[trigger] grants[c1]).is_some() && (#[trigger] grants[c2]).is_some()
                        ==> spans_apart(grants[c1].unwrap(), grants[c2].unwrap(), n as nat),
            decreases LEVEL_NUM - level,
        {
            let page_size = small_page_size();
            let pre_alloc_size = size_level(level);
            let ghost classes_before = self.classes();
            proof {
                assert(classes_before[level as int].len() == 0);
            }
            let got = self.frame_allocator.alloc_frames(n);
            proof {
                assert(self.classes() == classes_before);
                let pre_fa = states[level as int];
                states = states.push(self.frame_allocator);
                grants = grants.push(got);
                assert forall|c: int| 0 <= c < level && (#[trigger] grants[c]).is_some() implies holds_grant(&states[level + 1], grants[c].unwrap(), n as nat) by {
                    lemma_grant_kept(&pre_fa, &states[level + 1], n as nat, got, grants[c].unwrap());
                }
                if got.is_some() {
                    lemma_grant_held(&pre_fa, &states[level + 1], n as nat, got.unwrap());
                    assert forall|c: int| 0 <= c < level && (#[trigger] grants[c]).is_some() implies spans_apart(grants[c].unwrap(), got.unwrap(), n as nat) by {
                        lemma_grant_apart(&pre_fa, &states[level + 1], n as nat, got.unwrap(), grants[c].unwrap());
                    }
                }
            }
            if let Some(frame_info) = got {
                let base_vir_addr = frame_info.get_direct_access();
                proof {
                    let pre = states[level as int];
                    let i = serving_region(pre.regions(), n as nat, pre.regions().len() as int);
                    assert(0 <= i);
                    assert(pre.regions()[i].requested(&states[level + 1].regions()[i], n as nat, got));
                }
                let obj_num = (page_size * n) / pre_alloc_size;
                let ghost want = slots(base_vir_addr as int, level as int, n as nat);
                proof {
                    assert(want.subrange(0, 0) =~= self.classes()[level as int]);
                }
                let mut i: usize = 0;
                while i < obj_num
                    invariant
                        i <= obj_num,
                        obj_num == (page_size * n) as int / (pre_alloc_size as int),
                        pre_alloc_size == class_bytes(level as int),
                        page_size == page_bytes(),
                        base_vir_addr + n * page_bytes() <= usize::MAX,
                        base_vir_addr >= page_bytes(),
                        want == slots(base_vir_addr as int, level as int, n as nat),
                        level < LEVEL_NUM,
                        self.wf(),
                        self.frame_allocator.wf(),
                        self.frame_allocator == states[level + 1],
                        self.classes()[level as int] == want.subrange(0, i as int),
                        forall|c: int| 0 <= c < LEVEL_NUM && c != level ==> #[trigger] self.classes()[c] == classes_before[c],
                        grants.len() == level + 1,
                        grants[level as int] == Some(frame_info),
                        base_vir_addr == frame_info.direct_access,
                        forall|c: int| 0 <= c < level ==> #[trigger] classes_before[c] == class_fill(grants[c], c, n as nat),
                        forall|c: int| level < c < LEVEL_NUM ==> (#[trigger] classes_before[c]).len() == 0,
                        forall|c: int|
                            0 <= c < level && (#[trigger] grants[c]).is_some() ==> spans_apart(grants[c].unwrap(), frame_info, n as nat)
                                && grants[c].unwrap().direct_access + n * page_bytes() <= usize::MAX,
                    decreases obj_num - i,
                {
                    proof {
                        assert(i * pre_alloc_size < page_size * n) by (nonlinear_arith)
                            requires i < obj_num, obj_num == (page_size * n) as int / (pre_alloc_size as int), pre_alloc_size >= 32;
                    }
                    let virt_addr = base_vir_addr + i * pre_alloc_size;
                    let ghost before = self.classes();
                    proof {
                        lemma_slot_in_block(base_vir_addr as int, level as int, n as nat, i as int);
                        assert forall|c: int| 0 <= c < LEVEL_NUM implies !(#[trigger] before[c]).contains(virt_addr) by {
                            if before[c].contains(virt_addr) {
                                let k = choose|k: int| 0 <= k < before[c].len() && before[c][k] == virt_addr;
                                if c == level {
                                    lemma_slot_in_block(base_vir_addr as int, level as int, n as nat, k);
                                    assert(before[c][k] == want[k]);
                                    assert(k * pre_alloc_size < i * pre_alloc_size) by (nonlinear_arith)
                                        requires k < i, pre_alloc_size >= 32;
                                } else if c < level {
                                    assert(before[c] == classes_before[c]);
                                    let g = grants[c].unwrap();
                                    assert(grants[c].is_some());
                                    lemma_slot_in_block(g.direct_access as int, c, n as nat, k);
                                } else {
                                    assert(before[c] == classes_before[c]);
                                }
                            }
                        }
                        lemma_push_distinct(before, level as int, virt_addr);
                    }
                    self.pre_alloc_memory[level].append(LinkedListNode::new(None, virt_addr));
                    proof {
                        assert(self.classes()[level as int] =~= want.subrange(0, i + 1));
                        assert forall|c: int| 0 <= c < LEVEL_NUM && c != level implies #[trigger] self.classes()[c] == before[c] by {}
                        assert forall|c: int, k: int|
                            0 <= c < LEVEL_NUM && 0 <= k < self.classes()[c].len() implies #[trigger] self.classes()[c][k] != 0 by {
                            if c != level || k < i {
                                assert(self.classes()[c][k] == before[c][k]);
                            }
                        }
                    }
                    i = i + 1;
                }
                proof {
                    assert(self.classes()[level as int] =~= want);
                }
            }
            proof {
                assert forall|c: int| 0 <= c < level + 1 implies alloc_step(&states[c], &states[c + 1], n as nat, #[trigger] grants[c])
                    && self.classes()[c] == class_fill(grants[c], c, n as nat) by {
                    if c < level {
                        assert(self.classes()[c] == classes_before[c]);
                    } else {
                        assert(classes_before[c] =~= Seq::<usize>::empty());
                    }
                }
            }
            level = level + 1;
        }
        proof {
            assert(heap_built(old(self).frame_allocator, self.frame_allocator, self.classes(), n as nat, states, grants));
        }
    }

    /// The number of free objects of class `c`.
    pub fn free_objects(&self, c: usize) -> (r: usize)
        requires
            self.wf(),
            c < LEVEL_NUM,
        ensures
            r == self.classes()[c as int].len(),
    {
        self.pre_alloc_memory[c].size()
    }

    /// The frame allocator the heap took its memory from.
    pub fn get_frame_allocator(&mut self) -> (r: &mut SimpleFrameAllocator)
        ensures
            *r == old(self).backing(),
            final(self).backing() == *final(r),
            final(self).classes() == old(self).classes(),
            final(self).wf() == old(self).wf(),
    {
        &mut self.frame_allocator
    }

    /// Hands out an object of the smallest class whose objects hold `size`
    /// bytes; null (zero) when the size fits no class or the class is used up.
    pub fn malloc(&mut self, size: usize) -> (r: usize)
        requires
            old(self).wf(),
        ensures
            final(self).wf(),
            (r, final(self).classes()) == malloc_result(old(self).classes(), size as nat),
            final(self).classes().len() == LEVEL_NUM,
            (r == 0) == (class_of(size as nat) >= LEVEL_NUM || old(self).classes()[class_of(size as nat)].len() == 0),
            r != 0 ==> !free_somewhere(final(self).classes(), r),
            distinct_free(final(self).classes()),
            final(self).backing() == old(self).backing(),
    {
        let mut level: usize = 0;
        while level < LEVEL_NUM
            invariant
                level <= LEVEL_NUM,
                *self == *old(self),
                self.wf(),
                class_of(size as nat) == class_from(size as nat, level as int),
            decreases LEVEL_NUM - level,
        {
            if size > size_level(level) {
                level = level + 1;
                continue;
            }
            let ghost before = self.classes();
            let r = match self.pre_alloc_memory[level].pop() {
                Some(addr) => addr,
                None => 0,
            };
            proof {
                if before[level as int].len() > 0 {
                    assert(self.classes() =~= before.update(level as int, before[level as int].drop_last()));
                    let kl = before[level as int].len() - 1;
                    assert(before[level as int][kl] == r);
                    assert forall|c: int| 0 <= c < LEVEL_NUM implies !(#[trigger] self.classes()[c]).contains(r) by {
                        if self.classes()[c].contains(r) {
                            let k = choose|k: int| 0 <= k < self.classes()[c].len() && self.classes()[c][k] == r;
                            assert(before[c][k] == r);
                        }
                    }
                } else {
                    assert(self.classes() =~= before);
                }
            }
            return r;
        }
        0
    }

    /// Whether `ptr` is on the free list of some class.
    pub fn is_free(&self, ptr: usize) -> (r: bool)
        requires
            self.wf(),
        ensures
            r == free_somewhere(self.classes(), ptr),
    {
        let mut c: usize = 0;
        while c < LEVEL_NUM
            invariant
                c <= LEVEL_NUM,
                self.wf(),
                forall|t: int| 0 <= t < c ==> !(#[trigger] self.classes()[t]).contains(ptr),
            decreases LEVEL_NUM - c,
        {
            if self.pre_alloc_memory[c].contains(ptr) {
                proof {
                    assert(self.classes()[c as int].contains(ptr));
                }
                return true;
            }
            c = c + 1;
        }
        false
    }

    /// Gives back the object at `ptr`, which was handed out for `size` bytes,
    /// to the head of the list of its class. Null, and an address that is
    /// already free, are ignored: no address is ever free twice.
    pub fn free(&mut self, ptr: usize, size: usize)
        requires
            old(self).wf(),
        ensures
            final(self).wf(),
            final(self).classes().len() == LEVEL_NUM,
            final(self).classes() == (if ptr == 0 || free_somewhere(old(self).classes(), ptr) {
                old(self).classes()
            } else {
                free_result(old(self).classes(), ptr, size as nat)
            }),
            final(self).backing() == old(self).backing(),
    {
        if ptr == 0 || self.is_free(ptr) {
            return;
        }
        let mut level: usize = 0;
        while level < LEVEL_NUM
            invariant
                level <= LEVEL_NUM,
                *self == *old(self),
                self.wf(),
                ptr != 0,
                !free_somewhere(self.classes(), ptr),
                class_of(size as nat) == class_from(size as nat, level as int),
            decreases LEVEL_NUM - level,
        {
            if size > size_level(level) {
                level = level + 1;
                continue;
            }
            let ghost before = self.classes();
            self.pre_alloc_memory[level].append(LinkedListNode::new(None, ptr));
            proof {
                assert(self.classes() =~= before.update(level as int, before[level as int].push(ptr)));
                assert forall|c: int, k: int|
                    0 <= c < LEVEL_NUM && 0 <= k < self.classes()[c].len() implies #[trigger] self.classes()[c][k] != 0 by {
                    if !(c == level && k == before[c].len()) {
                        assert(self.classes()[c][k] == before[c][k]);
                    }
                }
                lemma_push_distinct(before, level as int, ptr);
            }
            return;
        }
    }
}

} // verus!
