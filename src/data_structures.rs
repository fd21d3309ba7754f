use vstd::prelude::*;

verus! {

/// A set of per-frame state bits.
#[derive(Clone, Copy, Debug, PartialEq, Eq, Structural)]
pub struct FrameFlags {
    pub bits: u32,
}

/// The bit that marks a frame reserved from ever taking part in coalescing.
pub const TAKEN_BIT: u32 = 0x2;

/// The bit that marks the first frame of an allocated block.
pub const HEAD_BIT: u32 = 0x4;

impl FrameFlags {
    /// The empty set: a free frame.
    pub fn free() -> (r: FrameFlags)
        ensures
            r.bits == 0,
    {
        FrameFlags { bits: 0 }
    }

    /// The frame's contents were written.
    pub fn dirty() -> (r: FrameFlags)
        ensures
            r.bits == 1,
    {
        FrameFlags { bits: 0x1 }
    }

    /// The frame never takes part in coalescing.
    pub fn taken() -> (r: FrameFlags)
        ensures
            r.bits == TAKEN_BIT,
    {
        FrameFlags { bits: TAKEN_BIT }
    }

    /// The frame heads an allocated block.
    pub fn head() -> (r: FrameFlags)
        ensures
            r.bits == HEAD_BIT,
    {
        FrameFlags { bits: HEAD_BIT }
    }

    pub fn bits(&self) -> (r: u32)
        ensures
            r == self.bits,
    {
        self.bits
    }

    /// Whether every bit of `other` is set here.
    pub fn contains(&self, other: FrameFlags) -> (r: bool)
        ensures
            r == (self.bits & other.bits == other.bits),
    {
        self.bits & other.bits == other.bits
    }

    /// The union of the two sets.
    pub fn union(&self, other: FrameFlags) -> (r: FrameFlags)
        ensures
            r.bits == self.bits | other.bits,
    {
        FrameFlags { bits: self.bits | other.bits }
    }

    /// This set without the bits of `other`.
    pub fn difference(&self, other: FrameFlags) -> (r: FrameFlags)
        ensures
            r.bits == self.bits & !other.bits,
    {
        FrameFlags { bits: self.bits & !other.bits }
    }
}

/// `bits` has the allocated-head bit set.
pub open spec fn has_head(bits: u32) -> bool {
    bits & HEAD_BIT != 0
}

/// `bits` has the reserved bit set.
pub open spec fn has_taken(bits: u32) -> bool {
    bits & TAKEN_BIT != 0
}

/// Setting the head bit sets it and leaves the reserved bit as it was;
/// clearing it clears it and leaves the reserved bit as it was.
pub proof fn lemma_head_bit(bits: u32)
    ensures
        has_head(bits | HEAD_BIT),
        has_taken(bits | HEAD_BIT) == has_taken(bits),
        !has_head(bits & !HEAD_BIT),
        has_taken(bits & !HEAD_BIT) == has_taken(bits),
{
    assert((bits | 4u32) & 4u32 != 0) by (bit_vector);
    assert(((bits | 4u32) & 2u32 != 0) == (bits & 2u32 != 0)) by (bit_vector);
    assert((bits & !4u32) & 4u32 == 0) by (bit_vector);
    assert(((bits & !4u32) & 2u32 != 0) == (bits & 2u32 != 0)) by (bit_vector);
}

/// The record kept for one physical frame.
#[derive(Clone, Copy, Debug)]
pub struct FrameInfo {
    pub flgs: FrameFlags,
    pub count: u16,
    pub direct_access: usize,
    pub level: u32,
    pub index: usize,
}

impl FrameInfo {
    /// A record for frame `index`, reachable at `direct`, with no
    /// references, at order zero.
    pub fn new(flags: FrameFlags, direct: usize, index: usize) -> (r: FrameInfo)
        ensures
            r.flgs == flags,
            r.count == 0,
            r.direct_access == direct,
            r.level == 0,
            r.index == index,
    {
        FrameInfo { flgs: flags, count: 0, direct_access: direct, level: 0, index }
    }

    /// Resets the record to describe frame `index`, reachable at `direct`,
    /// with no references, at order zero.
    pub fn init(&mut self, flags: FrameFlags, direct: usize, index: usize)
        ensures
            final(self).flgs == flags,
            final(self).count == 0,
            final(self).direct_access == direct,
            final(self).level == 0,
            final(self).index == index,
    {
        self.flgs = flags;
        self.count = 0;
        self.direct_access = direct;
        self.level = 0;
        self.index = index;
    }

    pub fn get_flgs(&self) -> (r: FrameFlags)
        ensures
            r == self.flgs,
    {
        self.flgs
    }

    pub fn get_count(&self) -> (r: u16)
        ensures
            r == self.count,
    {
        self.count
    }

    pub fn get_direct_access(&self) -> (r: usize)
        ensures
            r == self.direct_access,
    {
        self.direct_access
    }

    pub fn get_level(&self) -> (r: u32)
        ensures
            r == self.level,
    {
        self.level
    }

    pub fn get_index(&self) -> (r: usize)
        ensures
            r == self.index,
    {
        self.index
    }

    pub fn set_flgs(&mut self, flgs: FrameFlags)
        ensures
            *final(self) == (FrameInfo { flgs, ..*old(self) }),
    {
        self.flgs = flgs;
    }

    /// Adds the bits of `flgs` to the record's flags.
    pub fn add_flgs(&mut self, flgs: FrameFlags)
        ensures
            *final(self) == (FrameInfo { flgs: FrameFlags { bits: old(self).flgs.bits | flgs.bits }, ..*old(self) }),
    {
        self.flgs = self.flgs.union(flgs);
    }

    /// Clears every flag.
    pub fn reset_flgs(&mut self)
        ensures
            *final(self) == (FrameInfo { flgs: FrameFlags { bits: 0 }, ..*old(self) }),
    {
        let b = self.flgs.bits;
        assert(b ^ b == 0u32) by (bit_vector);
        self.flgs = FrameFlags { bits: self.flgs.bits ^ self.flgs.bits };
    }

    pub fn set_level(&mut self, level: u32)
        ensures
            *final(self) == (FrameInfo { level, ..*old(self) }),
    {
        self.level = level;
    }
}

/// A node of a free list kept in an index arena: `next` is the arena
/// position of the following node, `None` at the end of the list.
#[derive(Clone, Copy, Debug, PartialEq, Eq, Structural)]
pub struct LinkedListNode {
    pub next: Option<usize>,
    pub content: usize,
}

impl LinkedListNode {
    pub fn new(next: Option<usize>, content: usize) -> (r: LinkedListNode)
        ensures
            r.next == next,
            r.content == content,
    {
        LinkedListNode { next, content }
    }

    /// Makes the node a lone node holding `content`.
    pub fn init(&mut self, content: usize)
        ensures
            final(self).next.is_none(),
            final(self).content == content,
    {
        self.next = None;
        self.content = content;
    }
}

/// A last-in first-out list of values whose nodes live in an arena owned by
/// the list. Its view runs from the oldest node to the head: `append` puts a
/// value at the head, `pop` takes the head.
pub struct LinkedList {
    nodes: Vec<LinkedListNode>,
}

impl View for LinkedList {
    type V = Seq<usize>;

    closed spec fn view(&self) -> Seq<usize> {
        self.nodes@.map_values(|n: LinkedListNode| n.content)
    }
}

impl LinkedList {
    /// Each node links to the one appended before it.
    pub closed spec fn wf(&self) -> bool {
        forall|i: int|
            0 <= i < self.nodes@.len() ==> #[trigger] self.nodes@[i].next == (if i == 0 {
                None
            } else {
                Some((i - 1) as usize)
            })
    }

    pub fn new() -> (r: LinkedList)
        ensures
            r.wf(),
            r@ == Seq::<usize>::empty(),
    {
        LinkedList { nodes: Vec::new() }
    }

    /// Puts `node`'s value at the head of the list.
    pub fn append(&mut self, node: LinkedListNode)
        requires
            old(self).wf(),
        ensures
            final(self).wf(),
            final(self)@ == old(self)@.push(node.content),
    {
        let len = self.nodes.len();
        let next = if len == 0 {
            None
        } else {
            Some(len - 1)
        };
        self.nodes.push(LinkedListNode::new(next, node.content));
        assert(self@ =~= old(self)@.push(node.content));
    }

    /// Takes the value at the head, if there is one.
    pub fn pop(&mut self) -> (r: Option<usize>)
        requires
            old(self).wf(),
        ensures
            final(self).wf(),
            old(self)@.len() == 0 ==> r.is_none() && final(self)@ == old(self)@,
            old(self)@.len() > 0 ==> r == Some(old(self)@.last()) && final(self)@ == old(
                self,
            )@.drop_last(),
    {
        match self.nodes.pop() {
            None => None,
            Some(n) => {
                assert(self@ =~= old(self)@.drop_last());
                Some(n.content)
            },
        }
    }

    /// Removes the node nearest the head that holds `content`; tells
    /// whether there was one.
    pub fn remove(&mut self, content: usize) -> (r: bool)
        requires
            old(self).wf(),
        ensures
            final(self).wf(),
            r == old(self)@.contains(content),
            !r ==> final(self)@ == old(self)@,
            r ==> exists|k: int|
                0 <= k < old(self)@.len() && old(self)@[k] == content && (forall|j: int|
                    k < j < old(self)@.len() ==> old(self)@[j] != content) && final(self)@
                    == old(self)@.remove(k),
    {
        let len = self.nodes.len();
        let mut i: usize = len;
        while i > 0
            invariant
                i <= len == self.nodes.len(),
                *self == *old(self),
                old(self).wf(),
                forall|j: int| i <= j < len ==> self@[j] != content,
            decreases i,
        {
            if self.nodes[i - 1].content == content {
                let k = i - 1;
                self.nodes.remove(k);
                let ghost removed = self.nodes@;
                assert(removed =~= old(self).nodes@.remove(k as int));
                assert(forall|t: int| 0 <= t < k ==> removed[t] == old(self).nodes@[t]);
                let mut j: usize = k;
                while j < self.nodes.len()
                    invariant
                        k <= j <= self.nodes.len() == len - 1,
                        forall|t: int|
                            0 <= t < j ==> #[trigger] self.nodes@[t].next == (if t == 0 {
                                None
                            } else {
                                Some((t - 1) as usize)
                            }),
                        forall|t: int|
                            0 <= t < self.nodes@.len() ==> #[trigger] self.nodes@[t].content
                                == removed[t].content,
                        removed.len() == self.nodes@.len(),
                        forall|t: int|
                            0 <= t < k ==> #[trigger] removed[t] == old(self).nodes@[t],
                        old(self).wf(),
                    decreases len - 1 - j,
                {
                    let next = if j == 0 {
                        None
                    } else {
                        Some(j - 1)
                    };
                    let c = self.nodes[j].content;
                    self.nodes.set(j, LinkedListNode::new(next, c));
                    j = j + 1;
                }
                assert(self@ =~= old(self)@.remove(k as int));
                assert(old(self)@[k as int] == content);
                return true;
            }
            i = i - 1;
        }
        assert forall|j: int| 0 <= j < old(self)@.len() implies old(self)@[j] != content by {}
        false
    }

    /// The value at the head, if there is one.
    pub fn peek(&self) -> (r: Option<usize>)
        ensures
            self@.len() == 0 ==> r.is_none(),
            self@.len() > 0 ==> r == Some(self@.last()),
    {
        if self.nodes.len() == 0 {
            None
        } else {
            Some(self.nodes[self.nodes.len() - 1].content)
        }
    }

    /// The values from the head to the oldest one.
    pub fn to_vec(&self) -> (r: Vec<usize>)
        requires
            self.wf(),
        ensures
            r@ == self@.reverse(),
    {
        let mut r: Vec<usize> = Vec::new();
        let mut i: usize = self.nodes.len();
        while i > 0
            invariant
                i <= self.nodes@.len(),
                r@ == self@.subrange(i as int, self@.len() as int).reverse(),
            decreases i,
        {
            r.push(self.nodes[i - 1].content);
            i = i - 1;
            proof {
                assert(r@ =~= self@.subrange(i as int, self@.len() as int).reverse());
            }
        }
        proof {
            assert(self@.subrange(0, self@.len() as int) =~= self@);
        }
        r
    }

    /// Whether the list holds `v`.
    pub fn contains(&self, v: usize) -> (r: bool)
        ensures
            r == self@.contains(v),
    {
        let mut i: usize = 0;
        while i < self.nodes.len()
            invariant
                i <= self.nodes@.len(),
                forall|k: int| 0 <= k < i ==> self@[k] != v,
            decreases self.nodes@.len() - i,
        {
            if self.nodes[i].content == v {
                proof {
                    assert(self@[i as int] == v);
                }
                return true;
            }
            i = i + 1;
        }
        false
    }

    /// The number of values in the list.
    pub fn size(&self) -> (r: usize)
        ensures
            r == self@.len(),
    {
        self.nodes.len()
    }
}

} // verus!
