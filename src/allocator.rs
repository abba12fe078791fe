//! Flat free-list heap allocator, with the free list held as a sequence of
//! blocks, head first.
use vstd::prelude::*;

verus! {

/// A free block: its start address and size in bytes.
#[derive(Clone, Copy, PartialEq, Eq, Structural, Debug)]
pub struct Block {
    pub start: usize,
    pub size: usize,
}

/// The free list.
pub struct Allocator {
    blocks: Vec<Block>,
}

impl View for Allocator {
    type V = Seq<Block>;

    closed spec fn view(&self) -> Seq<Block> {
        self.blocks@
    }
}

/// `i` is the first block of `blocks` with at least `need` bytes.
pub open spec fn first_fit(blocks: Seq<Block>, need: int, i: int) -> bool {
    0 <= i < blocks.len() && blocks[i].size >= need && forall|j: int| 0 <= j < i ==> #[trigger] blocks[j].size < need
}

/// Bytes that a request for `size` bytes aligned to `align` takes.
pub open spec fn request(size: usize, align: usize) -> int {
    if size > align {
        size as int
    } else {
        align as int
    }
}

impl Allocator {
    /// An empty free list.
    pub fn new() -> (r: Allocator)
        ensures
            r@ == Seq::<Block>::empty(),
    {
        Allocator { blocks: Vec::new() }
    }

    /// Makes the heap `[heap_start, heap_start + heap_size)` the one free
    /// block.
    pub fn init(&mut self, heap_start: usize, heap_size: usize)
        ensures
            final(self)@ == seq![Block { start: heap_start, size: heap_size }],
    {
        let mut blocks: Vec<Block> = Vec::new();
        blocks.push(Block { start: heap_start, size: heap_size });
        self.blocks = blocks;
    }

    /// First fit for `size` bytes aligned to `align` (a block of at least the
    /// larger of the two). The chosen block's start is returned and the list
    /// resumes after it: blocks in front of it leave the list too. None, with
    /// the list kept, when no block is large enough.
    pub fn allocate(&mut self, size: usize, align: usize) -> (r: Option<usize>)
        ensures
            r is None <==> forall|j: int|
                0 <= j < old(self)@.len() ==> #[trigger] old(self)@[j].size < request(size, align),
            r is None ==> final(self)@ == old(self)@,
            r matches Some(p) ==> exists|i: int|
                first_fit(old(self)@, request(size, align), i) && p == old(self)@[i].start && final(self)@ == old(
                    self,
                )@.skip(i + 1),
    {
        let need = if size > align {
            size
        } else {
            align
        };
        let mut i: usize = 0;
        while i < self.blocks.len()
            invariant
                0 <= i <= self.blocks@.len(),
                need == request(size, align),
                self.blocks@ == old(self)@,
                forall|j: int| 0 <= j < i ==> #[trigger] self.blocks@[j].size < need,
            decreases self.blocks@.len() - i,
        {
            if self.blocks[i].size >= need {
                let start = self.blocks[i].start;
                let mut rest: Vec<Block> = Vec::new();
                let mut k: usize = i + 1;
                while k < self.blocks.len()
                    invariant
                        i + 1 <= k <= self.blocks@.len(),
                        self.blocks@ == old(self)@,
                        i < old(self)@.len(),
                        need == request(size, align),
                        forall|j: int| 0 <= j < i ==> #[trigger] old(self)@[j].size < need,
                        old(self)@[i as int].size >= need,
                        start == old(self)@[i as int].start,
                        rest@ == old(self)@.subrange(i + 1, k as int),
                    decreases self.blocks@.len() - k,
                {
                    rest.push(self.blocks[k]);
                    assert(rest@ =~= old(self)@.subrange(i + 1, k + 1));
                    k = k + 1;
                }
                assert(rest@ =~= old(self)@.skip(i + 1));
                assert(first_fit(old(self)@, need as int, i as int));
                assert(old(self)@[i as int].size >= need);
                self.blocks = rest;
                return Some(start);
            }
            i = i + 1;
        }
        None
    }

    /// Puts the block `[ptr, ptr + size)` at the head of the free list.
    pub fn dealloc(&mut self, ptr: usize, size: usize)
        ensures
            final(self)@ == seq![Block { start: ptr, size }] + old(self)@,
    {
        let mut blocks: Vec<Block> = Vec::new();
        blocks.push(Block { start: ptr, size });
        let mut k: usize = 0;
        while k < self.blocks.len()
            invariant
                0 <= k <= self.blocks@.len(),
                self.blocks@ == old(self)@,
                blocks@ == seq![Block { start: ptr, size }] + old(self)@.subrange(0, k as int),
            decreases self.blocks@.len() - k,
        {
            blocks.push(self.blocks[k]);
            assert(blocks@ =~= seq![Block { start: ptr, size }] + old(self)@.subrange(0, k + 1));
            k = k + 1;
        }
        assert(old(self)@.subrange(0, k as int) =~= old(self)@);
        self.blocks = blocks;
    }

    /// The free blocks, head first.
    pub fn free_blocks(&self) -> (r: Vec<Block>)
        ensures
            r@ == self@,
    {
        self.blocks.clone()
    }
}

} // verus!
