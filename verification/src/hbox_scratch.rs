//! Buffers of columns that are kept to be drawn into again.
use vstd::prelude::*;

verus! {

/// Sets of buffers that are kept at most.
pub const MAX_HBOX_SCRATCH_SETS: usize = 4;

/// Buffers that a kept set has at most.
pub const MAX_HBOX_SCRATCH_COLUMNS: usize = 16;

/// Rows that the buffers of a kept set have at most, together.
pub const MAX_HBOX_SCRATCH_ROWS: usize = 256;

/// Bytes of text that the buffers of a kept set have room for at most, together.
pub const MAX_HBOX_SCRATCH_TEXT_BYTES: usize = 262144;

/// How large a buffer is: its rows, and the bytes of text that each has room for.
#[derive(Debug)]
pub struct BufferSize {
    pub rows: usize,
    pub text_bytes: usize,
}

/// The rows of some buffers, together.
pub open spec fn all_rows(sizes: Seq<BufferSize>) -> int
    decreases sizes.len(),
{
    if sizes.len() == 0 {
        0
    } else {
        all_rows(sizes.drop_last()) + sizes.last().rows
    }
}

/// The bytes of text that some buffers have room for, together.
pub open spec fn all_text_bytes(sizes: Seq<BufferSize>) -> int
    decreases sizes.len(),
{
    if sizes.len() == 0 {
        0
    } else {
        all_text_bytes(sizes.drop_last()) + sizes.last().text_bytes
    }
}

/// Whether a set of buffers is small enough to be kept.
pub open spec fn is_small(sizes: Seq<BufferSize>) -> bool {
    &&& sizes.len() <= MAX_HBOX_SCRATCH_COLUMNS
    &&& all_rows(sizes) <= MAX_HBOX_SCRATCH_ROWS
    &&& all_text_bytes(sizes) <= MAX_HBOX_SCRATCH_TEXT_BYTES
}

proof fn lemma_take(sizes: Seq<BufferSize>, n: int)
    requires
        0 <= n <= sizes.len(),
    ensures
        0 <= all_rows(sizes.take(n)) <= all_rows(sizes),
        0 <= all_text_bytes(sizes.take(n)) <= all_text_bytes(sizes),
    decreases sizes.len() - n, n,
{
    if n < sizes.len() {
        lemma_take(sizes, n + 1);
        assert(sizes.take(n + 1).drop_last() =~= sizes.take(n));
    } else {
        assert(sizes.take(n) =~= sizes);
    }
    lemma_nonnegative(sizes.take(n));
}

proof fn lemma_nonnegative(sizes: Seq<BufferSize>)
    ensures
        0 <= all_rows(sizes),
        0 <= all_text_bytes(sizes),
    decreases sizes.len(),
{
    if sizes.len() > 0 {
        lemma_nonnegative(sizes.drop_last());
    }
}

/// Whether a set of buffers is small enough to be kept.
pub fn can_keep(sizes: &Vec<BufferSize>) -> (small: bool)
    ensures
        small == is_small(sizes@),
{
    if sizes.len() > MAX_HBOX_SCRATCH_COLUMNS {
        return false;
    }
    let mut rows: usize = 0;
    let mut bytes: usize = 0;
    let mut i: usize = 0;
    while i < sizes.len()
        invariant
            i <= sizes@.len(),
            rows == all_rows(sizes@.take(i as int)),
            bytes == all_text_bytes(sizes@.take(i as int)),
            rows <= MAX_HBOX_SCRATCH_ROWS,
            bytes <= MAX_HBOX_SCRATCH_TEXT_BYTES,
        decreases sizes@.len() - i,
    {
        proof {
            assert(sizes@.take(i + 1).drop_last() =~= sizes@.take(i as int));
            lemma_take(sizes@, i + 1);
        }
        let size = &sizes[i];
        if size.rows > MAX_HBOX_SCRATCH_ROWS - rows || size.text_bytes
            > MAX_HBOX_SCRATCH_TEXT_BYTES - bytes {
            return false;
        }
        rows = rows + size.rows;
        bytes = bytes + size.text_bytes;
        i += 1;
    }
    proof {
        assert(sizes@.take(i as int) =~= sizes@);
    }
    true
}

/// Sets of buffers that are kept to be drawn into again.
#[derive(Debug)]
pub struct HboxScratchPool<S> {
    pub sets: Vec<S>,
}

impl<S> HboxScratchPool<S> {
    /// Not too many sets are kept.
    pub open spec fn wf(&self) -> bool {
        self.sets@.len() <= MAX_HBOX_SCRATCH_SETS
    }

    /// Nothing is kept yet.
    pub fn new() -> (pool: Self)
        ensures
            pool.wf(),
            pool.sets@ == Seq::<S>::empty(),
    {
        HboxScratchPool { sets: Vec::new() }
    }

    /// The set that was kept last, if any is.
    pub fn take_hbox_scratch(&mut self) -> (set: Option<S>)
        requires
            old(self).wf(),
        ensures
            final(self).wf(),
            old(self).sets@.len() == 0 ==> set is None && final(self).sets@ == old(self).sets@,
            old(self).sets@.len() > 0 ==> set == Some(old(self).sets@.last())
                && final(self).sets@ == old(self).sets@.drop_last(),
    {
        self.sets.pop()
    }

    /// Keeps a set, unless it is too large or enough are kept.
    pub fn recycle_hbox_scratch(&mut self, set: S, sizes: &Vec<BufferSize>)
        requires
            old(self).wf(),
        ensures
            final(self).wf(),
            final(self).sets@ == if is_small(sizes@) && old(self).sets@.len()
                < MAX_HBOX_SCRATCH_SETS {
                old(self).sets@.push(set)
            } else {
                old(self).sets@
            },
    {
        if can_keep(sizes) && self.sets.len() < MAX_HBOX_SCRATCH_SETS {
            self.sets.push(set);
        }
    }
}

} // verus!
