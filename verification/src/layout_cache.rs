//! The cache of compiled layouts: least recently used first, bounded in bytes.
use vstd::prelude::*;
use crate::cached_layout::{moved_to_back, CachedLayout, CachedMeasurement, CachedRenderRange};
use crate::compile::{earliest, earliest_delay};
use crate::ir::{
    BlockLayout, ContentRenderSpec, GutterSpec, HboxItem, IrLeaf, LayoutIr, RetainedContentSpec,
    StyleSpec,
};
use crate::keys::DisplayCacheKey;
use crate::retained::capped;
use crate::syntax_cache::{bucket_bytes, lemma_drop_first_wf, InlineSyntaxCache, SyntaxBucket};
use crate::view_state::ViewState;
use std::collections::HashSet;

verus! {

broadcast use vstd::std_specs::hash::group_hash_axioms;

/// Bytes that the cache may keep unless it is told otherwise.
pub const DEFAULT_LAYOUT_BUDGET: usize = 16 * 1024 * 1024;

/// Compiled layouts by node, least recently used first, and the highlights they share.
#[derive(Debug)]
pub struct LayoutCache<T> {
    pub blocks: Vec<CachedLayout<T>>,
    pub inline_syntax: InlineSyntaxCache,
    pub pinned: HashSet<u64>,
    pub retained_bytes: usize,
    pub budget: usize,
    pub earliest_refresh_at: Option<u64>,
}

/// What the cache keeps.
#[derive(Clone, Copy, Debug, PartialEq, Eq, Structural)]
pub struct DisplayMemorySnapshot {
    pub layout_bytes: usize,
    pub pinned_layout_bytes: usize,
    pub oversize_debt_bytes: usize,
}

/// Some layouts, and the bytes that are counted for them.
pub struct Shelf<T> {
    pub blocks: Seq<CachedLayout<T>>,
    pub retained_bytes: usize,
}

/// The first layout of node `id` from `i` on.
pub open spec fn block_position<T>(blocks: Seq<CachedLayout<T>>, id: u64, i: int) -> Option<int>
    decreases blocks.len() - i,
{
    if i >= blocks.len() {
        None
    } else if blocks[i].id == id {
        Some(i)
    } else {
        block_position(blocks, id, i + 1)
    }
}

/// The soonest moment that a layout is to be drawn again.
pub open spec fn earliest_refresh<T>(blocks: Seq<CachedLayout<T>>) -> Option<u64>
    decreases blocks.len(),
{
    if blocks.len() == 0 {
        None
    } else {
        earliest(earliest_refresh(blocks.drop_last()), blocks.last().refresh_at)
    }
}

/// Bytes of some layouts.
pub open spec fn total_weight<T>(blocks: Seq<CachedLayout<T>>) -> int
    decreases blocks.len(),
{
    if blocks.len() == 0 {
        0
    } else {
        total_weight(blocks.drop_last()) + blocks.last().weight
    }
}

/// No node has two layouts.
pub open spec fn unique_ids<T>(blocks: Seq<CachedLayout<T>>) -> bool {
    forall|i: int, j: int|
        0 <= i < j < blocks.len() ==> (#[trigger] blocks[i]).id != (#[trigger] blocks[j]).id
}

/// Every layout keeps as much as it may.
pub open spec fn all_wf<T>(blocks: Seq<CachedLayout<T>>) -> bool {
    forall|i: int| 0 <= i < blocks.len() ==> (#[trigger] blocks[i]).wf()
}

/// What is left once layouts are dropped, the oldest first, until the rest fits in
/// `budget` beside `other` bytes. Pinned layouts are passed over and become the newest;
/// `attempts` layouts are looked at before giving up.
pub open spec fn evicted<T>(
    shelf: Shelf<T>,
    pinned: Set<u64>,
    other: usize,
    budget: usize,
    attempts: nat,
) -> Shelf<T>
    decreases shelf.blocks.len(), attempts,
{
    if shelf.retained_bytes.saturating_add(other) > budget && attempts > 0 && shelf.blocks.len()
        > 0 {
        let first = shelf.blocks[0];
        if pinned.contains(first.id) {
            evicted(
                Shelf { blocks: moved_to_back(shelf.blocks, 0), ..shelf },
                pinned,
                other,
                budget,
                (attempts - 1) as nat,
            )
        } else {
            evicted(
                Shelf {
                    blocks: shelf.blocks.remove(0),
                    retained_bytes: shelf.retained_bytes.saturating_sub(first.weight),
                },
                pinned,
                other,
                budget,
                (shelf.blocks.len() - 1) as nat,
            )
        }
    } else {
        shelf
    }
}

/// The highlights that are left once the oldest are dropped until the rest fits in
/// `budget` beside `retained` bytes.
pub open spec fn syntax_evicted(
    buckets: Seq<SyntaxBucket>,
    retained: usize,
    budget: usize,
) -> Seq<SyntaxBucket>
    decreases buckets.len(),
{
    if buckets.len() > 0 && capped(retained + bucket_bytes(buckets)) > budget {
        syntax_evicted(buckets.drop_first(), retained, budget)
    } else {
        buckets
    }
}

/// The layouts that `keep` holds of.
pub open spec fn kept<T>(
    blocks: Seq<CachedLayout<T>>,
    keep: spec_fn(CachedLayout<T>) -> bool,
) -> Seq<CachedLayout<T>>
    decreases blocks.len(),
{
    if blocks.len() == 0 {
        Seq::empty()
    } else if keep(blocks.last()) {
        kept(blocks.drop_last(), keep).push(blocks.last())
    } else {
        kept(blocks.drop_last(), keep)
    }
}

/// `retained` bytes without those of the layouts that `keep` does not hold of.
pub open spec fn kept_bytes<T>(
    retained: usize,
    blocks: Seq<CachedLayout<T>>,
    keep: spec_fn(CachedLayout<T>) -> bool,
) -> usize
    decreases blocks.len(),
{
    if blocks.len() == 0 {
        retained
    } else if keep(blocks.last()) {
        kept_bytes(retained, blocks.drop_last(), keep)
    } else {
        kept_bytes(retained, blocks.drop_last(), keep).saturating_sub(blocks.last().weight)
    }
}

/// `retained` bytes once a layout that weighed `before` weighs `after`.
pub open spec fn shifted(retained: usize, before: usize, after: usize) -> usize {
    if after >= before {
        retained.saturating_add((after - before) as usize)
    } else {
        retained.saturating_sub((before - after) as usize)
    }
}

pub(crate) proof fn lemma_block_position<T>(blocks: Seq<CachedLayout<T>>, id: u64, i: int)
    requires
        0 <= i <= blocks.len(),
    ensures
        match block_position(blocks, id, i) {
            Some(pos) => i <= pos < blocks.len() && blocks[pos].id == id,
            None => forall|j: int| i <= j < blocks.len() ==> (#[trigger] blocks[j]).id != id,
        },
    decreases blocks.len() - i,
{
    if i < blocks.len() && blocks[i].id != id {
        lemma_block_position(blocks, id, i + 1);
    }
}

pub(crate) proof fn lemma_remove<T>(blocks: Seq<CachedLayout<T>>, i: int)
    requires
        0 <= i < blocks.len(),
    ensures
        earliest_refresh(blocks) == earliest(
            earliest_refresh(blocks.remove(i)),
            blocks[i].refresh_at,
        ),
        total_weight(blocks) == total_weight(blocks.remove(i)) + blocks[i].weight,
    decreases blocks.len(),
{
    if i == blocks.len() - 1 {
        assert(blocks.remove(i) =~= blocks.drop_last());
    } else {
        lemma_remove(blocks.drop_last(), i);
        assert(blocks.remove(i).drop_last() =~= blocks.drop_last().remove(i));
        assert(blocks.remove(i).last() == blocks.last());
    }
}

pub(crate) proof fn lemma_moved_to_back<T>(blocks: Seq<CachedLayout<T>>, i: int)
    requires
        0 <= i < blocks.len(),
    ensures
        earliest_refresh(moved_to_back(blocks, i)) == earliest_refresh(blocks),
        total_weight(moved_to_back(blocks, i)) == total_weight(blocks),
{
    lemma_remove(blocks, i);
    assert(moved_to_back(blocks, i).drop_last() =~= blocks.remove(i));
}

pub(crate) proof fn lemma_total_weight<T>(blocks: Seq<CachedLayout<T>>)
    ensures
        total_weight(blocks) >= 0,
        forall|i: int|
            0 <= i < blocks.len() ==> (#[trigger] blocks[i]).weight <= total_weight(blocks),
    decreases blocks.len(),
{
    if blocks.len() > 0 {
        let init = blocks.drop_last();
        lemma_total_weight(init);
        assert forall|i: int| 0 <= i < blocks.len() implies (#[trigger] blocks[i]).weight
            <= total_weight(blocks) by {
            if i < init.len() {
                assert(init[i] == blocks[i]);
            }
        }
    }
}

pub(crate) proof fn lemma_unique_remove<T>(blocks: Seq<CachedLayout<T>>, i: int)
    requires
        0 <= i < blocks.len(),
        unique_ids(blocks),
        all_wf(blocks),
    ensures
        unique_ids(blocks.remove(i)),
        all_wf(blocks.remove(i)),
        unique_ids(moved_to_back(blocks, i)),
        all_wf(moved_to_back(blocks, i)),
        forall|j: int| 0 <= j < blocks.len() - 1 ==> (#[trigger] blocks.remove(i)[j]).id != blocks[i].id,
{
    let rest = blocks.remove(i);
    assert forall|j: int| 0 <= j < rest.len() implies (#[trigger] rest[j]).id != blocks[i].id
        && rest[j].wf() by {
        let k = if j < i {
            j
        } else {
            j + 1
        };
        assert(rest[j] == blocks[k]);
        assert(blocks[i].id == blocks[i].id);
    }
    assert forall|a: int, b: int| 0 <= a < b < rest.len() implies (#[trigger] rest[a]).id != (
    #[trigger] rest[b]).id by {
        let k = if a < i {
            a
        } else {
            a + 1
        };
        let l = if b < i {
            b
        } else {
            b + 1
        };
        assert(rest[a] == blocks[k]);
        assert(rest[b] == blocks[l]);
    }
}

impl<T> LayoutCache<T> {
    /// No node has two layouts, every layout keeps as much as it may, the highlights are
    /// in order, and the soonest moment to draw again is known.
    pub open spec fn wf(&self) -> bool {
        &&& unique_ids(self.blocks@)
        &&& all_wf(self.blocks@)
        &&& self.inline_syntax.wf()
        &&& self.earliest_refresh_at == earliest_refresh(self.blocks@)
    }

    /// The bytes counted are those of the layouts.
    pub open spec fn exact(&self) -> bool {
        self.retained_bytes == total_weight(self.blocks@)
    }

    /// The layouts and their bytes.
    pub open spec fn shelf(&self) -> Shelf<T> {
        Shelf { blocks: self.blocks@, retained_bytes: self.retained_bytes }
    }

    /// Bytes that the cache keeps.
    pub open spec fn spec_retained_bytes(&self) -> usize {
        self.retained_bytes.saturating_add(self.inline_syntax.retained_bytes)
    }

    /// The cache is what enforcing the budget leaves of `shelf` and the highlights
    /// `syntax`.
    pub open spec fn enforced(
        &self,
        syntax: InlineSyntaxCache,
        shelf: Shelf<T>,
        pinned: Set<u64>,
    ) -> bool {
        let left = evicted(
            shelf,
            pinned,
            syntax.retained_bytes,
            self.budget,
            shelf.blocks.len(),
        );
        &&& self.blocks@ == left.blocks
        &&& self.retained_bytes == left.retained_bytes
        &&& self.inline_syntax.buckets@ == syntax_evicted(
            syntax.buckets@,
            left.retained_bytes,
            self.budget,
        )
        &&& self.inline_syntax.theme_revision == syntax.theme_revision
        &&& self.pinned@ == pinned
    }

    /// A cache of nothing.
    pub fn new() -> (cache: Self)
        ensures
            cache.wf(),
            cache.exact(),
            cache.blocks@.len() == 0,
            cache.inline_syntax.buckets@.len() == 0,
            cache.pinned@ == Set::<u64>::empty(),
            cache.retained_bytes == 0,
            cache.budget == DEFAULT_LAYOUT_BUDGET,
            cache.earliest_refresh_at is None,
    {
        LayoutCache {
            blocks: Vec::new(),
            inline_syntax: InlineSyntaxCache::new(),
            pinned: HashSet::new(),
            retained_bytes: 0,
            budget: DEFAULT_LAYOUT_BUDGET,
            earliest_refresh_at: None,
        }
    }

    /// Layouts in the cache.
    pub fn len(&self) -> (len: usize)
        ensures
            len == self.blocks@.len(),
    {
        self.blocks.len()
    }

    /// Bytes that the cache keeps.
    pub fn retained_bytes(&self) -> (bytes: usize)
        ensures
            bytes == self.spec_retained_bytes(),
    {
        self.retained_bytes.saturating_add(self.inline_syntax.retained_bytes)
    }

    /// The soonest moment that a layout is to be drawn again.
    pub fn next_refresh_at(&self) -> (at: Option<u64>)
        requires
            self.wf(),
        ensures
            at == earliest_refresh(self.blocks@),
    {
        self.earliest_refresh_at
    }

    pub(crate) fn position(&self, id: u64) -> (position: Option<usize>)
        ensures
            match position {
                Some(pos) => pos < self.blocks@.len() && self.blocks@[pos as int].id == id
                    && block_position(self.blocks@, id, 0) == Some(pos as int),
                None => block_position(self.blocks@, id, 0) is None,
            },
    {
        let mut i: usize = 0;
        while i < self.blocks.len()
            invariant
                i <= self.blocks@.len(),
                block_position(self.blocks@, id, 0) == block_position(self.blocks@, id, i as int),
            decreases self.blocks@.len() - i,
        {
            if self.blocks[i].id == id {
                return Some(i);
            }
            i += 1;
        }
        None
    }

    /// Makes the layout at `pos` the newest.
    pub(crate) fn touch(&mut self, pos: usize)
        requires
            old(self).wf(),
            pos < old(self).blocks@.len(),
        ensures
            final(self).wf(),
            final(self).blocks@ == moved_to_back(old(self).blocks@, pos as int),
            final(self).inline_syntax == old(self).inline_syntax,
            final(self).pinned == old(self).pinned,
            final(self).retained_bytes == old(self).retained_bytes,
            final(self).budget == old(self).budget,
    {
        proof {
            lemma_unique_remove(self.blocks@, pos as int);
            lemma_moved_to_back(self.blocks@, pos as int);
        }
        let ghost before = self.blocks@;
        let entry = self.blocks.remove(pos);
        self.blocks.push(entry);
        proof {
            assert(self.blocks@ =~= moved_to_back(before, pos as int));
        }
    }

    pub(crate) fn recompute_earliest_refresh_at(&mut self)
        ensures
            final(self).earliest_refresh_at == earliest_refresh(old(self).blocks@),
            final(self).blocks == old(self).blocks,
            final(self).inline_syntax == old(self).inline_syntax,
            final(self).pinned == old(self).pinned,
            final(self).retained_bytes == old(self).retained_bytes,
            final(self).budget == old(self).budget,
    {
        let mut soonest: Option<u64> = None;
        let mut i: usize = 0;
        proof {
            assert(earliest_refresh(self.blocks@.take(0)) is None);
        }
        while i < self.blocks.len()
            invariant
                *self == *old(self),
                i <= self.blocks@.len(),
                soonest == earliest_refresh(self.blocks@.take(i as int)),
            decreases self.blocks@.len() - i,
        {
            proof {
                assert(self.blocks@.take(i + 1).drop_last() =~= self.blocks@.take(i as int));
            }
            soonest = earliest_delay(soonest, self.blocks[i].refresh_at);
            i += 1;
        }
        proof {
            assert(self.blocks@.take(i as int) =~= self.blocks@);
        }
        self.earliest_refresh_at = soonest;
    }

    /// Drops layouts that are not pinned, the oldest first, and then highlights, until
    /// the cache is within its budget.
    pub(crate) fn enforce_budget(&mut self)
        requires
            unique_ids(old(self).blocks@),
            all_wf(old(self).blocks@),
            old(self).inline_syntax.wf(),
        ensures
            final(self).wf(),
            final(self).budget == old(self).budget,
            final(self).enforced(old(self).inline_syntax, old(self).shelf(), old(self).pinned@),
    {
        let mut attempts: usize = self.blocks.len();
        let ghost start = self.shelf();
        let ghost other = self.inline_syntax.retained_bytes;
        while self.retained_bytes() > self.budget && attempts > 0
            invariant
                unique_ids(self.blocks@),
                all_wf(self.blocks@),
                self.inline_syntax == old(self).inline_syntax,
                self.pinned == old(self).pinned,
                self.budget == old(self).budget,
                attempts <= self.blocks@.len(),
                other == self.inline_syntax.retained_bytes,
                start == old(self).shelf(),
                evicted(self.shelf(), self.pinned@, other, self.budget, attempts as nat) == evicted(
                    start,
                    self.pinned@,
                    other,
                    self.budget,
                    start.blocks.len(),
                ),
            decreases self.blocks@.len(), attempts,
        {
            attempts -= 1;
            let ghost before = self.blocks@;
            proof {
                lemma_unique_remove(before, 0);
            }
            let entry = self.blocks.remove(0);
            if self.pinned.contains(&entry.id) {
                self.blocks.push(entry);
                proof {
                    assert(self.blocks@ =~= moved_to_back(before, 0));
                }
                continue ;
            }
            self.retained_bytes = self.retained_bytes.saturating_sub(entry.weight);
            attempts = self.blocks.len();
        }
        let ghost left = self.shelf();
        proof {
            assert(evicted(start, self.pinned@, other, self.budget, start.blocks.len()) == left);
        }
        let ghost buckets = self.inline_syntax.buckets@;
        while self.retained_bytes() > self.budget && self.inline_syntax.buckets.len() > 0
            invariant
                self.shelf() == left,
                unique_ids(self.blocks@),
                all_wf(self.blocks@),
                self.inline_syntax.wf(),
                self.inline_syntax.theme_revision == old(self).inline_syntax.theme_revision,
                self.pinned == old(self).pinned,
                self.budget == old(self).budget,
                syntax_evicted(
                    self.inline_syntax.buckets@,
                    left.retained_bytes,
                    self.budget,
                ) == syntax_evicted(buckets, left.retained_bytes, self.budget),
            decreases self.inline_syntax.buckets@.len(),
        {
            let ghost before = self.inline_syntax;
            self.inline_syntax.evict_oldest();
            proof {
                lemma_drop_first_wf(before, self.inline_syntax);
            }
        }
        self.recompute_earliest_refresh_at();
    }
}

/// Whether some node of a layout shows content `id`.
pub open spec fn shows_content(layout: LayoutIr, id: u64) -> bool
    decreases layout, 1nat,
{
    match layout {
        BlockLayout::Empty => false,
        BlockLayout::Leaf(leaf) => leaf matches IrLeaf::Content(spec) && spec.content == id,
        BlockLayout::Vbox(items) => stack_shows_content(items@, id),
        BlockLayout::Hbox(items) => columns_show_content(items@, id),
        BlockLayout::Gutter { child, .. } => shows_content(*child, id),
        BlockLayout::RowPrefix { child, .. } => shows_content(*child, id),
        BlockLayout::Panel { child, .. } => shows_content(*child, id),
        BlockLayout::Style { child, .. } => shows_content(*child, id),
        BlockLayout::Cap { child, .. } => shows_content(*child, id),
        BlockLayout::Refresh { child, .. } => shows_content(*child, id),
    }
}

pub open spec fn stack_shows_content(items: Seq<LayoutIr>, id: u64) -> bool
    decreases items, 0nat,
{
    items.len() > 0 && (stack_shows_content(items.drop_last(), id) || shows_content(
        items.last(),
        id,
    ))
}

pub open spec fn columns_show_content(items: Seq<HboxItem<IrLeaf>>, id: u64) -> bool
    decreases items, 0nat,
{
    if items.len() == 0 {
        false
    } else {
        proof {
            assert(decreases_to!(items => items.last()));
            assert(decreases_to!(items.last() => items.last().layout));
        }
        columns_show_content(items.drop_last(), id) || shows_content(items.last().layout, id)
    }
}

/// Whether some node of a layout shows content `id`.
pub fn retains_content(layout: &LayoutIr, id: u64) -> (found: bool)
    ensures
        found == shows_content(*layout, id),
    decreases layout,
{
    match layout {
        BlockLayout::Empty => false,
        BlockLayout::Leaf(leaf) => match leaf {
            IrLeaf::Content(spec) => spec.content == id,
            _ => false,
        },
        BlockLayout::Vbox(items) => {
            let mut found = false;
            let mut i: usize = 0;
            proof {
                assert(!stack_shows_content(items@.take(0), id));
            }
            while i < items.len()
                invariant
                    i <= items@.len(),
                    decreases_to!(layout => items@),
                    found == stack_shows_content(items@.take(i as int), id),
                decreases items@.len() - i,
            {
                proof {
                    assert(decreases_to!(items@ => items@[i as int]));
                    assert(items@.take(i + 1).drop_last() =~= items@.take(i as int));
                }
                found = found || retains_content(&items[i], id);
                i += 1;
            }
            proof {
                assert(items@.take(i as int) =~= items@);
            }
            found
        },
        BlockLayout::Hbox(items) => {
            let mut found = false;
            let mut i: usize = 0;
            proof {
                assert(!columns_show_content(items@.take(0), id));
            }
            while i < items.len()
                invariant
                    i <= items@.len(),
                    decreases_to!(layout => items@),
                    found == columns_show_content(items@.take(i as int), id),
                decreases items@.len() - i,
            {
                proof {
                    assert(decreases_to!(items@ => items@[i as int]));
                    assert(decreases_to!(items@[i as int] => items@[i as int].layout));
                    assert(items@.take(i + 1).drop_last() =~= items@.take(i as int));
                }
                found = found || retains_content(&items[i].layout, id);
                i += 1;
            }
            proof {
                assert(items@.take(i as int) =~= items@);
            }
            found
        },
        BlockLayout::Gutter { child, .. } => retains_content(child, id),
        BlockLayout::RowPrefix { child, .. } => retains_content(child, id),
        BlockLayout::Panel { child, .. } => retains_content(child, id),
        BlockLayout::Style { child, .. } => retains_content(child, id),
        BlockLayout::Cap { child, .. } => retains_content(child, id),
        BlockLayout::Refresh { child, .. } => retains_content(child, id),
    }
}

/// Bytes `start .. end` that were appended to a content.
#[derive(Clone, Copy, Debug, PartialEq, Eq, Structural)]
pub struct AppendedRange {
    pub start: usize,
    pub end: usize,
}

/// Every range runs forward and ends within the content.
pub open spec fn ranges_within(ranges: Seq<AppendedRange>, content_len: usize) -> bool {
    forall|i: int|
        0 <= i < ranges.len() ==> (#[trigger] ranges[i]).start <= ranges[i].end <= content_len
}

/// `after` is `before`, marked as one whose content has grown.
pub open spec fn grown<T>(before: CachedLayout<T>, after: CachedLayout<T>) -> bool {
    &&& after.id == before.id
    &&& after.key == before.key
    &&& after.layout == before.layout
    &&& after.syntax_theme_revision == before.syntax_theme_revision
    &&& after.weight == before.weight
    &&& after.refresh_at == before.refresh_at
    &&& after.content_hash_pending
    &&& after.measurements@.len() == before.measurements@.len()
    &&& forall|i: int|
        0 <= i < before.measurements@.len() ==> #[trigger] after.measurements@[i] == (
        CachedMeasurement { dirty: true, ..before.measurements@[i] })
    &&& after.rendered_ranges@.len() == before.rendered_ranges@.len()
    &&& forall|i: int|
        0 <= i < before.rendered_ranges@.len() ==> #[trigger] after.rendered_ranges@[i] == (
        CachedRenderRange { dirty: true, ..before.rendered_ranges@[i] })
}

fn mark_grown<T>(entry: &mut CachedLayout<T>)
    ensures
        grown(*old(entry), *final(entry)),
{
    let ghost before = *entry;
    entry.content_hash_pending = true;
    let mut i: usize = 0;
    while i < entry.measurements.len()
        invariant
            i <= entry.measurements@.len(),
            entry.measurements@.len() == before.measurements@.len(),
            forall|j: int|
                0 <= j < i ==> #[trigger] entry.measurements@[j] == (CachedMeasurement {
                    dirty: true,
                    ..before.measurements@[j]
                }),
            forall|j: int|
                i <= j < entry.measurements@.len() ==> entry.measurements@[j]
                    == before.measurements@[j],
            *entry == (CachedLayout {
                content_hash_pending: true,
                measurements: entry.measurements,
                ..before
            }),
        decreases entry.measurements@.len() - i,
    {
        entry.measurements[i].dirty = true;
        i += 1;
    }
    let ghost middle = *entry;
    let mut i: usize = 0;
    while i < entry.rendered_ranges.len()
        invariant
            i <= entry.rendered_ranges@.len(),
            entry.rendered_ranges@.len() == middle.rendered_ranges@.len(),
            forall|j: int|
                0 <= j < i ==> #[trigger] entry.rendered_ranges@[j] == (CachedRenderRange {
                    dirty: true,
                    ..middle.rendered_ranges@[j]
                }),
            forall|j: int|
                i <= j < entry.rendered_ranges@.len() ==> entry.rendered_ranges@[j]
                    == middle.rendered_ranges@[j],
            *entry == (CachedLayout { rendered_ranges: entry.rendered_ranges, ..middle }),
        decreases entry.rendered_ranges@.len() - i,
    {
        entry.rendered_ranges[i].dirty = true;
        i += 1;
    }
}

impl<T> LayoutCache<T> {
    /// Sets the bytes that the cache may keep.
    pub fn set_budget(&mut self, budget: usize)
        requires
            old(self).wf(),
        ensures
            final(self).wf(),
            final(self).budget == budget,
            final(self).enforced(old(self).inline_syntax, old(self).shelf(), old(self).pinned@),
    {
        self.budget = budget;
        self.enforce_budget();
    }

    /// Sets the nodes whose layouts are never dropped for want of room.
    pub fn set_pinned_nodes(&mut self, ids: &Vec<u64>)
        requires
            old(self).wf(),
        ensures
            final(self).wf(),
            final(self).budget == old(self).budget,
            final(self).enforced(old(self).inline_syntax, old(self).shelf(), ids@.to_set()),
    {
        self.pinned = set_of(ids);
        self.enforce_budget();
    }

    /// What the cache keeps, what of it is pinned, and how much it is over its budget.
    pub fn memory_snapshot(&self) -> (snapshot: DisplayMemorySnapshot)
        ensures
            snapshot.layout_bytes == self.spec_retained_bytes(),
            snapshot.pinned_layout_bytes == capped(pinned_weight(self.blocks@, self.pinned@)),
            snapshot.oversize_debt_bytes == self.spec_retained_bytes().saturating_sub(self.budget),
    {
        let mut pinned: usize = 0;
        let mut i: usize = 0;
        proof {
            assert(pinned_weight(self.blocks@.take(0), self.pinned@) == 0);
        }
        while i < self.blocks.len()
            invariant
                i <= self.blocks@.len(),
                pinned == capped(pinned_weight(self.blocks@.take(i as int), self.pinned@)),
                pinned_weight(self.blocks@.take(i as int), self.pinned@) >= 0,
            decreases self.blocks@.len() - i,
        {
            proof {
                assert(self.blocks@.take(i + 1).drop_last() =~= self.blocks@.take(i as int));
            }
            if self.pinned.contains(&self.blocks[i].id) {
                pinned = pinned.saturating_add(self.blocks[i].weight);
            }
            i += 1;
        }
        proof {
            assert(self.blocks@.take(i as int) =~= self.blocks@);
        }
        DisplayMemorySnapshot {
            layout_bytes: self.retained_bytes(),
            pinned_layout_bytes: pinned,
            oversize_debt_bytes: self.retained_bytes().saturating_sub(self.budget),
        }
    }

    /// Notes that a content of a node has grown: what was measured and drawn of the node
    /// is to be brought up to date. Whether the node shows the content.
    pub fn apply_content_append(
        &mut self,
        id: u64,
        content: u64,
        content_len: usize,
        ranges: &Vec<AppendedRange>,
    ) -> (applied: bool)
        requires
            old(self).wf(),
        ensures
            final(self).wf(),
            final(self).inline_syntax == old(self).inline_syntax,
            final(self).pinned == old(self).pinned,
            final(self).retained_bytes == old(self).retained_bytes,
            final(self).budget == old(self).budget,
            match block_position(old(self).blocks@, id, 0) {
                Some(pos) => {
                    &&& applied == (ranges_within(ranges@, content_len) && shows_content(
                        old(self).blocks@[pos].layout,
                        content,
                    ))
                    &&& applied ==> final(self).blocks@.len() == old(self).blocks@.len()
                    &&& applied ==> grown(old(self).blocks@[pos], final(self).blocks@[pos])
                    &&& applied ==> forall|i: int|
                        0 <= i < old(self).blocks@.len() && i != pos
                            ==> #[trigger] final(self).blocks@[i] == old(self).blocks@[i]
                },
                None => !applied,
            },
            !applied ==> *final(self) == *old(self),
    {
        let position = self.position(id);
        match position {
            Some(pos) => {
                let mut i: usize = 0;
                while i < ranges.len()
                    invariant
                        *self == *old(self),
                        self.wf(),
                        i <= ranges@.len(),
                        forall|j: int|
                            0 <= j < i ==> (#[trigger] ranges@[j]).start <= ranges@[j].end
                                <= content_len,
                        block_position(self.blocks@, id, 0) == Some(pos as int),
                    decreases ranges@.len() - i,
                {
                    let range = ranges[i];
                    if range.end < range.start || range.end > content_len {
                        return false;
                    }
                    i += 1;
                }
                if !retains_content(&self.blocks[pos].layout, content) {
                    return false;
                }
                let ghost before = self.blocks@;
                mark_grown(&mut self.blocks[pos]);
                proof {
                    lemma_same_refresh(before, self.blocks@);
                    assert forall|a: int, b: int| 0 <= a < b < self.blocks@.len() implies (
                    #[trigger] self.blocks@[a]).id != (#[trigger] self.blocks@[b]).id by {
                        assert(before[a].id != before[b].id);
                    }
                    assert forall|a: int| 0 <= a < self.blocks@.len() implies (
                    #[trigger] self.blocks@[a]).wf() by {
                        assert(before[a].wf());
                    }
                }
                true
            },
            None => false,
        }
    }
}

/// The ids as a set.
pub(crate) fn set_of(ids: &Vec<u64>) -> (set: HashSet<u64>)
    ensures
        set@ == ids@.to_set(),
{
    let mut set: HashSet<u64> = HashSet::new();
    let mut i: usize = 0;
    proof {
        assert(ids@.take(0).to_set() =~= Set::<u64>::empty());
    }
    while i < ids.len()
        invariant
            i <= ids@.len(),
            set@ == ids@.take(i as int).to_set(),
        decreases ids@.len() - i,
    {
        set.insert(ids[i]);
        proof {
            lemma_to_set_push(ids@, i as int);
        }
        i += 1;
    }
    proof {
        assert(ids@.take(i as int) =~= ids@);
    }
    set
}

pub(crate) proof fn lemma_to_set_push(ids: Seq<u64>, i: int)
    requires
        0 <= i < ids.len(),
    ensures
        ids.take(i + 1).to_set() == ids.take(i).to_set().insert(ids[i]),
{
    let before = ids.take(i);
    let after = ids.take(i + 1);
    assert forall|x: u64| after.to_set().contains(x) == before.to_set().insert(ids[i]).contains(
        x,
    ) by {
        if before.contains(x) {
            let k = choose|k: int| 0 <= k < before.len() && before[k] == x;
            assert(after[k] == x);
        }
        if after.contains(x) {
            let k = choose|k: int| 0 <= k < after.len() && after[k] == x;
            if k < i {
                assert(before[k] == x);
            }
        }
        assert(after[i] == ids[i]);
    }
    assert(after.to_set() =~= before.to_set().insert(ids[i]));
}

/// Bytes of the pinned layouts.
pub open spec fn pinned_weight<T>(blocks: Seq<CachedLayout<T>>, pinned: Set<u64>) -> int
    decreases blocks.len(),
{
    if blocks.len() == 0 {
        0
    } else {
        pinned_weight(blocks.drop_last(), pinned) + if pinned.contains(blocks.last().id) {
            blocks.last().weight as int
        } else {
            0
        }
    }
}

proof fn lemma_same_refresh<T>(a: Seq<CachedLayout<T>>, b: Seq<CachedLayout<T>>)
    requires
        a.len() == b.len(),
        forall|i: int|
            0 <= i < a.len() ==> (#[trigger] a[i]).refresh_at == b[i].refresh_at && a[i].weight
                == b[i].weight,
    ensures
        earliest_refresh(a) == earliest_refresh(b),
        total_weight(a) == total_weight(b),
    decreases a.len(),
{
    if a.len() > 0 {
        assert(a[a.len() - 1].refresh_at == b[a.len() - 1].refresh_at);
        assert forall|i: int| 0 <= i < a.drop_last().len() implies (#[trigger] a.drop_last()[i]).refresh_at
            == b.drop_last()[i].refresh_at && a.drop_last()[i].weight == b.drop_last()[i].weight by {
            assert(a[i].refresh_at == b[i].refresh_at);
        }
        lemma_same_refresh(a.drop_last(), b.drop_last());
    }
}

/// A block that may still be streaming, by what its live layout needs.
#[derive(Clone, Copy, Debug, PartialEq, Eq, Structural)]
#[allow(inconsistent_fields)]
pub enum LiveBlock {
    Text { content: u64 },
    Thinking { titled: bool, summary_titles: usize, content: u64 },
    Other,
}

/// The content that a streaming block shows as it is: that of a text, or of a thought
/// without any title.
pub open spec fn live_content(block: LiveBlock) -> Option<u64> {
    match block {
        LiveBlock::Text { content } => Some(content),
        LiveBlock::Thinking { titled: false, summary_titles, content } if summary_titles == 0 => {
            Some(content)
        },
        _ => None,
    }
}

/// The content that a streaming block shows as it is.
pub fn live_streaming_markdown_content(block: LiveBlock) -> (content: Option<u64>)
    ensures
        content == live_content(block),
{
    match block {
        LiveBlock::Text { content } => Some(content),
        LiveBlock::Thinking { titled, summary_titles, content } => if !titled && summary_titles
            == 0 {
            Some(content)
        } else {
            None
        },
        LiveBlock::Other => None,
    }
}

/// A markdown leaf over a content.
pub open spec fn markdown_leaf(content: u64, dim: bool, italic: bool) -> LayoutIr {
    LayoutIr::Leaf(
        IrLeaf::Content(
            RetainedContentSpec {
                content,
                render: ContentRenderSpec::Markdown { dim, italic, inline: false },
            },
        ),
    )
}

/// `layout` is what a streaming block shows: a text as markdown, a thought dim and in
/// italics behind a bar.
pub open spec fn is_live_layout(block: LiveBlock, layout: LayoutIr) -> bool {
    match block {
        LiveBlock::Text { content } => layout == markdown_leaf(content, false, false),
        LiveBlock::Thinking { content, .. } => {
            &&& layout matches BlockLayout::Gutter { child, spec }
            &&& spec.text@ == "│ "@
            &&& spec.styled
            &&& *child == (LayoutIr::Style {
                child: Box::new(markdown_leaf(content, true, true)),
                spec: StyleSpec {
                    hl_group: None,
                    fg: None,
                    bg: None,
                    dim: true,
                    bold: false,
                    italic: true,
                },
            })
        },
        LiveBlock::Other => false,
    }
}

fn markdown_content_layout(content: u64, dim: bool, italic: bool) -> (layout: LayoutIr)
    ensures
        layout == markdown_leaf(content, dim, italic),
{
    BlockLayout::Leaf(
        IrLeaf::Content(
            RetainedContentSpec {
                content,
                render: ContentRenderSpec::Markdown { dim, italic, inline: false },
            },
        ),
    )
}

/// What a streaming block shows before its renderer is asked.
pub fn expanded_live_streaming_layout(block: LiveBlock) -> (layout: Option<LayoutIr>)
    ensures
        layout is Some == live_content(block) is Some,
        layout is Some ==> is_live_layout(block, layout->0),
{
    match live_streaming_markdown_content(block) {
        None => None,
        Some(content) => match block {
            LiveBlock::Text { .. } => Some(markdown_content_layout(content, false, false)),
            LiveBlock::Thinking { .. } => Some(
                BlockLayout::Gutter {
                    child: Box::new(
                        BlockLayout::Style {
                            child: Box::new(markdown_content_layout(content, true, true)),
                            spec: StyleSpec {
                                hl_group: None,
                                fg: None,
                                bg: None,
                                dim: true,
                                bold: false,
                                italic: true,
                            },
                        },
                    ),
                    spec: GutterSpec { text: String::from_str("│ "), styled: true },
                },
            ),
            LiveBlock::Other => None,
        },
    }
}

/// A node whose layout is asked for.
#[derive(Clone, Copy, Debug)]
pub struct NodeRequest {
    pub id: u64,
    pub key: DisplayCacheKey,
    pub view_state: ViewState,
    pub node: RequestedNode,
}

/// What is known of a node: that it is gone, a block, or a group.
#[derive(Clone, Copy, Debug)]
#[allow(inconsistent_fields)]
pub enum RequestedNode {
    Missing,
    Block { streaming: bool, live: LiveBlock },
    Group,
}

/// How the layout of a node is to be had.
#[derive(Clone, Copy, Debug)]
pub enum PlannedWork {
    /// From the block itself, as [`expanded_live_streaming_layout`] has it.
    Live(LiveBlock),
    /// From the block's renderer.
    Node,
    /// From the group's renderer, over the layouts of its children or without them.
    Group { with_children: bool },
}

/// A layout that is to be compiled for the node at place `request`.
#[derive(Clone, Copy, Debug)]
pub struct PlannedJob {
    pub request: usize,
    pub id: u64,
    pub key: DisplayCacheKey,
    pub view_state: ViewState,
    pub work: PlannedWork,
}

/// How the layout of a node is to be had, if it is there at all.
pub open spec fn work_for(request: NodeRequest) -> Option<PlannedWork> {
    match request.node {
        RequestedNode::Missing => None,
        RequestedNode::Block { streaming, live } => Some(
            if streaming && request.view_state is Expanded && live_content(live) is Some {
                PlannedWork::Live(live)
            } else {
                PlannedWork::Node
            },
        ),
        RequestedNode::Group => Some(
            PlannedWork::Group { with_children: request.view_state is Expanded },
        ),
    }
}

/// The layouts once a node is asked for, and the job that the request leaves.
pub struct Planned<T> {
    pub shelf: Shelf<T>,
    pub jobs: Seq<PlannedJob>,
}

/// One more request. A layout that is up to date, or that only its content's hash is
/// missing of, becomes the newest; that of a node that is gone is dropped; for any other
/// there is a job.
pub open spec fn planned_one<T>(p: Planned<T>, request: NodeRequest, index: int) -> Planned<T> {
    let blocks = p.shelf.blocks;
    let found = block_position(blocks, request.id, 0);
    if found is Some && blocks[found->0].key == request.key {
        Planned { shelf: Shelf { blocks: moved_to_back(blocks, found->0), ..p.shelf }, ..p }
    } else if found is Some && blocks[found->0].content_hash_pending
        && blocks[found->0].key.differs_in_content_at_most(request.key) {
        let promoted = CachedLayout {
            key: request.key,
            content_hash_pending: false,
            ..blocks[found->0]
        };
        Planned {
            shelf: Shelf { blocks: blocks.remove(found->0).push(promoted), ..p.shelf },
            ..p
        }
    } else {
        match work_for(request) {
            None => match found {
                Some(pos) => Planned {
                    shelf: Shelf {
                        blocks: blocks.remove(pos),
                        retained_bytes: p.shelf.retained_bytes.saturating_sub(blocks[pos].weight),
                    },
                    ..p
                },
                None => p,
            },
            Some(work) => Planned {
                jobs: p.jobs.push(
                    PlannedJob {
                        request: index as usize,
                        id: request.id,
                        key: request.key,
                        view_state: request.view_state,
                        work,
                    },
                ),
                ..p
            },
        }
    }
}

/// The first `n` requests.
pub open spec fn planned<T>(shelf: Shelf<T>, requests: Seq<NodeRequest>, n: int) -> Planned<T>
    decreases n,
{
    if n <= 0 {
        Planned { shelf, jobs: Seq::empty() }
    } else {
        planned_one(planned(shelf, requests, n - 1), requests[n - 1], n - 1)
    }
}

fn planned_work(request: &NodeRequest) -> (work: Option<PlannedWork>)
    ensures
        work == work_for(*request),
{
    let expanded = match request.view_state {
        ViewState::Expanded => true,
        _ => false,
    };
    match request.node {
        RequestedNode::Missing => None,
        RequestedNode::Block { streaming, live } => {
            if streaming && expanded && live_streaming_markdown_content(live).is_some() {
                Some(PlannedWork::Live(live))
            } else {
                Some(PlannedWork::Node)
            }
        },
        RequestedNode::Group => Some(PlannedWork::Group { with_children: expanded }),
    }
}

impl<T> LayoutCache<T> {
    /// The jobs for those nodes whose layouts are not in the cache.
    pub fn collect_compile_jobs(&mut self, requests: &Vec<NodeRequest>) -> (jobs: Vec<PlannedJob>)
        requires
            old(self).wf(),
        ensures
            final(self).wf(),
            final(self).inline_syntax == old(self).inline_syntax,
            final(self).pinned == old(self).pinned,
            final(self).budget == old(self).budget,
            planned(old(self).shelf(), requests@, requests@.len() as int) == (Planned {
                shelf: final(self).shelf(),
                jobs: jobs@,
            }),
    {
        let mut jobs: Vec<PlannedJob> = Vec::new();
        let ghost start = self.shelf();
        let mut i: usize = 0;
        proof {
            assert(jobs@ =~= Seq::<PlannedJob>::empty());
        }
        while i < requests.len()
            invariant
                i <= requests@.len(),
                self.wf(),
                start == old(self).shelf(),
                self.inline_syntax == old(self).inline_syntax,
                self.pinned == old(self).pinned,
                self.budget == old(self).budget,
                planned(start, requests@, i as int) == (Planned {
                    shelf: self.shelf(),
                    jobs: jobs@,
                }),
            decreases requests@.len() - i,
        {
            let request = requests[i];
            let ghost before = self.blocks@;
            let position = self.position(request.id);
            let mut cached = false;
            if let Some(pos) = position {
                if self.blocks[pos].key.same(request.key) {
                    self.touch(pos);
                    cached = true;
                } else if self.blocks[pos].content_hash_pending
                    && self.blocks[pos].key.same_render_inputs_except_content(request.key) {
                    proof {
                        lemma_unique_remove(before, pos as int);
                        lemma_remove(before, pos as int);
                    }
                    let mut entry = self.blocks.remove(pos);
                    entry.key = request.key;
                    entry.content_hash_pending = false;
                    self.blocks.push(entry);
                    proof {
                        assert(self.blocks@.drop_last() =~= before.remove(pos as int));
                        lemma_unique_push(before.remove(pos as int), entry);
                    }
                    cached = true;
                }
            }
            if !cached {
                match planned_work(&request) {
                    Some(work) => {
                        jobs.push(
                            PlannedJob {
                                request: i,
                                id: request.id,
                                key: request.key,
                                view_state: request.view_state,
                                work,
                            },
                        );
                    },
                    None => {
                        if let Some(pos) = position {
                            proof {
                                lemma_unique_remove(before, pos as int);
                            }
                            let removed = self.blocks.remove(pos);
                            self.retained_bytes = self.retained_bytes.saturating_sub(
                                removed.weight,
                            );
                            self.recompute_earliest_refresh_at();
                        }
                    },
                }
            }
            i += 1;
        }
        jobs
    }
}

pub(crate) proof fn lemma_unique_push<T>(blocks: Seq<CachedLayout<T>>, entry: CachedLayout<T>)
    requires
        unique_ids(blocks),
        all_wf(blocks),
        entry.wf(),
        forall|i: int| 0 <= i < blocks.len() ==> (#[trigger] blocks[i]).id != entry.id,
    ensures
        unique_ids(blocks.push(entry)),
        all_wf(blocks.push(entry)),
{
    let all = blocks.push(entry);
    assert forall|i: int, j: int| 0 <= i < j < all.len() implies (#[trigger] all[i]).id != (
    #[trigger] all[j]).id by {
        assert(all[i] == blocks[i]);
        if j < blocks.len() {
            assert(all[j] == blocks[j]);
        }
    }
}

} // verus!
