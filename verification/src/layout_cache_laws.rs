//! What always holds of the cache of compiled layouts.
use vstd::prelude::*;
use crate::cached_layout::{moved_to_back, CachedLayout};
use crate::layout_cache::{
    all_wf, block_position, evicted, kept, lemma_block_position, lemma_moved_to_back, lemma_remove,
    lemma_total_weight, pinned_weight, planned_one, total_weight, unique_ids, NodeRequest, Planned,
    Shelf,
};
use crate::layout_cache_use::{due_ids, inserted, lemma_kept, CompiledEntry};

verus! {

/// Whether a layout of the shelf is pinned.
pub open spec fn is_pinned<T>(entry: CachedLayout<T>, pinned: Set<u64>) -> bool {
    pinned.contains(entry.id)
}

/// All layouts from `attempts` on are pinned.
pub open spec fn pinned_from<T>(
    blocks: Seq<CachedLayout<T>>,
    pinned: Set<u64>,
    attempts: nat,
) -> bool {
    forall|i: int| attempts <= i < blocks.len() ==> is_pinned(#[trigger] blocks[i], pinned)
}

/// Making room takes no pinned layout.
pub proof fn pinned_layouts_stay<T>(
    shelf: Shelf<T>,
    pinned: Set<u64>,
    other: usize,
    budget: usize,
    attempts: nat,
    i: int,
)
    requires
        0 <= i < shelf.blocks.len(),
        is_pinned(shelf.blocks[i], pinned),
    ensures
        evicted(shelf, pinned, other, budget, attempts).blocks.contains(shelf.blocks[i]),
    decreases shelf.blocks.len(), attempts,
{
    let blocks = shelf.blocks;
    if shelf.retained_bytes.saturating_add(other) > budget && attempts > 0 {
        let first = blocks[0];
        if pinned.contains(first.id) {
            let next = Shelf { blocks: moved_to_back(blocks, 0), ..shelf };
            let j = if i == 0 {
                blocks.len() - 1
            } else {
                i - 1
            };
            assert(next.blocks[j] == blocks[i]);
            pinned_layouts_stay(next, pinned, other, budget, (attempts - 1) as nat, j);
        } else {
            let next = Shelf {
                blocks: blocks.remove(0),
                retained_bytes: shelf.retained_bytes.saturating_sub(first.weight),
            };
            assert(next.blocks[i - 1] == blocks[i]);
            pinned_layouts_stay(
                next,
                pinned,
                other,
                budget,
                (blocks.len() - 1) as nat,
                i - 1,
            );
        }
    }
}

/// Making room leaves the cache within its budget, unless only pinned layouts are left.
pub proof fn budget_holds_but_for_pins<T>(
    shelf: Shelf<T>,
    pinned: Set<u64>,
    other: usize,
    budget: usize,
    attempts: nat,
)
    requires
        attempts <= shelf.blocks.len(),
        pinned_from(shelf.blocks, pinned, attempts),
    ensures
        ({
            let left = evicted(shelf, pinned, other, budget, attempts);
            ||| left.retained_bytes.saturating_add(other) <= budget
            ||| pinned_from(left.blocks, pinned, 0)
        }),
    decreases shelf.blocks.len(), attempts,
{
    let blocks = shelf.blocks;
    if shelf.retained_bytes.saturating_add(other) > budget && attempts > 0 && blocks.len() > 0 {
        let first = blocks[0];
        if pinned.contains(first.id) {
            let next = Shelf { blocks: moved_to_back(blocks, 0), ..shelf };
            assert forall|i: int| attempts - 1 <= i < next.blocks.len() implies is_pinned(
                #[trigger] next.blocks[i],
                pinned,
            ) by {
                if i < blocks.len() - 1 {
                    assert(next.blocks[i] == blocks[i + 1]);
                }
            }
            budget_holds_but_for_pins(next, pinned, other, budget, (attempts - 1) as nat);
        } else {
            let next = Shelf {
                blocks: blocks.remove(0),
                retained_bytes: shelf.retained_bytes.saturating_sub(first.weight),
            };
            budget_holds_but_for_pins(next, pinned, other, budget, (blocks.len() - 1) as nat);
        }
    }
}

/// Making room puts nothing into the cache, and no node gets two layouts.
pub proof fn eviction_only_removes<T>(
    shelf: Shelf<T>,
    pinned: Set<u64>,
    other: usize,
    budget: usize,
    attempts: nat,
)
    requires
        unique_ids(shelf.blocks),
    ensures
        ({
            let left = evicted(shelf, pinned, other, budget, attempts).blocks;
            &&& forall|i: int| 0 <= i < left.len() ==> shelf.blocks.contains(#[trigger] left[i])
            &&& unique_ids(left)
        }),
    decreases shelf.blocks.len(), attempts,
{
    let blocks = shelf.blocks;
    if shelf.retained_bytes.saturating_add(other) > budget && attempts > 0 && blocks.len() > 0 {
        let first = blocks[0];
        let rest = blocks.remove(0);
        assert forall|a: int, b: int| 0 <= a < b < rest.len() implies (#[trigger] rest[a]).id != (
        #[trigger] rest[b]).id by {
            assert(blocks[a + 1].id != blocks[b + 1].id);
        }
        let next = if pinned.contains(first.id) {
            Shelf { blocks: moved_to_back(blocks, 0), ..shelf }
        } else {
            Shelf {
                blocks: rest,
                retained_bytes: shelf.retained_bytes.saturating_sub(first.weight),
            }
        };
        let tries = if pinned.contains(first.id) {
            (attempts - 1) as nat
        } else {
            (blocks.len() - 1) as nat
        };
        assert forall|i: int| 0 <= i < next.blocks.len() implies blocks.contains(
            #[trigger] next.blocks[i],
        ) by {
            assert(next.blocks[i] == if i < blocks.len() - 1 {
                blocks[i + 1]
            } else {
                blocks[0]
            });
        }
        assert forall|a: int, b: int| 0 <= a < b < next.blocks.len() implies (
        #[trigger] next.blocks[a]).id != (#[trigger] next.blocks[b]).id by {
            assert(next.blocks[a] == blocks[a + 1]);
            if b < blocks.len() - 1 {
                assert(next.blocks[b] == blocks[b + 1]);
            } else {
                assert(next.blocks[b] == blocks[0]);
            }
        }
        eviction_only_removes(next, pinned, other, budget, tries);
        let left = evicted(shelf, pinned, other, budget, attempts).blocks;
        assert forall|i: int| 0 <= i < left.len() implies blocks.contains(#[trigger] left[i]) by {
            assert(next.blocks.contains(left[i]));
            let k = choose|k: int| 0 <= k < next.blocks.len() && next.blocks[k] == left[i];
            assert(blocks.contains(next.blocks[k]));
        }
    } else {
        assert forall|i: int| 0 <= i < blocks.len() implies blocks.contains(#[trigger] blocks[i]) by {}
    }
}

/// Where the bytes counted are those of the layouts, they are so after making room.
pub proof fn eviction_counts_truly<T>(
    shelf: Shelf<T>,
    pinned: Set<u64>,
    other: usize,
    budget: usize,
    attempts: nat,
)
    requires
        shelf.retained_bytes == total_weight(shelf.blocks),
    ensures
        ({
            let left = evicted(shelf, pinned, other, budget, attempts);
            left.retained_bytes == total_weight(left.blocks)
        }),
    decreases shelf.blocks.len(), attempts,
{
    let blocks = shelf.blocks;
    if shelf.retained_bytes.saturating_add(other) > budget && attempts > 0 && blocks.len() > 0 {
        let first = blocks[0];
        if pinned.contains(first.id) {
            lemma_moved_to_back(blocks, 0);
            eviction_counts_truly(
                Shelf { blocks: moved_to_back(blocks, 0), ..shelf },
                pinned,
                other,
                budget,
                (attempts - 1) as nat,
            );
        } else {
            lemma_remove(blocks, 0);
            lemma_total_weight(blocks.remove(0));
            eviction_counts_truly(
                Shelf {
                    blocks: blocks.remove(0),
                    retained_bytes: shelf.retained_bytes.saturating_sub(first.weight),
                },
                pinned,
                other,
                budget,
                (blocks.len() - 1) as nat,
            );
        }
    }
}

/// Of two layouts that are not pinned, the older one goes first: where the newer one is
/// dropped, so is the older one.
pub proof fn oldest_go_first<T>(
    shelf: Shelf<T>,
    pinned: Set<u64>,
    other: usize,
    budget: usize,
    attempts: nat,
    older: int,
    newer: int,
)
    requires
        unique_ids(shelf.blocks),
        0 <= older < newer < shelf.blocks.len(),
        !is_pinned(shelf.blocks[older], pinned),
        !is_pinned(shelf.blocks[newer], pinned),
        attempts <= shelf.blocks.len(),
        pinned_from(shelf.blocks, pinned, attempts),
        evicted(shelf, pinned, other, budget, attempts).blocks.contains(shelf.blocks[older]),
    ensures
        evicted(shelf, pinned, other, budget, attempts).blocks.contains(shelf.blocks[newer]),
    decreases shelf.blocks.len(), attempts,
{
    let blocks = shelf.blocks;
    if shelf.retained_bytes.saturating_add(other) > budget && attempts > 0 {
        let first = blocks[0];
        eviction_only_removes(
            Shelf { blocks, ..shelf },
            pinned,
            other,
            budget,
            attempts,
        );
        if pinned.contains(first.id) {
            let next = Shelf { blocks: moved_to_back(blocks, 0), ..shelf };
            assert forall|i: int| attempts - 1 <= i < next.blocks.len() implies is_pinned(
                #[trigger] next.blocks[i],
                pinned,
            ) by {
                if i < blocks.len() - 1 {
                    assert(next.blocks[i] == blocks[i + 1]);
                }
            }
            assert(next.blocks[older - 1] == blocks[older]);
            assert(next.blocks[newer - 1] == blocks[newer]);
            assert forall|a: int, b: int| 0 <= a < b < next.blocks.len() implies (
            #[trigger] next.blocks[a]).id != (#[trigger] next.blocks[b]).id by {
                assert(next.blocks[a] == blocks[a + 1]);
                if b < blocks.len() - 1 {
                    assert(next.blocks[b] == blocks[b + 1]);
                } else {
                    assert(next.blocks[b] == blocks[0]);
                }
            }
            oldest_go_first(
                next,
                pinned,
                other,
                budget,
                (attempts - 1) as nat,
                older - 1,
                newer - 1,
            );
        } else {
            let next = Shelf {
                blocks: blocks.remove(0),
                retained_bytes: shelf.retained_bytes.saturating_sub(first.weight),
            };
            assert forall|a: int, b: int| 0 <= a < b < next.blocks.len() implies (
            #[trigger] next.blocks[a]).id != (#[trigger] next.blocks[b]).id by {
                assert(blocks[a + 1].id != blocks[b + 1].id);
            }
            let tries = (blocks.len() - 1) as nat;
            if older == 0 {
                eviction_only_removes(next, pinned, other, budget, tries);
                let left = evicted(next, pinned, other, budget, tries).blocks;
                let k = choose|k: int| 0 <= k < left.len() && left[k] == blocks[0];
                assert(next.blocks.contains(left[k]));
                let l = choose|l: int| 0 <= l < next.blocks.len() && next.blocks[l] == left[k];
                assert(next.blocks[l] == blocks[l + 1]);
                assert(blocks[0].id != blocks[l + 1].id);
            } else {
                assert(next.blocks[older - 1] == blocks[older]);
                assert(next.blocks[newer - 1] == blocks[newer]);
                oldest_go_first(next, pinned, other, budget, tries, older - 1, newer - 1);
            }
        }
    } else {
        assert(blocks.contains(blocks[newer]));
    }
}

proof fn lemma_only_one_unpinned<T>(blocks: Seq<CachedLayout<T>>, pinned: Set<u64>, i: int)
    requires
        0 <= i < blocks.len(),
        !is_pinned(blocks[i], pinned),
        forall|j: int| 0 <= j < blocks.len() && j != i ==> is_pinned(#[trigger] blocks[j], pinned),
    ensures
        total_weight(blocks) == pinned_weight(blocks, pinned) + blocks[i].weight,
    decreases blocks.len(),
{
    let init = blocks.drop_last();
    if i < blocks.len() - 1 {
        assert forall|j: int| 0 <= j < init.len() && j != i implies is_pinned(
            #[trigger] init[j],
            pinned,
        ) by {
            assert(init[j] == blocks[j]);
        }
        assert(is_pinned(blocks[blocks.len() - 1], pinned));
        lemma_only_one_unpinned(init, pinned, i);
    } else {
        assert forall|j: int| 0 <= j < init.len() implies is_pinned(#[trigger] init[j], pinned) by {
            assert(init[j] == blocks[j]);
        }
        lemma_all_pinned(init, pinned);
    }
}

proof fn lemma_all_pinned<T>(blocks: Seq<CachedLayout<T>>, pinned: Set<u64>)
    requires
        forall|j: int| 0 <= j < blocks.len() ==> is_pinned(#[trigger] blocks[j], pinned),
    ensures
        total_weight(blocks) == pinned_weight(blocks, pinned),
    decreases blocks.len(),
{
    if blocks.len() > 0 {
        assert(is_pinned(blocks[blocks.len() - 1], pinned));
        assert forall|j: int| 0 <= j < blocks.drop_last().len() implies is_pinned(
            #[trigger] blocks.drop_last()[j],
            pinned,
        ) by {
            assert(blocks.drop_last()[j] == blocks[j]);
        }
        lemma_all_pinned(blocks.drop_last(), pinned);
    }
}

proof fn lemma_pinned_weight_moved<T>(blocks: Seq<CachedLayout<T>>, pinned: Set<u64>)
    requires
        blocks.len() > 0,
    ensures
        pinned_weight(moved_to_back(blocks, 0), pinned) == pinned_weight(blocks, pinned),
        pinned_weight(blocks.remove(0), pinned) == pinned_weight(blocks, pinned) - if is_pinned(
            blocks[0],
            pinned,
        ) {
            blocks[0].weight as int
        } else {
            0
        },
    decreases blocks.len(),
{
    assert(moved_to_back(blocks, 0).drop_last() =~= blocks.remove(0));
    assert(moved_to_back(blocks, 0).last() == blocks[0]);
    assert(pinned_weight(moved_to_back(blocks, 0), pinned) == pinned_weight(
        blocks.remove(0),
        pinned,
    ) + if is_pinned(blocks[0], pinned) {
        blocks[0].weight as int
    } else {
        0
    });
    if blocks.len() > 1 {
        lemma_pinned_weight_moved(blocks.drop_last(), pinned);
        assert(blocks.remove(0).drop_last() =~= blocks.drop_last().remove(0));
        assert(blocks.drop_last()[0] == blocks[0]);
        assert(blocks.remove(0).last() == blocks.last());
    } else {
        assert(blocks.remove(0) =~= Seq::<CachedLayout<T>>::empty());
        assert(blocks.drop_last() =~= Seq::<CachedLayout<T>>::empty());
        assert(pinned_weight(blocks.remove(0), pinned) == 0);
        assert(pinned_weight(blocks.drop_last(), pinned) == 0);
    }
}

/// The newest layout is not dropped to make room for older ones: it stays where there is
/// room for it beside the pinned ones.
pub proof fn newest_stays_if_it_fits<T>(
    shelf: Shelf<T>,
    pinned: Set<u64>,
    other: usize,
    budget: usize,
    attempts: nat,
    newest: int,
)
    requires
        shelf.retained_bytes == total_weight(shelf.blocks),
        0 <= newest < shelf.blocks.len(),
        attempts <= shelf.blocks.len(),
        forall|j: int|
            newest < j < shelf.blocks.len() ==> is_pinned(#[trigger] shelf.blocks[j], pinned),
        pinned_weight(shelf.blocks, pinned) + shelf.blocks[newest].weight + other <= budget,
    ensures
        evicted(shelf, pinned, other, budget, attempts).blocks.contains(shelf.blocks[newest]),
    decreases shelf.blocks.len(), attempts,
{
    let blocks = shelf.blocks;
    if is_pinned(blocks[newest], pinned) {
        pinned_layouts_stay(shelf, pinned, other, budget, attempts, newest);
    } else if shelf.retained_bytes.saturating_add(other) > budget && attempts > 0 {
        let first = blocks[0];
        lemma_pinned_weight_moved(blocks, pinned);
        lemma_remove(blocks, 0);
        lemma_total_weight(blocks.remove(0));
        if pinned.contains(first.id) {
            let next = Shelf { blocks: moved_to_back(blocks, 0), ..shelf };
            lemma_moved_to_back(blocks, 0);
            assert(next.blocks[newest - 1] == blocks[newest]);
            assert forall|j: int| newest - 1 < j < next.blocks.len() implies is_pinned(
                #[trigger] next.blocks[j],
                pinned,
            ) by {
                if j < blocks.len() - 1 {
                    assert(next.blocks[j] == blocks[j + 1]);
                }
            }
            newest_stays_if_it_fits(next, pinned, other, budget, (attempts - 1) as nat, newest - 1);
        } else {
            let next = Shelf {
                blocks: blocks.remove(0),
                retained_bytes: shelf.retained_bytes.saturating_sub(first.weight),
            };
            if newest == 0 {
                lemma_only_one_unpinned(blocks, pinned, 0);
                assert(false);
            } else {
                assert(next.blocks[newest - 1] == blocks[newest]);
                assert forall|j: int| newest - 1 < j < next.blocks.len() implies is_pinned(
                    #[trigger] next.blocks[j],
                    pinned,
                ) by {
                    assert(next.blocks[j] == blocks[j + 1]);
                }
                newest_stays_if_it_fits(
                    next,
                    pinned,
                    other,
                    budget,
                    (blocks.len() - 1) as nat,
                    newest - 1,
                );
            }
        }
    } else {
        assert(blocks.contains(blocks[newest]));
    }
}

/// What was cached for a node is what is found for it.
pub proof fn inserted_layout_is_found<T>(
    before: Shelf<T>,
    compiled: CompiledEntry,
    theme_revision: u64,
    after: Shelf<T>,
)
    requires
        unique_ids(before.blocks),
        inserted(before, compiled, theme_revision, after),
    ensures
        ({
            let found = block_position(after.blocks, compiled.id, 0);
            &&& found is Some
            &&& after.blocks[found->0].key == compiled.key
            &&& after.blocks[found->0].layout == compiled.layout
        }),
{
    lemma_block_position(after.blocks, compiled.id, 0);
    lemma_block_position(before.blocks, compiled.id, 0);
    let last = after.blocks.len() - 1;
    assert(after.blocks[last].id == compiled.id);
    let rest = after.blocks.drop_last();
    assert forall|j: int| 0 <= j < rest.len() implies (#[trigger] after.blocks[j]).id
        != compiled.id by {
        assert(rest[j] == after.blocks[j]);
        match block_position(before.blocks, compiled.id, 0) {
            Some(pos) => {
                assert(rest[j] == before.blocks[if j < pos {
                    j
                } else {
                    j + 1
                }]);
            },
            None => {
                assert(rest[j] == before.blocks[j]);
            },
        }
    }
}

/// A node whose layout is cached under the key asked for leaves no job, and no layout is
/// lost to the asking.
pub proof fn cached_nodes_are_not_compiled<T>(p: Planned<T>, request: NodeRequest, index: int)
    requires
        ({
            let found = block_position(p.shelf.blocks, request.id, 0);
            found is Some && p.shelf.blocks[found->0].key == request.key
        }),
    ensures
        planned_one(p, request, index).jobs == p.jobs,
        planned_one(p, request, index).shelf.blocks.len() == p.shelf.blocks.len(),
        planned_one(p, request, index).shelf.retained_bytes == p.shelf.retained_bytes,
{
    lemma_block_position(p.shelf.blocks, request.id, 0);
}

/// Once what is due has expired, nothing is due.
pub proof fn expiry_leaves_nothing_due<T>(blocks: Seq<CachedLayout<T>>, now: u64, i: int)
    requires
        unique_ids(blocks),
        all_wf(blocks),
        ({
            let keep = |entry: CachedLayout<T>|
                due_ids(blocks, now).to_set().contains(entry.id) == false;
            0 <= i < kept(blocks, keep).len()
        }),
    ensures
        ({
            let keep = |entry: CachedLayout<T>|
                due_ids(blocks, now).to_set().contains(entry.id) == false;
            let entry = kept(blocks, keep)[i];
            entry.refresh_at is None || entry.refresh_at->0 > now
        }),
{
    let keep = |entry: CachedLayout<T>| due_ids(blocks, now).to_set().contains(entry.id) == false;
    lemma_kept(blocks, keep);
    let entry = kept(blocks, keep)[i];
    assert(blocks.contains(entry));
    let k = choose|k: int| 0 <= k < blocks.len() && blocks[k] == entry;
    if entry.refresh_at is Some && entry.refresh_at->0 <= now {
        lemma_due_ids(blocks, now, k);
    }
}

proof fn lemma_due_ids<T>(blocks: Seq<CachedLayout<T>>, now: u64, k: int)
    requires
        0 <= k < blocks.len(),
        blocks[k].refresh_at is Some,
        blocks[k].refresh_at->0 <= now,
    ensures
        due_ids(blocks, now).contains(blocks[k].id),
    decreases blocks.len(),
{
    let all = due_ids(blocks, now);
    let init = blocks.drop_last();
    if k < init.len() {
        assert(init[k] == blocks[k]);
        lemma_due_ids(init, now, k);
        let some = due_ids(init, now);
        let j = choose|j: int| 0 <= j < some.len() && some[j] == blocks[k].id;
        assert(all[j] == blocks[k].id);
    } else {
        assert(all[all.len() - 1] == blocks[k].id);
    }
}

} // verus!
