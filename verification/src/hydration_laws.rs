//! Compiled blocks survive being stored and taken in again.
use vstd::prelude::*;
use crate::display_block::{compiled, BlockContent, DisplayCacheKey, ToolState};
use crate::display_model::{
    block_state, compiled_jobs, count_taken, ensured, hash_of, inserted, is_cached, is_current,
    is_run, is_step, jobs_for, request_key, state_of, stored, swept, takes_body, tool_place,
    with_body, BlockHistory, BlockRequest, CachedContent, EntryContent, HydrationRun, JobContent,
    ToolEntry,
};

verus! {

/// Both have the same tool calls in the same places, each in the same state but for its body.
pub open spec fn same_but_bodies(a: Seq<ToolEntry>, b: Seq<ToolEntry>) -> bool {
    &&& a.len() == b.len()
    &&& forall|i: int|
        0 <= i < a.len() ==> (#[trigger] a[i]).call_id@ == b[i].call_id@ && a[i].state.details
            == b[i].state.details
}

/// The key is the one that `resolve` gives for a block of the history whenever the block has
/// the state that its tool call has there.
pub open spec fn is_key<H: Fn(ToolState) -> u64, K: Fn(&BlockHistory, u64) -> (u64, u64)>(
    hash: H,
    resolve: K,
    history: BlockHistory,
    id: u64,
    key: DisplayCacheKey,
) -> bool {
    let block = history.blocks@[id]@;
    let state = block_state(history, block);
    &&& history.blocks@.contains_key(id)
    &&& block is ToolCall ==> state is Some && hash_of(hash, state->0) == key.sidecar_hash
    &&& forall|other: BlockHistory, hashes: (u64, u64)|
        other.blocks == history.blocks && block_state(other, block) == state && #[trigger]
            call_ensures(resolve, (&other, id), hashes) ==> DisplayCacheKey::of(
            hashes.0,
            hashes.1,
        ) == key
}

/// The entry is a block of the history as it was compiled, in the state that its tool call has
/// there, under its key.
pub open spec fn stored_from<
    P: Fn(&str, &str) -> u64,
    H: Fn(ToolState) -> u64,
    K: Fn(&BlockHistory, u64) -> (u64, u64),
>(parse: P, hash: H, resolve: K, history: BlockHistory, entry: EntryContent) -> bool {
    let block = history.blocks@[entry.id]@;
    &&& is_key(hash, resolve, history, entry.id, entry.key)
    &&& entry.block == compiled(parse, block, block_state(history, block))
}

proof fn lemma_same_place(a: Seq<ToolEntry>, b: Seq<ToolEntry>, call_id: Seq<char>, i: int)
    requires
        same_but_bodies(a, b),
        0 <= i,
    ensures
        tool_place(a, call_id, i) == tool_place(b, call_id, i),
        tool_place(a, call_id, i) >= i,
    decreases a.len() - i,
{
    if i < a.len() {
        assert(a[i].call_id@ == b[i].call_id@);
        if a[i].call_id@ != call_id {
            lemma_same_place(a, b, call_id, i + 1);
        }
    }
}

proof fn lemma_place_found(states: Seq<ToolEntry>, call_id: Seq<char>, i: int)
    requires
        0 <= i <= states.len(),
    ensures
        i <= tool_place(states, call_id, i) <= states.len(),
    decreases states.len() - i,
{
    if i < states.len() && states[i].call_id@ != call_id {
        lemma_place_found(states, call_id, i + 1);
    }
}

/// The body that the full history has, put into another that differs in bodies: the tool call
/// then has the state that it has in the full one, and they still differ in bodies at most.
proof fn lemma_body_restored(
    states: Seq<ToolEntry>,
    full: Seq<ToolEntry>,
    call_id: Seq<char>,
)
    requires
        same_but_bodies(states, full),
        state_of(full, call_id) is Some,
    ensures
        state_of(states, call_id) is Some,
        state_of(states, call_id)->0.details == state_of(full, call_id)->0.details,
        ({
            let after = with_body(states, call_id, state_of(full, call_id)->0.body);
            &&& same_but_bodies(after, full)
            &&& state_of(after, call_id) == state_of(full, call_id)
        }),
{
    lemma_same_place(states, full, call_id, 0);
    lemma_place_found(states, call_id, 0);
    let i = tool_place(states, call_id, 0);
    assert(states[i].state.details == full[i].state.details);
    let after = with_body(states, call_id, state_of(full, call_id)->0.body);
    assert forall|j: int| 0 <= j < after.len() implies (#[trigger] after[j]).call_id@
        == full[j].call_id@ && after[j].state.details == full[j].state.details by {
        assert(states[j].call_id@ == full[j].call_id@);
    }
    lemma_same_place(after, full, call_id, 0);
}

proof fn lemma_entry_is_taken<
    P: Fn(&str, &str) -> u64,
    H: Fn(ToolState) -> u64,
    K: Fn(&BlockHistory, u64) -> (u64, u64),
>(
    parse: P,
    hash: H,
    resolve: K,
    full: BlockHistory,
    entries: Seq<EntryContent>,
    run: HydrationRun,
    i: int,
)
    requires
        0 <= i < entries.len(),
        is_step(parse, hash, resolve, entries, run, i),
        stored_from(parse, hash, resolve, full, entries[i]),
        run.histories[i].blocks == full.blocks,
        same_but_bodies(run.histories[i].tool_states@, full.tool_states@),
    ensures
        run.taken[i],
        run.histories[i + 1].blocks == full.blocks,
        same_but_bodies(run.histories[i + 1].tool_states@, full.tool_states@),
        run.models[i + 1] == run.models[i].insert(
            entries[i].id,
            CachedContent { key: entries[i].key, block: entries[i].block },
        ),
{
    let entry = entries[i];
    let block = full.blocks@[entry.id]@;
    let before = run.histories[i];
    let after = run.histories[i + 1];
    assert(is_current(parse, before, entry));
    if let BlockContent::ToolCall { call_id, .. } = block {
        lemma_body_restored(before.tool_states@, full.tool_states@, call_id);
        let state = state_of(full.tool_states@, call_id)->0;
        assert(entry.block.state == Some(state));
        assert(ToolState {
            details: state_of(before.tool_states@, call_id)->0.details,
            body: state.body,
        } == state);
    }
    assert(takes_body(hash, before, entry));
    assert(block_state(after, block) == block_state(full, block));
    assert(call_ensures(resolve, (&after, entry.id), run.hashes[i]));
}

proof fn lemma_run_takes<
    P: Fn(&str, &str) -> u64,
    H: Fn(ToolState) -> u64,
    K: Fn(&BlockHistory, u64) -> (u64, u64),
>(
    parse: P,
    hash: H,
    resolve: K,
    full: BlockHistory,
    entries: Seq<EntryContent>,
    run: HydrationRun,
    n: int,
)
    requires
        0 <= n <= entries.len(),
        is_run(parse, hash, resolve, entries, run),
        forall|i: int|
            0 <= i < entries.len() ==> stored_from(
                parse,
                hash,
                resolve,
                full,
                #[trigger] entries[i],
            ),
        run.histories[0].blocks == full.blocks,
        same_but_bodies(run.histories[0].tool_states@, full.tool_states@),
    ensures
        run.histories[n].blocks == full.blocks,
        same_but_bodies(run.histories[n].tool_states@, full.tool_states@),
        run.models[n] == inserted(run.models[0], entries, n),
        count_taken(run.taken.take(n)) == n,
    decreases n,
{
    if n > 0 {
        lemma_run_takes(parse, hash, resolve, full, entries, run, n - 1);
        assert(is_step(parse, hash, resolve, entries, run, n - 1));
        assert(stored_from(parse, hash, resolve, full, entries[n - 1]));
        lemma_entry_is_taken(parse, hash, resolve, full, entries, run, n - 1);
        assert(run.taken.take(n).drop_last() =~= run.taken.take(n - 1));
    } else {
        assert(run.taken.take(0) =~= Seq::<bool>::empty());
    }
}

proof fn lemma_inserted_keys(
    model: Map<u64, CachedContent>,
    entries: Seq<EntryContent>,
    n: int,
    i: int,
)
    requires
        0 <= i < n <= entries.len(),
        forall|a: int, b: int|
            0 <= a < b < entries.len() ==> (#[trigger] entries[a]).id != (#[trigger] entries[b]).id,
    ensures
        is_cached(inserted(model, entries, n), entries[i].id, entries[i].key),
    decreases n,
{
    if i < n - 1 {
        lemma_inserted_keys(model, entries, n - 1, i);
        assert(entries[i].id != entries[n - 1].id);
    }
}

proof fn lemma_nothing_to_compile(
    model: Map<u64, CachedContent>,
    history: BlockHistory,
    requests: Seq<BlockRequest>,
    n: int,
)
    requires
        0 <= n <= requests.len(),
        forall|r: int|
            0 <= r < requests.len() ==> is_cached(
                model,
                (#[trigger] requests[r]).id,
                request_key(requests[r]),
            ),
    ensures
        swept(model, history, requests, n) == model,
        jobs_for(model, history, requests, n) == Seq::<JobContent>::empty(),
    decreases n,
{
    if n > 0 {
        lemma_nothing_to_compile(model, history, requests, n - 1);
        assert(is_cached(model, requests[n - 1].id, request_key(requests[n - 1])));
    }
}

/// What was stored of a history is all taken in again by a model of nothing, though the tool
/// calls of the history may have lost their bodies since, and then there is nothing left to
/// compile of it.
pub proof fn stored_blocks_are_all_taken_in<
    P: Fn(&str, &str) -> u64,
    H: Fn(ToolState) -> u64,
    K: Fn(&BlockHistory, u64) -> (u64, u64),
>(
    parse: P,
    hash: H,
    resolve: K,
    full: BlockHistory,
    entries: Seq<EntryContent>,
    run: HydrationRun,
    requests: Seq<BlockRequest>,
)
    requires
        is_run(parse, hash, resolve, entries, run),
        run.models[0] == Map::<u64, CachedContent>::empty(),
        run.histories[0].blocks == full.blocks,
        same_but_bodies(run.histories[0].tool_states@, full.tool_states@),
        forall|i: int|
            0 <= i < entries.len() ==> stored_from(
                parse,
                hash,
                resolve,
                full,
                #[trigger] entries[i],
            ),
        forall|a: int, b: int|
            0 <= a < b < entries.len() ==> (#[trigger] entries[a]).id != (#[trigger] entries[b]).id,
        forall|r: int|
            0 <= r < requests.len() ==> exists|i: int|
                0 <= i < entries.len() && (#[trigger] entries[i]).id == (
                #[trigger] requests[r]).id && entries[i].key == request_key(requests[r]),
    ensures
        count_taken(run.taken) == entries.len(),
        run.models.last() == inserted(Map::empty(), entries, entries.len() as int),
        jobs_for(run.models.last(), run.histories.last(), requests, requests.len() as int)
            == Seq::<JobContent>::empty(),
        swept(run.models.last(), run.histories.last(), requests, requests.len() as int)
            == run.models.last(),
{
    let n = entries.len() as int;
    lemma_run_takes(parse, hash, resolve, full, entries, run, n);
    assert(run.taken.take(n) =~= run.taken);
    let model = run.models.last();
    assert forall|r: int| 0 <= r < requests.len() implies is_cached(
        model,
        (#[trigger] requests[r]).id,
        request_key(requests[r]),
    ) by {
        let i = choose|i: int|
            0 <= i < entries.len() && (#[trigger] entries[i]).id == requests[r].id
                && entries[i].key == request_key(requests[r]);
        lemma_inserted_keys(Map::empty(), entries, n, i);
    }
    lemma_nothing_to_compile(model, run.histories.last(), requests, requests.len() as int);
}

proof fn lemma_first_jobs(history: BlockHistory, requests: Seq<BlockRequest>, n: int)
    requires
        0 <= n <= requests.len(),
        forall|r: int|
            0 <= r < requests.len() ==> history.blocks@.contains_key((#[trigger] requests[r]).id),
    ensures
        swept(Map::empty(), history, requests, n) == Map::<u64, CachedContent>::empty(),
        jobs_for(Map::empty(), history, requests, n).len() == n,
        forall|i: int|
            0 <= i < n ==> #[trigger] jobs_for(Map::empty(), history, requests, n)[i] == (
            JobContent {
                id: requests[i].id,
                key: request_key(requests[i]),
                block: history.blocks@[requests[i].id]@,
                state: block_state(history, history.blocks@[requests[i].id]@),
            }),
    decreases n,
{
    if n > 0 {
        lemma_first_jobs(history, requests, n - 1);
        assert(history.blocks@.contains_key(requests[n - 1].id));
    }
}

proof fn lemma_inserted_from(entries: Seq<EntryContent>, n: int, id: u64)
    requires
        0 <= n <= entries.len(),
    ensures
        inserted(Map::empty(), entries, n).contains_key(id) == exists|i: int|
            0 <= i < n && (#[trigger] entries[i]).id == id,
        inserted(Map::empty(), entries, n).contains_key(id) ==> exists|i: int|
            0 <= i < n && (#[trigger] entries[i]).id == id && inserted(
                Map::empty(),
                entries,
                n,
            )[id] == (CachedContent { key: entries[i].key, block: entries[i].block }),
    decreases n,
{
    if n > 0 {
        lemma_inserted_from(entries, n - 1, id);
        let before = inserted(Map::empty(), entries, n - 1);
        if entries[n - 1].id != id && before.contains_key(id) {
            let i = choose|i: int|
                0 <= i < n - 1 && (#[trigger] entries[i]).id == id && before[id] == (
                CachedContent { key: entries[i].key, block: entries[i].block });
            assert(entries[i].id == id);
        }
    }
}

proof fn lemma_stored(model: Map<u64, CachedContent>, order: Seq<u64>, n: int)
    requires
        0 <= n <= order.len(),
        order.no_duplicates(),
    ensures
        ({
            let entries = stored(model, order, n);
            &&& forall|j: int|
                0 <= j < entries.len() ==> {
                    let entry = #[trigger] entries[j];
                    &&& order.take(n).contains(entry.id)
                    &&& model.contains_key(entry.id)
                    &&& model[entry.id] == CachedContent { key: entry.key, block: entry.block }
                }
            &&& forall|a: int, b: int|
                0 <= a < b < entries.len() ==> (#[trigger] entries[a]).id != (
                #[trigger] entries[b]).id
            &&& forall|k: int|
                0 <= k < n && model.contains_key(#[trigger] order[k]) ==> exists|j: int|
                    0 <= j < entries.len() && (#[trigger] entries[j]).id == order[k]
        }),
    decreases n,
{
    if n > 0 {
        lemma_stored(model, order, n - 1);
        let id = order[n - 1];
        let before = stored(model, order, n - 1);
        let entries = stored(model, order, n);
        assert forall|j: int| 0 <= j < entries.len() implies {
            let entry = #[trigger] entries[j];
            &&& order.take(n).contains(entry.id)
            &&& model.contains_key(entry.id)
            &&& model[entry.id] == CachedContent { key: entry.key, block: entry.block }
        } by {
            if j < before.len() {
                assert(entries[j] == before[j]);
                let k = choose|k: int|
                    0 <= k < n - 1 && #[trigger] order.take(n - 1)[k] == before[j].id;
                assert(order.take(n)[k] == before[j].id);
            } else {
                assert(order.take(n)[n - 1] == id);
            }
        }
        assert forall|a: int, b: int| 0 <= a < b < entries.len() implies (
        #[trigger] entries[a]).id != (#[trigger] entries[b]).id by {
            assert(entries[a] == before[a]);
            if b < before.len() {
                assert(entries[b] == before[b]);
            } else {
                let k = choose|k: int|
                    0 <= k < n - 1 && #[trigger] order.take(n - 1)[k] == before[a].id;
                assert(order[k] != order[n - 1]);
            }
        }
        assert forall|k: int| 0 <= k < n && model.contains_key(#[trigger] order[k]) implies exists|
            j: int,
        | 0 <= j < entries.len() && (#[trigger] entries[j]).id == order[k] by {
            if k < n - 1 {
                let j = choose|j: int|
                    0 <= j < before.len() && (#[trigger] before[j]).id == order[k];
                assert(entries[j].id == order[k]);
            } else {
                assert(entries[entries.len() - 1].id == id);
            }
        }
    }
}

/// Blocks of a history that were asked for and compiled survive being stored: a model of
/// nothing takes all that was stored in, though the tool calls of the history may have lost
/// their bodies since, and asking for the same blocks again there is nothing to compile.
pub proof fn ensured_blocks_survive_storing<
    P: Fn(&str, &str) -> u64,
    H: Fn(ToolState) -> u64,
    K: Fn(&BlockHistory, u64) -> (u64, u64),
>(
    parse: P,
    hash: H,
    resolve: K,
    full: BlockHistory,
    requests: Seq<BlockRequest>,
    order: Seq<u64>,
    run: HydrationRun,
)
    requires
        order.no_duplicates(),
        forall|r: int|
            0 <= r < requests.len() ==> order.contains((#[trigger] requests[r]).id) && is_key(
                hash,
                resolve,
                full,
                requests[r].id,
                request_key(requests[r]),
            ),
        forall|a: int, b: int|
            0 <= a < b < requests.len() && (#[trigger] requests[a]).id == (
            #[trigger] requests[b]).id ==> request_key(requests[a]) == request_key(requests[b]),
        is_run(
            parse,
            hash,
            resolve,
            stored(ensured(parse, Map::empty(), full, requests), order, order.len() as int),
            run,
        ),
        run.models[0] == Map::<u64, CachedContent>::empty(),
        run.histories[0].blocks == full.blocks,
        same_but_bodies(run.histories[0].tool_states@, full.tool_states@),
    ensures
        count_taken(run.taken) == stored(
            ensured(parse, Map::empty(), full, requests),
            order,
            order.len() as int,
        ).len(),
        jobs_for(run.models.last(), run.histories.last(), requests, requests.len() as int)
            == Seq::<JobContent>::empty(),
        swept(run.models.last(), run.histories.last(), requests, requests.len() as int)
            == run.models.last(),
{
    let n = requests.len() as int;
    let model = ensured(parse, Map::empty(), full, requests);
    let entries = stored(model, order, order.len() as int);
    assert forall|r: int| 0 <= r < requests.len() implies full.blocks@.contains_key(
        (#[trigger] requests[r]).id,
    ) by {
        assert(is_key(hash, resolve, full, requests[r].id, request_key(requests[r])));
    }
    lemma_first_jobs(full, requests, n);
    lemma_stored(model, order, order.len() as int);
    let jobs = jobs_for(Map::empty(), full, requests, n);
    let first = compiled_jobs(parse, jobs);
    assert forall|j: int| 0 <= j < entries.len() implies stored_from(
        parse,
        hash,
        resolve,
        full,
        #[trigger] entries[j],
    ) by {
        let entry = entries[j];
        lemma_inserted_from(first, n, entry.id);
        let i = choose|i: int|
            0 <= i < n && (#[trigger] first[i]).id == entry.id && model[entry.id] == (
            CachedContent { key: first[i].key, block: first[i].block });
        assert(jobs[i].id == requests[i].id);
        assert(is_key(hash, resolve, full, requests[i].id, request_key(requests[i])));
    }
    assert forall|r: int| 0 <= r < requests.len() implies exists|j: int|
        0 <= j < entries.len() && (#[trigger] entries[j]).id == (#[trigger] requests[r]).id
            && entries[j].key == request_key(requests[r]) by {
        let id = requests[r].id;
        assert(jobs[r].id == id);
        assert(first[r].id == id);
        lemma_inserted_from(first, n, id);
        let k = choose|k: int| 0 <= k < order.len() && #[trigger] order[k] == id;
        let j = choose|j: int| 0 <= j < entries.len() && (#[trigger] entries[j]).id == order[k];
        let i = choose|i: int|
            0 <= i < n && (#[trigger] first[i]).id == id && model[id] == (CachedContent {
                key: first[i].key,
                block: first[i].block,
            });
        assert(jobs[i].id == requests[i].id);
        assert(requests[i].id == requests[r].id);
        assert(request_key(requests[i]) == request_key(requests[r]));
        assert(entries[j].key == request_key(requests[r]));
    }
    stored_blocks_are_all_taken_in(parse, hash, resolve, full, entries, run, requests);
}

} // verus!
