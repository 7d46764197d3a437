//! The compiled blocks of a transcript, kept by block.
use vstd::prelude::*;
use std::collections::HashMap;
use crate::display_block::{
    code_of, compile_block, compiled, copy_block, copy_display_block, matches_content, pure_parser,
    Block, BlockContent, DisplayBlock, DisplayCacheKey, DisplayContent, ToolState,
};
use crate::keys::LayoutKey;

verus! {

broadcast use vstd::std_specs::hash::group_hash_axioms;

/// The state of the tool call of this id.
#[derive(Debug)]
pub struct ToolEntry {
    pub call_id: String,
    pub state: ToolState,
}

/// The blocks of a transcript, and the states of its tool calls.
#[derive(Debug)]
pub struct BlockHistory {
    pub blocks: HashMap<u64, Block>,
    pub tool_states: Vec<ToolEntry>,
}

/// The place of the state of a tool call, from `i` on.
pub open spec fn tool_place(states: Seq<ToolEntry>, call_id: Seq<char>, i: int) -> int
    decreases states.len() - i,
{
    if i >= states.len() || states[i].call_id@ == call_id {
        i
    } else {
        tool_place(states, call_id, i + 1)
    }
}

/// The state of a tool call.
pub open spec fn state_of(states: Seq<ToolEntry>, call_id: Seq<char>) -> Option<ToolState> {
    let i = tool_place(states, call_id, 0);
    if i < states.len() {
        Some(states[i].state)
    } else {
        None
    }
}

/// The states, with another body for one tool call.
pub open spec fn with_body(
    states: Seq<ToolEntry>,
    call_id: Seq<char>,
    body: Option<u64>,
) -> Seq<ToolEntry> {
    let i = tool_place(states, call_id, 0);
    if i < states.len() {
        states.update(
            i,
            ToolEntry {
                call_id: states[i].call_id,
                state: ToolState { details: states[i].state.details, body },
            },
        )
    } else {
        states
    }
}

impl BlockHistory {
    fn find_tool(&self, call_id: &String) -> (r: Option<usize>)
        ensures
            match r {
                Some(i) => i == tool_place(self.tool_states@, call_id@, 0) && i
                    < self.tool_states@.len(),
                None => tool_place(self.tool_states@, call_id@, 0) >= self.tool_states@.len(),
            },
    {
        let mut i: usize = 0;
        while i < self.tool_states.len()
            invariant
                i <= self.tool_states@.len(),
                tool_place(self.tool_states@, call_id@, 0) == tool_place(
                    self.tool_states@,
                    call_id@,
                    i as int,
                ),
            decreases self.tool_states@.len() - i,
        {
            if self.tool_states[i].call_id == *call_id {
                return Some(i);
            }
            i += 1;
        }
        None
    }

    /// The state of a tool call.
    pub fn tool_state(&self, call_id: &String) -> (r: Option<ToolState>)
        ensures
            r == state_of(self.tool_states@, call_id@),
    {
        match self.find_tool(call_id) {
            Some(i) => Some(self.tool_states[i].state),
            None => None,
        }
    }

    /// Gives a tool call another body.
    pub fn set_tool_body(&mut self, call_id: &String, body: Option<u64>)
        ensures
            final(self).blocks == old(self).blocks,
            final(self).tool_states@ == with_body(old(self).tool_states@, call_id@, body),
    {
        if let Some(i) = self.find_tool(call_id) {
            let details = self.tool_states[i].state.details;
            let entry = ToolEntry {
                call_id: self.tool_states[i].call_id.clone(),
                state: ToolState { details, body },
            };
            self.tool_states.set(i, entry);
        }
    }
}

/// A compiled block and what it was made from.
#[derive(Debug)]
pub struct CachedDisplayBlock {
    pub key: DisplayCacheKey,
    pub block: DisplayBlock,
}

/// A compiled block and what it was made from, as mathematical values.
pub struct CachedContent {
    pub key: DisplayCacheKey,
    pub block: DisplayContent,
}

impl View for CachedDisplayBlock {
    type V = CachedContent;

    open spec fn view(&self) -> CachedContent {
        CachedContent { key: self.key, block: self.block@ }
    }
}

/// A compiled block as it is stored.
#[derive(Debug)]
pub struct DisplayCacheEntry {
    pub id: u64,
    pub key: DisplayCacheKey,
    pub block: DisplayBlock,
}

/// A compiled block as it is stored, as mathematical values.
pub struct EntryContent {
    pub id: u64,
    pub key: DisplayCacheKey,
    pub block: DisplayContent,
}

impl View for DisplayCacheEntry {
    type V = EntryContent;

    open spec fn view(&self) -> EntryContent {
        EntryContent { id: self.id, key: self.key, block: self.block@ }
    }
}

/// A block to be compiled.
#[derive(Debug)]
pub struct CompileJob {
    pub id: u64,
    pub key: DisplayCacheKey,
    pub block: Block,
    pub state: Option<ToolState>,
}

/// A block to be compiled, as mathematical values.
pub struct JobContent {
    pub id: u64,
    pub key: DisplayCacheKey,
    pub block: BlockContent,
    pub state: Option<ToolState>,
}

impl View for CompileJob {
    type V = JobContent;

    open spec fn view(&self) -> JobContent {
        JobContent { id: self.id, key: self.key, block: self.block@, state: self.state }
    }
}

impl CompileJob {
    /// Compiles the block. A tool call needs its state.
    pub fn compile<P: Fn(&str, &str) -> u64>(self, parse: &P) -> (entry: DisplayCacheEntry)
        requires
            pure_parser(*parse),
            self.block is ToolCall ==> self.state is Some,
        ensures
            entry@ == (EntryContent {
                id: self.id,
                key: self.key,
                block: compiled(*parse, self.block@, self.state),
            }),
    {
        DisplayCacheEntry {
            id: self.id,
            key: self.key,
            block: compile_block(&self.block, self.state, parse),
        }
    }
}

/// The compiled blocks of a transcript.
#[derive(Debug)]
pub struct DisplayModel {
    pub blocks: HashMap<u64, CachedDisplayBlock>,
}

/// Compiled blocks by id, as mathematical values.
pub open spec fn contents(blocks: Map<u64, CachedDisplayBlock>) -> Map<u64, CachedContent> {
    blocks.map_values(|cached: CachedDisplayBlock| cached@)
}

impl View for DisplayModel {
    type V = Map<u64, CachedContent>;

    open spec fn view(&self) -> Map<u64, CachedContent> {
        contents(self.blocks@)
    }
}

/// The state that a block has in a history: that of its tool call.
pub open spec fn block_state(history: BlockHistory, block: BlockContent) -> Option<ToolState> {
    match block {
        BlockContent::ToolCall { call_id, .. } => state_of(history.tool_states@, call_id),
        _ => None,
    }
}

/// Whether a block is there as it was compiled for `key`.
pub open spec fn is_cached(
    model: Map<u64, CachedContent>,
    id: u64,
    key: DisplayCacheKey,
) -> bool {
    model.contains_key(id) && model[id].key == key
}

/// A block that is asked for.
#[derive(Clone, Copy, Debug, PartialEq, Eq, Structural)]
pub struct BlockRequest {
    pub id: u64,
    pub key: LayoutKey,
}

/// The key that an asked-for block is compiled for.
pub open spec fn request_key(request: BlockRequest) -> DisplayCacheKey {
    DisplayCacheKey::of(request.key.content_hash, request.key.sidecar_hash)
}

/// What is left once the first `n` blocks were asked for: blocks go that the history no
/// longer has.
pub open spec fn swept(
    model: Map<u64, CachedContent>,
    history: BlockHistory,
    requests: Seq<BlockRequest>,
    n: int,
) -> Map<u64, CachedContent>
    decreases n,
{
    if n <= 0 {
        model
    } else {
        let before = swept(model, history, requests, n - 1);
        let request = requests[n - 1];
        if !is_cached(before, request.id, request_key(request)) && !history.blocks@.contains_key(
            request.id,
        ) {
            before.remove(request.id)
        } else {
            before
        }
    }
}

/// What is to be compiled of the first `n` blocks that were asked for.
pub open spec fn jobs_for(
    model: Map<u64, CachedContent>,
    history: BlockHistory,
    requests: Seq<BlockRequest>,
    n: int,
) -> Seq<JobContent>
    decreases n,
{
    if n <= 0 {
        Seq::empty()
    } else {
        let jobs = jobs_for(model, history, requests, n - 1);
        let request = requests[n - 1];
        if !is_cached(
            swept(model, history, requests, n - 1),
            request.id,
            request_key(request),
        ) && history.blocks@.contains_key(request.id) {
            let block = history.blocks@[request.id]@;
            jobs.push(
                JobContent {
                    id: request.id,
                    key: request_key(request),
                    block,
                    state: block_state(history, block),
                },
            )
        } else {
            jobs
        }
    }
}

/// Some jobs, as mathematical values.
pub open spec fn job_contents(jobs: Seq<CompileJob>) -> Seq<JobContent> {
    jobs.map_values(|job: CompileJob| job@)
}

/// Some entries, as mathematical values.
pub open spec fn entry_contents(entries: Seq<DisplayCacheEntry>) -> Seq<EntryContent> {
    entries.map_values(|entry: DisplayCacheEntry| entry@)
}

/// The model with the first `n` compiled blocks put in.
pub open spec fn inserted(
    model: Map<u64, CachedContent>,
    entries: Seq<EntryContent>,
    n: int,
) -> Map<u64, CachedContent>
    decreases n,
{
    if n <= 0 {
        model
    } else {
        inserted(model, entries, n - 1).insert(
            entries[n - 1].id,
            CachedContent { key: entries[n - 1].key, block: entries[n - 1].block },
        )
    }
}

/// What blocks are compiled to.
pub open spec fn compiled_jobs<P: Fn(&str, &str) -> u64>(parse: P, jobs: Seq<JobContent>) -> Seq<
    EntryContent,
> {
    jobs.map_values(
        |job: JobContent|
            EntryContent {
                id: job.id,
                key: job.key,
                block: compiled(parse, job.block, job.state),
            },
    )
}

/// The model once these blocks were asked for, and those that it lacked were compiled and put
/// in.
pub open spec fn ensured<P: Fn(&str, &str) -> u64>(
    parse: P,
    model: Map<u64, CachedContent>,
    history: BlockHistory,
    requests: Seq<BlockRequest>,
) -> Map<u64, CachedContent> {
    let n = requests.len() as int;
    let entries = compiled_jobs(parse, jobs_for(model, history, requests, n));
    inserted(swept(model, history, requests, n), entries, entries.len() as int)
}

/// Every tool call of the history that is asked for has a state there.
pub open spec fn has_states(history: BlockHistory, requests: Seq<BlockRequest>) -> bool {
    forall|r: int|
        0 <= r < requests.len() && history.blocks@.contains_key((#[trigger] requests[r]).id)
            && history.blocks@[requests[r].id]@ is ToolCall ==> block_state(
            history,
            history.blocks@[requests[r].id]@,
        ) is Some
}

proof fn lemma_jobs_have_states(
    model: Map<u64, CachedContent>,
    history: BlockHistory,
    requests: Seq<BlockRequest>,
    n: int,
)
    requires
        0 <= n <= requests.len(),
        has_states(history, requests),
    ensures
        forall|i: int|
            0 <= i < jobs_for(model, history, requests, n).len() ==> ((
            #[trigger] jobs_for(model, history, requests, n)[i]).block is ToolCall ==> jobs_for(
                model,
                history,
                requests,
                n,
            )[i].state is Some),
    decreases n,
{
    if n > 0 {
        lemma_jobs_have_states(model, history, requests, n - 1);
        assert(history.blocks@.contains_key(requests[n - 1].id) ==> (
        history.blocks@[requests[n - 1].id]@ is ToolCall ==> block_state(
            history,
            history.blocks@[requests[n - 1].id]@,
        ) is Some));
    }
}

/// The stored form of those of the first `n` blocks of `order` that are there.
pub open spec fn stored(
    model: Map<u64, CachedContent>,
    order: Seq<u64>,
    n: int,
) -> Seq<EntryContent>
    decreases n,
{
    if n <= 0 {
        Seq::empty()
    } else if model.contains_key(order[n - 1]) {
        let cached = model[order[n - 1]];
        stored(model, order, n - 1).push(
            EntryContent { id: order[n - 1], key: cached.key, block: cached.block },
        )
    } else {
        stored(model, order, n - 1)
    }
}

/// `hash` takes any state and always says the same of it.
pub open spec fn pure_hash<H: Fn(ToolState) -> u64>(hash: H) -> bool {
    &&& forall|state: ToolState| #[trigger] call_requires(hash, (state,))
    &&& forall|state: ToolState, a: u64, b: u64|
        #[trigger] call_ensures(hash, (state,), a) && #[trigger] call_ensures(hash, (state,), b)
            ==> a == b
}

/// What `hash` says of a state.
pub open spec fn hash_of<H: Fn(ToolState) -> u64>(hash: H, state: ToolState) -> u64 {
    choose|h: u64| call_ensures(hash, (state,), h)
}

/// Whether a stored block is still one of the history: the block is there and the same.
pub open spec fn is_current<P: Fn(&str, &str) -> u64>(
    parse: P,
    history: BlockHistory,
    entry: EntryContent,
) -> bool {
    history.blocks@.contains_key(entry.id) && matches_content(
        parse,
        entry.block,
        history.blocks@[entry.id]@,
    )
}

/// Whether the tool call of a stored block can take the stored body: its state, with that
/// body, is the one that the block was stored for. A block that is no tool call can.
pub open spec fn takes_body<H: Fn(ToolState) -> u64>(
    hash: H,
    history: BlockHistory,
    entry: EntryContent,
) -> bool {
    match entry.block.content {
        BlockContent::ToolCall { call_id, .. } => {
            let state = state_of(history.tool_states@, call_id);
            &&& state is Some
            &&& entry.block.state is Some
            &&& hash_of(
                hash,
                ToolState { details: state->0.details, body: entry.block.state->0.body },
            ) == entry.key.sidecar_hash
        },
        _ => true,
    }
}

/// The states of tool calls once a stored block was taken in.
pub open spec fn hydrated_states(states: Seq<ToolEntry>, entry: EntryContent) -> Seq<ToolEntry> {
    match entry.block.content {
        BlockContent::ToolCall { call_id, .. } => with_body(
            states,
            call_id,
            entry.block.state->0.body,
        ),
        _ => states,
    }
}

/// What taking a stored block in does: `hashes` are the content's and the sidecar's of the
/// block in the history as it then is.
pub open spec fn is_hydration<P: Fn(&str, &str) -> u64, H: Fn(ToolState) -> u64>(
    parse: P,
    hash: H,
    before: BlockHistory,
    model: Map<u64, CachedContent>,
    entry: EntryContent,
    after: BlockHistory,
    hashes: (u64, u64),
    after_model: Map<u64, CachedContent>,
    taken: bool,
) -> bool {
    let current = is_current(parse, before, entry) && takes_body(hash, before, entry);
    &&& after.blocks == before.blocks
    &&& after.tool_states@ == if current {
        hydrated_states(before.tool_states@, entry)
    } else {
        before.tool_states@
    }
    &&& taken == (current && DisplayCacheKey::of(hashes.0, hashes.1) == entry.key)
    &&& after_model == if taken {
        model.insert(entry.id, CachedContent { key: entry.key, block: entry.block })
    } else {
        model
    }
}

/// The states that taking blocks in goes through, and what was said of each block.
pub struct HydrationRun {
    pub histories: Seq<BlockHistory>,
    pub models: Seq<Map<u64, CachedContent>>,
    pub hashes: Seq<(u64, u64)>,
    pub taken: Seq<bool>,
}

/// One step of taking blocks in.
pub open spec fn is_step<
    P: Fn(&str, &str) -> u64,
    H: Fn(ToolState) -> u64,
    K: Fn(&BlockHistory, u64) -> (u64, u64),
>(parse: P, hash: H, resolve: K, entries: Seq<EntryContent>, run: HydrationRun, i: int) -> bool {
    &&& is_current(parse, run.histories[i], entries[i]) && takes_body(
        hash,
        run.histories[i],
        entries[i],
    ) ==> call_ensures(resolve, (&run.histories[i + 1], entries[i].id), run.hashes[i])
    &&& is_hydration(
        parse,
        hash,
        run.histories[i],
        run.models[i],
        entries[i],
        run.histories[i + 1],
        run.hashes[i],
        run.models[i + 1],
        run.taken[i],
    )
}

/// Taking blocks in, one after the other.
pub open spec fn is_run<
    P: Fn(&str, &str) -> u64,
    H: Fn(ToolState) -> u64,
    K: Fn(&BlockHistory, u64) -> (u64, u64),
>(parse: P, hash: H, resolve: K, entries: Seq<EntryContent>, run: HydrationRun) -> bool {
    &&& run.histories.len() == entries.len() + 1
    &&& run.models.len() == entries.len() + 1
    &&& run.hashes.len() == entries.len()
    &&& run.taken.len() == entries.len()
    &&& forall|i: int|
        0 <= i < entries.len() ==> #[trigger] is_step(parse, hash, resolve, entries, run, i)
}

/// How many blocks were taken.
pub open spec fn count_taken(taken: Seq<bool>) -> nat
    decreases taken.len(),
{
    if taken.len() == 0 {
        0
    } else {
        count_taken(taken.drop_last()) + if taken.last() {
            1nat
        } else {
            0nat
        }
    }
}

impl DisplayModel {
    /// A model of nothing.
    pub fn new() -> (model: Self)
        ensures
            model@ == Map::<u64, CachedContent>::empty(),
    {
        let model = DisplayModel { blocks: HashMap::new() };
        proof {
            assert(model@ =~= Map::<u64, CachedContent>::empty());
        }
        model
    }

    /// How many compiled blocks there are.
    pub fn len(&self) -> (n: usize)
        ensures
            n == self@.len(),
    {
        proof {
            assert(self@.dom() =~= self.blocks@.dom());
        }
        self.blocks.len()
    }

    /// Takes a stored block in, where it is still one of the history. `resolve` says what
    /// hashes a block of the history has.
    pub fn hydrate_one<
        P: Fn(&str, &str) -> u64,
        H: Fn(ToolState) -> u64,
        K: Fn(&BlockHistory, u64) -> (u64, u64),
    >(
        &mut self,
        history: &mut BlockHistory,
        entry: DisplayCacheEntry,
        parse: &P,
        hash: &H,
        resolve: &K,
    ) -> (taken: bool)
        requires
            pure_parser(*parse),
            pure_hash(*hash),
            forall|h: &BlockHistory, id: u64| #[trigger] call_requires(*resolve, (h, id)),
        ensures
            exists|hashes: (u64, u64)|
                {
                    &&& is_current(*parse, *old(history), entry@) && takes_body(
                        *hash,
                        *old(history),
                        entry@,
                    ) ==> call_ensures(*resolve, (&*final(history), entry.id), hashes)
                    &&& #[trigger] is_hydration(
                        *parse,
                        *hash,
                        *old(history),
                        old(self)@,
                        entry@,
                        *final(history),
                        hashes,
                        final(self)@,
                        taken,
                    )
                },
    {
        let ghost none: (u64, u64) = (0, 0);
        let ghost before = *history;
        let ghost model = self@;
        match history.blocks.get(&entry.id) {
            Some(block) => {
                if !entry.block.matches_block(block, parse) {
                    proof {
                        assert(!is_current(*parse, before, entry@));
                        assert(is_hydration(*parse, *hash, before, model, entry@, *history, none, self@, false));
                    }
                    return false;
                }
            },
            None => {
                proof {
                    assert(is_hydration(*parse, *hash, before, model, entry@, *history, none, self@, false));
                }
                return false;
            },
        }
        if let DisplayBlock::ToolCall { call_id, state, .. } = &entry.block {
            let current = match history.tool_state(call_id) {
                Some(current) => current,
                None => {
                    proof {
                        assert(is_hydration(*parse, *hash, before, model, entry@, *history, none, self@, false));
                    }
                    return false;
                },
            };
            let candidate = ToolState { details: current.details, body: state.body };
            let candidate_hash = hash(candidate);
            proof {
                assert(candidate_hash == hash_of(*hash, candidate));
            }
            if candidate_hash != entry.key.sidecar_hash {
                proof {
                    assert(is_hydration(*parse, *hash, before, model, entry@, *history, none, self@, false));
                }
                return false;
            }
            history.set_tool_body(call_id, state.body);
        }
        let hashes = resolve(&*history, entry.id);
        let key = DisplayCacheKey::new(hashes.0, hashes.1);
        if key != entry.key {
            proof {
                assert(is_hydration(
                    *parse,
                    *hash,
                    before,
                    model,
                    entry@,
                    *history,
                    hashes,
                    self@,
                    false,
                ));
            }
            return false;
        }
        let ghost stored = entry@;
        self.blocks.insert(entry.id, CachedDisplayBlock { key, block: entry.block });
        proof {
            assert(self@ =~= model.insert(
                stored.id,
                CachedContent { key: stored.key, block: stored.block },
            ));
            assert(is_hydration(
                *parse,
                *hash,
                before,
                model,
                stored,
                *history,
                hashes,
                self@,
                true,
            ));
        }
        true
    }

    /// Takes stored blocks in, one after the other, and says how many were taken.
    pub fn hydrate_many<
        P: Fn(&str, &str) -> u64,
        H: Fn(ToolState) -> u64,
        K: Fn(&BlockHistory, u64) -> (u64, u64),
    >(
        &mut self,
        history: &mut BlockHistory,
        entries: Vec<DisplayCacheEntry>,
        parse: &P,
        hash: &H,
        resolve: &K,
    ) -> (hydrated: usize)
        requires
            pure_parser(*parse),
            pure_hash(*hash),
            forall|h: &BlockHistory, id: u64| #[trigger] call_requires(*resolve, (h, id)),
        ensures
            exists|run: HydrationRun|
                {
                    &&& #[trigger] is_run(
                        *parse,
                        *hash,
                        *resolve,
                        entry_contents(entries@),
                        run,
                    )
                    &&& run.histories[0] == *old(history)
                    &&& run.models[0] == old(self)@
                    &&& run.histories.last() == *final(history)
                    &&& run.models.last() == final(self)@
                    &&& hydrated == count_taken(run.taken)
                },
    {
        let ghost given = entries@;
        let ghost all = entry_contents(entries@);
        let ghost mut run = HydrationRun {
            histories: seq![*history],
            models: seq![self@],
            hashes: Seq::empty(),
            taken: Seq::empty(),
        };
        let ghost first = *history;
        let ghost first_model = self@;
        let mut entries = entries;
        let ghost mut n: int = 0;
        let mut hydrated: usize = 0;
        let total = entries.len();
        proof {
            assert(given.skip(0) =~= given);
            assert(all.take(0) =~= Seq::<EntryContent>::empty());
            assert(is_run(*parse, *hash, *resolve, all.take(0), run));
        }
        while entries.len() > 0
            invariant
                0 <= n <= given.len(),
                given.len() == total,
                all == entry_contents(given),
                entries@ == given.skip(n),
                hydrated <= n,
                pure_parser(*parse),
                pure_hash(*hash),
                forall|h: &BlockHistory, id: u64| #[trigger] call_requires(*resolve, (h, id)),
                is_run(*parse, *hash, *resolve, all.take(n), run),
                run.histories[0] == first,
                run.models[0] == first_model,
                run.histories.last() == *history,
                run.models.last() == self@,
                hydrated == count_taken(run.taken),
            decreases entries@.len(),
        {
            let ghost before = *history;
            let ghost model = self@;
            let entry = entries.remove(0);
            let ghost content = entry@;
            let taken = self.hydrate_one(history, entry, parse, hash, resolve);
            proof {
                let hashes = choose|hashes: (u64, u64)|
                    {
                        &&& is_current(*parse, before, content) && takes_body(
                            *hash,
                            before,
                            content,
                        ) ==> call_ensures(*resolve, (&*history, content.id), hashes)
                        &&& #[trigger] is_hydration(
                            *parse,
                            *hash,
                            before,
                            model,
                            content,
                            *history,
                            hashes,
                            self@,
                            taken,
                        )
                    };
                assert(content == all[n]);
                let next = HydrationRun {
                    histories: run.histories.push(*history),
                    models: run.models.push(self@),
                    hashes: run.hashes.push(hashes),
                    taken: run.taken.push(taken),
                };
                let longer = all.take(n + 1);
                assert forall|i: int| 0 <= i < longer.len() implies #[trigger] is_step(
                    *parse,
                    *hash,
                    *resolve,
                    longer,
                    next,
                    i,
                ) by {
                    if i < n {
                        assert(is_step(*parse, *hash, *resolve, all.take(n), run, i));
                    }
                }
                assert(next.taken.drop_last() =~= run.taken);
                run = next;
                n = n + 1;
                assert(entries@ =~= given.skip(n));
            }
            if taken {
                hydrated += 1;
            }
        }
        proof {
            assert(all.take(n) =~= all);
        }
        hydrated
    }

    /// The stored form of the compiled blocks, in the order of the transcript.
    pub fn cache_entries(&self, order: &Vec<u64>) -> (entries: Vec<DisplayCacheEntry>)
        ensures
            entry_contents(entries@) == stored(self@, order@, order@.len() as int),
    {
        let mut entries: Vec<DisplayCacheEntry> = Vec::new();
        let mut i: usize = 0;
        proof {
            assert(entry_contents(entries@) =~= stored(self@, order@, 0));
        }
        while i < order.len()
            invariant
                i <= order@.len(),
                entry_contents(entries@) == stored(self@, order@, i as int),
            decreases order@.len() - i,
        {
            let id = order[i];
            let ghost so_far = entries@;
            if let Some(cached) = self.blocks.get(&id) {
                let entry = DisplayCacheEntry {
                    id,
                    key: cached.key,
                    block: copy_display_block(&cached.block),
                };
                entries.push(entry);
                proof {
                    assert(entry_contents(entries@) =~= entry_contents(so_far).push(entry@));
                }
            }
            i += 1;
        }
        entries
    }

    /// What is to be compiled of the blocks that are asked for. Blocks go that the history
    /// no longer has.
    pub fn collect_compile_jobs(
        &mut self,
        history: &BlockHistory,
        requests: &Vec<BlockRequest>,
    ) -> (jobs: Vec<CompileJob>)
        ensures
            final(self)@ == swept(old(self)@, *history, requests@, requests@.len() as int),
            job_contents(jobs@) == jobs_for(
                old(self)@,
                *history,
                requests@,
                requests@.len() as int,
            ),
    {
        let ghost first = self@;
        let mut jobs: Vec<CompileJob> = Vec::new();
        let mut i: usize = 0;
        proof {
            assert(job_contents(jobs@) =~= jobs_for(first, *history, requests@, 0));
        }
        while i < requests.len()
            invariant
                i <= requests@.len(),
                self@ == swept(first, *history, requests@, i as int),
                job_contents(jobs@) == jobs_for(first, *history, requests@, i as int),
            decreases requests@.len() - i,
        {
            let id = requests[i].id;
            let key = DisplayCacheKey::from_layout_key(requests[i].key);
            let ghost before = self@;
            let ghost so_far = jobs@;
            let hit = match self.blocks.get(&id) {
                Some(cached) => cached.key == key,
                None => false,
            };
            proof {
                assert(hit == is_cached(before, id, key));
            }
            if !hit {
                match history.blocks.get(&id) {
                    Some(block) => {
                        let state = match block {
                            Block::ToolCall { call_id, .. } => history.tool_state(call_id),
                            _ => None,
                        };
                        let job = CompileJob { id, key, block: copy_block(block), state };
                        proof {
                            assert(job@.state == block_state(*history, block@));
                        }
                        jobs.push(job);
                        proof {
                            assert(job_contents(jobs@) =~= job_contents(so_far).push(job@));
                        }
                    },
                    None => {
                        self.blocks.remove(&id);
                        proof {
                            assert(self@ =~= before.remove(id));
                        }
                    },
                }
            }
            i += 1;
        }
        jobs
    }

    /// Puts compiled blocks in.
    pub fn insert_compiled_blocks(&mut self, entries: Vec<DisplayCacheEntry>)
        ensures
            final(self)@ == inserted(
                old(self)@,
                entry_contents(entries@),
                entries@.len() as int,
            ),
    {
        let ghost first = self@;
        let ghost all = entry_contents(entries@);
        let mut entries = entries;
        let ghost given = entries@;
        let ghost mut n: int = 0;
        proof {
            assert(given.skip(0) =~= given);
        }
        while entries.len() > 0
            invariant
                0 <= n <= given.len(),
                all == entry_contents(given),
                entries@ == given.skip(n),
                self@ == inserted(first, all, n),
            decreases entries@.len(),
        {
            let entry = entries.remove(0);
            let ghost before = self@;
            let ghost content = entry@;
            self.blocks.insert(entry.id, CachedDisplayBlock { key: entry.key, block: entry.block });
            proof {
                assert(content == all[n]);
                assert(self@ =~= before.insert(
                    content.id,
                    CachedContent { key: content.key, block: content.block },
                ));
                n = n + 1;
                assert(entries@ =~= given.skip(n));
            }
        }
    }

    /// Compiles what is asked for and not there, puts it in, and says how much that was. Blocks
    /// go that the history no longer has.
    pub fn ensure_many<P: Fn(&str, &str) -> u64>(
        &mut self,
        history: &BlockHistory,
        requests: &Vec<BlockRequest>,
        parse: &P,
    ) -> (compiled: usize)
        requires
            pure_parser(*parse),
            has_states(*history, requests@),
        ensures
            final(self)@ == ensured(*parse, old(self)@, *history, requests@),
            compiled == jobs_for(
                old(self)@,
                *history,
                requests@,
                requests@.len() as int,
            ).len(),
    {
        let ghost wanted = jobs_for(self@, *history, requests@, requests@.len() as int);
        proof {
            lemma_jobs_have_states(self@, *history, requests@, requests@.len() as int);
        }
        let mut jobs = self.collect_compile_jobs(history, requests);
        let ghost given = jobs@;
        let compiled = jobs.len();
        let ghost mut n: int = 0;
        let mut entries: Vec<DisplayCacheEntry> = Vec::new();
        proof {
            assert(given.skip(0) =~= given);
            assert forall|i: int|
                0 <= i < given.len() && (#[trigger] given[i]).block is ToolCall implies
                given[i].state is Some by {
                assert(wanted[i] == given[i]@);
            }
        }
        while jobs.len() > 0
            invariant
                0 <= n <= given.len(),
                jobs@ == given.skip(n),
                entries@.len() == n,
                pure_parser(*parse),
                job_contents(given) == wanted,
                forall|i: int|
                    0 <= i < given.len() && (#[trigger] given[i]).block is ToolCall ==>
                    given[i].state is Some,
                forall|i: int|
                    0 <= i < n ==> (#[trigger] entries@[i])@ == compiled_jobs(*parse, wanted)[i],
            decreases jobs@.len(),
        {
            let job = jobs.remove(0);
            proof {
                assert(job == given[n]);
                assert(job@ == wanted[n]);
            }
            let entry = job.compile(parse);
            entries.push(entry);
            proof {
                n = n + 1;
                assert(jobs@ =~= given.skip(n));
            }
        }
        proof {
            assert(entry_contents(entries@) =~= compiled_jobs(*parse, wanted));
        }
        self.insert_compiled_blocks(entries);
        compiled
    }

    /// Keeps only the blocks of `order`.
    pub fn retain_order(&mut self, order: &Vec<u64>)
        ensures
            final(self)@ == old(self)@.restrict(order@.to_set()),
    {
        let ghost first = self@;
        let mut kept: HashMap<u64, CachedDisplayBlock> = HashMap::new();
        let mut i: usize = 0;
        proof {
            assert(contents(kept@) =~= first.restrict(order@.take(0).to_set()));
        }
        while i < order.len()
            invariant
                i <= order@.len(),
                contents(kept@) == first.restrict(order@.take(i as int).to_set()),
                self@ == first.remove_keys(order@.take(i as int).to_set()),
            decreases order@.len() - i,
        {
            let id = order[i];
            let ghost before = order@.take(i as int);
            let ghost after = order@.take(i + 1);
            let ghost kept_before = contents(kept@);
            let ghost left_before = self@;
            proof {
                assert(after =~= before.push(id));
                assert forall|k: u64| #[trigger]
                    after.to_set().contains(k) == (before.to_set().contains(k) || k == id) by {
                    if before.contains(k) {
                        let j = choose|j: int| 0 <= j < before.len() && before[j] == k;
                        assert(after[j] == k);
                    }
                    if k == id {
                        assert(after[i as int] == k);
                    }
                }
            }
            if let Some(cached) = self.blocks.remove(&id) {
                let ghost content = cached@;
                kept.insert(id, cached);
                proof {
                    assert(left_before.contains_key(id) && left_before[id] == content);
                    assert(contents(kept@) =~= kept_before.insert(id, content));
                }
            } else {
                proof {
                    assert(!left_before.contains_key(id));
                }
            }
            proof {
                assert(self@ =~= left_before.remove(id));
                assert(contents(kept@) =~= first.restrict(after.to_set()));
                assert(self@ =~= first.remove_keys(after.to_set()));
            }
            i += 1;
        }
        proof {
            assert(order@.take(i as int) =~= order@);
        }
        self.blocks = kept;
    }

    /// The compiled block, if it is there for `key`.
    pub fn get(&self, id: u64, key: LayoutKey) -> (r: Option<&DisplayBlock>)
        ensures
            ({
                let wanted = DisplayCacheKey::of(key.content_hash, key.sidecar_hash);
                match r {
                    Some(block) => is_cached(self@, id, wanted) && block@ == self@[id].block,
                    None => !is_cached(self@, id, wanted),
                }
            }),
    {
        let wanted = DisplayCacheKey::from_layout_key(key);
        match self.blocks.get(&id) {
            Some(cached) => {
                if cached.key == wanted {
                    Some(&cached.block)
                } else {
                    None
                }
            },
            None => None,
        }
    }
}

/// A block that was taken in needs no compiling for the key that it was stored for.
pub proof fn hydrated_block_needs_no_compiling<P: Fn(&str, &str) -> u64, H: Fn(ToolState) -> u64>(
    parse: P,
    hash: H,
    before: BlockHistory,
    model: Map<u64, CachedContent>,
    entry: EntryContent,
    after: BlockHistory,
    hashes: (u64, u64),
    after_model: Map<u64, CachedContent>,
    request: BlockRequest,
)
    requires
        is_hydration(parse, hash, before, model, entry, after, hashes, after_model, true),
        request.id == entry.id,
        request_key(request) == entry.key,
    ensures
        jobs_for(after_model, after, seq![request], 1) == Seq::<JobContent>::empty(),
        swept(after_model, after, seq![request], 1) == after_model,
{
    assert(swept(after_model, after, seq![request], 0) == after_model);
    assert(jobs_for(after_model, after, seq![request], 0) == Seq::<JobContent>::empty());
}

/// Only a block that is the same in the history is taken in.
pub proof fn hydrated_block_is_of_history<P: Fn(&str, &str) -> u64, H: Fn(ToolState) -> u64>(
    parse: P,
    hash: H,
    before: BlockHistory,
    model: Map<u64, CachedContent>,
    entry: EntryContent,
    after: BlockHistory,
    hashes: (u64, u64),
    after_model: Map<u64, CachedContent>,
)
    requires
        is_hydration(parse, hash, before, model, entry, after, hashes, after_model, true),
    ensures
        after.blocks@.contains_key(entry.id),
        after_model[entry.id].block.content == after.blocks@[entry.id]@,
        after_model[entry.id].block.code == code_of(parse, after.blocks@[entry.id]@),
        after_model[entry.id].key == DisplayCacheKey::of(hashes.0, hashes.1),
{
}

/// What was stored gives back the blocks of the order.
pub proof fn stored_blocks_come_back(model: Map<u64, CachedContent>, order: Seq<u64>, n: int)
    requires
        0 <= n <= order.len(),
    ensures
        inserted(
            Map::empty(),
            stored(model, order, n),
            stored(model, order, n).len() as int,
        ) == model.restrict(order.take(n).to_set()),
    decreases n,
{
    let entries = stored(model, order, n);
    let back = inserted(Map::empty(), entries, entries.len() as int);
    if n == 0 {
        assert(order.take(0).to_set() =~= Set::empty());
        assert(back =~= model.restrict(order.take(0).to_set()));
    } else {
        let id = order[n - 1];
        let before = order.take(n - 1);
        let after = order.take(n);
        let fewer = stored(model, order, n - 1);
        stored_blocks_come_back(model, order, n - 1);
        assert(after =~= before.push(id));
        assert forall|k: u64| #[trigger]
            after.to_set().contains(k) == (before.to_set().contains(k) || k == id) by {
            if before.contains(k) {
                let j = choose|j: int| 0 <= j < before.len() && before[j] == k;
                assert(after[j] == k);
            }
            if k == id {
                assert(after[n - 1] == k);
            }
        }
        if model.contains_key(id) {
            lemma_inserted_prefix(fewer, entries, fewer.len() as int);
        }
        assert(back =~= model.restrict(after.to_set()));
    }
}

proof fn lemma_inserted_prefix(a: Seq<EntryContent>, b: Seq<EntryContent>, n: int)
    requires
        n <= a.len() <= b.len(),
        forall|i: int| 0 <= i < a.len() ==> a[i] == b[i],
    ensures
        inserted(Map::empty(), a, n) == inserted(Map::empty(), b, n),
    decreases n,
{
    if n > 0 {
        lemma_inserted_prefix(a, b, n - 1);
    }
}

} // verus!
