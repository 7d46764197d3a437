//! Rendered blocks, kept by block and by what they were rendered for. The one that was used
//! longest ago goes first.
use vstd::prelude::*;
use crate::keys::LayoutKey;

verus! {

/// How many rendered blocks are kept.
pub const MAX_RENDERED_BLOCKS: usize = 512;

/// How many workers render at most.
pub const MAX_WORKERS: usize = 8;

/// A rendered block.
#[derive(Debug)]
pub struct CachedBlock<B> {
    pub id: u64,
    pub key: LayoutKey,
    pub buf: B,
}

/// A block to be rendered into the buffer of number `buf_id`.
#[derive(Clone, Copy, Debug, PartialEq, Eq, Structural)]
pub struct RenderTask {
    pub id: u64,
    pub key: LayoutKey,
    pub buf_id: u64,
}

/// Rendered blocks, the one used last at the end.
#[derive(Debug)]
pub struct RenderedBlockCache<B> {
    pub blocks: Vec<CachedBlock<B>>,
    pub next_buf_id: u64,
}

/// The blocks but for the one of this id.
pub open spec fn without<B>(blocks: Seq<CachedBlock<B>>, id: u64) -> Seq<CachedBlock<B>>
    decreases blocks.len(),
{
    if blocks.len() == 0 {
        Seq::empty()
    } else if blocks.last().id == id {
        without(blocks.drop_last(), id)
    } else {
        without(blocks.drop_last(), id).push(blocks.last())
    }
}

/// The block of this id.
pub open spec fn entry<B>(blocks: Seq<CachedBlock<B>>, id: u64) -> Option<CachedBlock<B>>
    decreases blocks.len(),
{
    if blocks.len() == 0 {
        None
    } else if blocks.last().id == id {
        Some(blocks.last())
    } else {
        entry(blocks.drop_last(), id)
    }
}

/// Whether the block is there as it was rendered for `key`.
pub open spec fn is_hit<B>(blocks: Seq<CachedBlock<B>>, id: u64, key: LayoutKey) -> bool {
    entry(blocks, id) is Some && entry(blocks, id)->0.key == key
}

/// No block is there twice.
pub open spec fn distinct<B>(blocks: Seq<CachedBlock<B>>) -> bool {
    forall|i: int, j: int| 0 <= i < j < blocks.len() ==> blocks[i].id != blocks[j].id
}

/// The block goes to the end, in place of an older one of its id.
pub open spec fn placed<B>(blocks: Seq<CachedBlock<B>>, block: CachedBlock<B>) -> Seq<
    CachedBlock<B>,
> {
    without(blocks, block.id).push(block)
}

/// Blocks that were asked for and are there go to the end; what is missing is to be rendered,
/// into buffers numbered from `next` on.
pub open spec fn touched<B>(
    blocks: Seq<CachedBlock<B>>,
    ids: Seq<u64>,
    keys: Seq<LayoutKey>,
    n: int,
) -> Seq<CachedBlock<B>>
    decreases n,
{
    if n <= 0 {
        blocks
    } else {
        let before = touched(blocks, ids, keys, n - 1);
        if is_hit(before, ids[n - 1], keys[n - 1]) {
            placed(before, entry(before, ids[n - 1])->0)
        } else {
            before
        }
    }
}

/// What is to be rendered of the first `n` blocks that were asked for.
pub open spec fn missing<B>(
    blocks: Seq<CachedBlock<B>>,
    ids: Seq<u64>,
    keys: Seq<LayoutKey>,
    next: int,
    n: int,
) -> Seq<RenderTask>
    decreases n,
{
    if n <= 0 {
        Seq::empty()
    } else {
        let tasks = missing(blocks, ids, keys, next, n - 1);
        if is_hit(touched(blocks, ids, keys, n - 1), ids[n - 1], keys[n - 1]) {
            tasks
        } else {
            tasks.push(
                RenderTask {
                    id: ids[n - 1],
                    key: keys[n - 1],
                    buf_id: (next + tasks.len()) as u64,
                },
            )
        }
    }
}

/// The blocks with `n` rendered ones placed.
pub open spec fn all_placed<B>(
    blocks: Seq<CachedBlock<B>>,
    rendered: Seq<CachedBlock<B>>,
    n: int,
) -> Seq<CachedBlock<B>>
    decreases n,
{
    if n <= 0 {
        blocks
    } else {
        placed(all_placed(blocks, rendered, n - 1), rendered[n - 1])
    }
}

/// What is left once there are few enough blocks: the oldest go, but for pinned ones, which
/// go to the end.
pub open spec fn evicted<B>(
    rest: Seq<CachedBlock<B>>,
    deferred: Seq<CachedBlock<B>>,
    pinned: Seq<u64>,
) -> Seq<CachedBlock<B>>
    decreases rest.len(),
{
    if rest.len() == 0 || rest.len() + deferred.len() <= MAX_RENDERED_BLOCKS {
        rest + deferred
    } else if pinned.contains(rest[0].id) {
        evicted(rest.skip(1), deferred.push(rest[0]), pinned)
    } else {
        evicted(rest.skip(1), deferred, pinned)
    }
}

fn holds(ids: &Vec<u64>, id: u64) -> (r: bool)
    ensures
        r == ids@.contains(id),
{
    let mut i: usize = 0;
    while i < ids.len()
        invariant
            i <= ids@.len(),
            forall|k: int| 0 <= k < i ==> ids@[k] != id,
        decreases ids@.len() - i,
    {
        if ids[i] == id {
            assert(ids@[i as int] == id);
            return true;
        }
        i += 1;
    }
    false
}

proof fn lemma_without_absent<B>(blocks: Seq<CachedBlock<B>>, id: u64)
    requires
        forall|i: int| 0 <= i < blocks.len() ==> (#[trigger] blocks[i]).id != id,
    ensures
        without(blocks, id) == blocks,
        entry(blocks, id) is None,
    decreases blocks.len(),
{
    if blocks.len() > 0 {
        lemma_without_absent(blocks.drop_last(), id);
        assert(blocks.drop_last().push(blocks.last()) =~= blocks);
    }
}

proof fn lemma_without_at<B>(blocks: Seq<CachedBlock<B>>, id: u64, i: int)
    requires
        distinct(blocks),
        0 <= i < blocks.len(),
        blocks[i].id == id,
    ensures
        without(blocks, id) == blocks.remove(i),
        entry(blocks, id) == Some(blocks[i]),
    decreases blocks.len(),
{
    let front = blocks.drop_last();
    if i == blocks.len() - 1 {
        assert forall|k: int| 0 <= k < front.len() implies (#[trigger] front[k]).id != id by {
            assert(blocks[k].id != blocks[i].id);
        }
        lemma_without_absent(front, id);
        assert(blocks.remove(i) =~= front);
    } else {
        assert(blocks[i].id != blocks[blocks.len() - 1].id);
        assert forall|a: int, b: int| 0 <= a < b < front.len() implies front[a].id
            != front[b].id by {
            assert(blocks[a].id != blocks[b].id);
        }
        lemma_without_at(front, id, i);
        assert(front.remove(i).push(blocks.last()) =~= blocks.remove(i));
    }
}

proof fn lemma_without<B>(blocks: Seq<CachedBlock<B>>, id: u64)
    ensures
        without(blocks, id).len() <= blocks.len(),
        forall|i: int| 0 <= i < without(blocks, id).len() ==> (#[trigger] without(blocks, id)[i]).id
            != id,
        forall|i: int|
            0 <= i < without(blocks, id).len() ==> blocks.contains(#[trigger] without(blocks, id)[i]),
        distinct(blocks) ==> distinct(without(blocks, id)),
    decreases blocks.len(),
{
    if blocks.len() > 0 {
        let front = blocks.drop_last();
        lemma_without(front, id);
        let left = without(blocks, id);
        assert forall|i: int| 0 <= i < left.len() implies blocks.contains(#[trigger] left[i]) by {
            if i < without(front, id).len() {
                assert(front.contains(without(front, id)[i]));
                let k = choose|k: int| 0 <= k < front.len() && front[k] == without(front, id)[i];
                assert(blocks[k] == left[i]);
            } else {
                assert(blocks[blocks.len() - 1] == left[i]);
            }
        }
        if distinct(blocks) {
            assert forall|a: int, b: int| 0 <= a < b < front.len() implies front[a].id
                != front[b].id by {
                assert(blocks[a].id != blocks[b].id);
            }
            assert forall|a: int, b: int| 0 <= a < b < left.len() implies left[a].id
                != left[b].id by {
                if b == left.len() - 1 && blocks.last().id != id {
                    assert(front.contains(without(front, id)[a]));
                    let k = choose|k: int|
                        0 <= k < front.len() && front[k] == without(front, id)[a];
                    assert(blocks[k].id != blocks[blocks.len() - 1].id);
                } else {
                    assert(without(front, id)[a].id != without(front, id)[b].id);
                }
            }
        }
    }
}

proof fn lemma_entry<B>(blocks: Seq<CachedBlock<B>>, id: u64)
    ensures
        entry(blocks, id) is Some ==> entry(blocks, id)->0.id == id && blocks.contains(
            entry(blocks, id)->0,
        ),
        entry(blocks, id) is None ==> forall|i: int|
            0 <= i < blocks.len() ==> (#[trigger] blocks[i]).id != id,
    decreases blocks.len(),
{
    if blocks.len() > 0 {
        let front = blocks.drop_last();
        lemma_entry(front, id);
        if blocks.last().id == id {
            assert(blocks[blocks.len() - 1] == entry(blocks, id)->0);
        } else if entry(blocks, id) is Some {
            let k = choose|k: int| 0 <= k < front.len() && front[k] == entry(front, id)->0;
            assert(blocks[k] == entry(blocks, id)->0);
        } else {
            assert forall|i: int| 0 <= i < blocks.len() implies (#[trigger] blocks[i]).id
                != id by {
                if i < front.len() {
                    assert(front[i].id != id);
                }
            }
        }
    }
}

proof fn lemma_placed<B>(blocks: Seq<CachedBlock<B>>, block: CachedBlock<B>)
    requires
        distinct(blocks),
    ensures
        distinct(placed(blocks, block)),
        placed(blocks, block).len() <= blocks.len() + 1,
        entry(placed(blocks, block), block.id) == Some(block),
        forall|id: u64|
            id != block.id ==> #[trigger] entry(placed(blocks, block), id) == entry(blocks, id),
{
    lemma_without(blocks, block.id);
    let after = placed(blocks, block);
    assert(after.drop_last() =~= without(blocks, block.id));
    assert forall|id: u64| id != block.id implies #[trigger] entry(after, id) == entry(
        blocks,
        id,
    ) by {
        lemma_entry_without(blocks, block.id, id);
    }
}

proof fn lemma_entry_without<B>(blocks: Seq<CachedBlock<B>>, gone: u64, id: u64)
    requires
        id != gone,
    ensures
        entry(without(blocks, gone), id) == entry(blocks, id),
    decreases blocks.len(),
{
    if blocks.len() > 0 {
        lemma_entry_without(blocks.drop_last(), gone, id);
        if blocks.last().id != gone {
            assert(without(blocks, gone).drop_last() =~= without(blocks.drop_last(), gone));
        }
    }
}

proof fn lemma_touched<B>(
    blocks: Seq<CachedBlock<B>>,
    ids: Seq<u64>,
    keys: Seq<LayoutKey>,
    n: int,
)
    requires
        distinct(blocks),
    ensures
        distinct(touched(blocks, ids, keys, n)),
        touched(blocks, ids, keys, n).len() == blocks.len(),
        forall|id: u64| #[trigger]
            entry(touched(blocks, ids, keys, n), id) == entry(blocks, id),
    decreases n,
{
    if n > 0 {
        let before = touched(blocks, ids, keys, n - 1);
        lemma_touched(blocks, ids, keys, n - 1);
        lemma_entry(before, ids[n - 1]);
        if is_hit(before, ids[n - 1], keys[n - 1]) {
            let block = entry(before, ids[n - 1])->0;
            lemma_placed(before, block);
            let k = choose|k: int| 0 <= k < before.len() && before[k] == block;
            lemma_without_at(before, ids[n - 1], k);
        }
    }
}

proof fn lemma_all_placed<B>(
    blocks: Seq<CachedBlock<B>>,
    rendered: Seq<CachedBlock<B>>,
    n: int,
)
    requires
        distinct(blocks),
        n <= rendered.len(),
    ensures
        distinct(all_placed(blocks, rendered, n)),
        all_placed(blocks, rendered, n).len() <= blocks.len() + if n > 0 {
            n
        } else {
            0
        },
    decreases n,
{
    if n > 0 {
        lemma_all_placed(blocks, rendered, n - 1);
        lemma_placed(all_placed(blocks, rendered, n - 1), rendered[n - 1]);
    }
}

impl<B> RenderedBlockCache<B> {
    pub open spec fn wf(&self) -> bool {
        distinct(self.blocks@)
    }

    /// A cache of nothing.
    pub fn new() -> (cache: Self)
        ensures
            cache.wf(),
            cache.blocks@ == Seq::<CachedBlock<B>>::empty(),
            cache.next_buf_id == 1,
    {
        RenderedBlockCache { blocks: Vec::new(), next_buf_id: 1 }
    }

    /// How many blocks are kept.
    pub fn len(&self) -> (n: usize)
        ensures
            n == self.blocks@.len(),
    {
        self.blocks.len()
    }

    /// Forgets all blocks. Buffers go on being numbered.
    pub fn clear(&mut self)
        ensures
            final(self).wf(),
            final(self).blocks@ == Seq::<CachedBlock<B>>::empty(),
            final(self).next_buf_id == old(self).next_buf_id,
    {
        self.blocks = Vec::new();
    }

    fn position(&self, id: u64) -> (r: Option<usize>)
        requires
            self.wf(),
        ensures
            match r {
                Some(i) => {
                    &&& i < self.blocks@.len()
                    &&& self.blocks@[i as int].id == id
                    &&& entry(self.blocks@, id) == Some(self.blocks@[i as int])
                    &&& without(self.blocks@, id) == self.blocks@.remove(i as int)
                },
                None => entry(self.blocks@, id) is None && without(self.blocks@, id)
                    == self.blocks@,
            },
    {
        let mut i: usize = 0;
        while i < self.blocks.len()
            invariant
                i <= self.blocks@.len(),
                self.wf(),
                forall|k: int| 0 <= k < i ==> (#[trigger] self.blocks@[k]).id != id,
            decreases self.blocks@.len() - i,
        {
            if self.blocks[i].id == id {
                proof {
                    lemma_without_at(self.blocks@, id, i as int);
                }
                return Some(i);
            }
            i += 1;
        }
        proof {
            lemma_without_absent(self.blocks@, id);
        }
        None
    }

    /// The rendered block, if it is there for `key`.
    pub fn get(&self, id: u64, key: LayoutKey) -> (r: Option<&B>)
        requires
            self.wf(),
        ensures
            match r {
                Some(buf) => is_hit(self.blocks@, id, key) && *buf == entry(
                    self.blocks@,
                    id,
                )->0.buf,
                None => !is_hit(self.blocks@, id, key),
            },
    {
        match self.position(id) {
            Some(i) => {
                if self.blocks[i].key == key {
                    Some(&self.blocks[i].buf)
                } else {
                    None
                }
            },
            None => None,
        }
    }

    fn place(&mut self, block: CachedBlock<B>)
        requires
            old(self).wf(),
        ensures
            final(self).wf(),
            final(self).blocks@ == placed(old(self).blocks@, block),
            final(self).next_buf_id == old(self).next_buf_id,
    {
        proof {
            lemma_placed(self.blocks@, block);
        }
        if let Some(i) = self.position(block.id) {
            self.blocks.remove(i);
        }
        self.blocks.push(block);
    }

    /// What is to be rendered of the blocks that are asked for. Those that are there count
    /// as used.
    pub fn collect_tasks(&mut self, ids: &Vec<u64>, keys: &Vec<LayoutKey>) -> (tasks: Vec<
        RenderTask,
    >)
        requires
            old(self).wf(),
            ids@.len() == keys@.len(),
            old(self).next_buf_id + ids@.len() <= u64::MAX,
        ensures
            final(self).wf(),
            final(self).blocks@ == touched(old(self).blocks@, ids@, keys@, ids@.len() as int),
            tasks@ == missing(
                old(self).blocks@,
                ids@,
                keys@,
                old(self).next_buf_id as int,
                ids@.len() as int,
            ),
            tasks@.len() <= ids@.len(),
            final(self).next_buf_id == old(self).next_buf_id + tasks@.len(),
    {
        let ghost first = self.blocks@;
        let ghost next = self.next_buf_id as int;
        let mut tasks: Vec<RenderTask> = Vec::new();
        let mut i: usize = 0;
        while i < ids.len()
            invariant
                i <= ids@.len(),
                ids@.len() == keys@.len(),
                self.wf(),
                next + ids@.len() <= u64::MAX,
                tasks@.len() <= i,
                self.next_buf_id == next + tasks@.len(),
                self.blocks@ == touched(first, ids@, keys@, i as int),
                tasks@ == missing(first, ids@, keys@, next, i as int),
            decreases ids@.len() - i,
        {
            let id = ids[i];
            let key = keys[i];
            let mut hit: Option<usize> = None;
            if let Some(at) = self.position(id) {
                if self.blocks[at].key == key {
                    hit = Some(at);
                }
            }
            match hit {
                Some(at) => {
                    proof {
                        lemma_placed(self.blocks@, entry(self.blocks@, id)->0);
                    }
                    let block = self.blocks.remove(at);
                    self.blocks.push(block);
                },
                None => {
                    tasks.push(RenderTask { id, key, buf_id: self.next_buf_id });
                    self.next_buf_id = self.next_buf_id + 1;
                },
            }
            i += 1;
        }
        tasks
    }

    /// Lets the oldest blocks go until there are few enough, but none that is pinned.
    fn evict_unpinned(&mut self, pinned: &Vec<u64>)
        ensures
            final(self).blocks@ == evicted(old(self).blocks@, Seq::empty(), pinned@),
            final(self).next_buf_id == old(self).next_buf_id,
    {
        let ghost all = evicted(self.blocks@, Seq::empty(), pinned@);
        let total = self.blocks.len();
        let mut deferred: Vec<CachedBlock<B>> = Vec::new();
        proof {
            assert(deferred@ =~= Seq::<CachedBlock<B>>::empty());
        }
        while self.blocks.len() > 0 && MAX_RENDERED_BLOCKS < self.blocks.len() + deferred.len()
            invariant
                all == evicted(self.blocks@, deferred@, pinned@),
                self.next_buf_id == old(self).next_buf_id,
                self.blocks@.len() + deferred@.len() <= total,
            decreases self.blocks@.len(),
        {
            let ghost before = self.blocks@;
            let block = self.blocks.remove(0);
            proof {
                assert(self.blocks@ =~= before.skip(1));
            }
            if holds(pinned, block.id) {
                deferred.push(block);
            }
        }
        self.blocks.append(&mut deferred);
    }

    /// Takes the rendered blocks in, and lets older ones go that are not among `pinned`.
    pub fn insert_rendered(&mut self, rendered: Vec<CachedBlock<B>>, pinned: &Vec<u64>)
        requires
            old(self).wf(),
        ensures
            final(self).wf(),
            final(self).blocks@ == evicted(
                all_placed(old(self).blocks@, rendered@, rendered@.len() as int),
                Seq::empty(),
                pinned@,
            ),
            final(self).next_buf_id == old(self).next_buf_id,
    {
        let ghost first = self.blocks@;
        let ghost all = rendered@;
        let ghost next = self.next_buf_id;
        let mut rendered = rendered;
        let ghost mut n: int = 0;
        proof {
            assert(all.skip(0) =~= all);
        }
        while rendered.len() > 0
            invariant
                0 <= n <= all.len(),
                rendered@ == all.skip(n),
                self.wf(),
                self.next_buf_id == next,
                self.blocks@ == all_placed(first, all, n),
            decreases rendered@.len(),
        {
            let block = rendered.remove(0);
            self.place(block);
            proof {
                n = n + 1;
                assert(rendered@ =~= all.skip(n));
            }
        }
        proof {
            lemma_evicted_distinct(self.blocks@, Seq::empty(), pinned@);
        }
        self.evict_unpinned(pinned);
    }

    /// Renders what is missing of the blocks that are asked for, and says how many that
    /// were.
    pub fn ensure_many<R: Fn(RenderTask) -> B>(
        &mut self,
        ids: &Vec<u64>,
        keys: &Vec<LayoutKey>,
        render: &R,
    ) -> (rendered: usize)
        requires
            old(self).wf(),
            ids@.len() == keys@.len(),
            ids@.len() <= MAX_RENDERED_BLOCKS,
            old(self).next_buf_id + ids@.len() <= u64::MAX,
            forall|task: RenderTask| #[trigger] call_requires(*render, (task,)),
        ensures
            final(self).wf(),
            old(self).blocks@.len() <= MAX_RENDERED_BLOCKS ==> final(self).blocks@.len()
                <= MAX_RENDERED_BLOCKS,
            ({
                let n = ids@.len() as int;
                let used = touched(old(self).blocks@, ids@, keys@, n);
                let tasks = missing(
                    old(self).blocks@,
                    ids@,
                    keys@,
                    old(self).next_buf_id as int,
                    n,
                );
                &&& rendered == tasks.len()
                &&& final(self).next_buf_id == old(self).next_buf_id + rendered
                &&& rendered == 0 ==> final(self).blocks@ == used
                &&& rendered > 0 ==> exists|blocks: Seq<CachedBlock<B>>|
                    #[trigger] are_rendered(*render, tasks, blocks) && final(self).blocks@
                        == evicted(
                        all_placed(used, blocks, blocks.len() as int),
                        Seq::empty(),
                        ids@,
                    )
            }),
    {
        proof {
            lemma_touched(self.blocks@, ids@, keys@, ids@.len() as int);
        }
        let tasks = self.collect_tasks(ids, keys);
        if tasks.len() == 0 {
            return 0;
        }
        let mut blocks: Vec<CachedBlock<B>> = Vec::new();
        let mut i: usize = 0;
        while i < tasks.len()
            invariant
                i <= tasks@.len(),
                blocks@.len() == i,
                forall|task: RenderTask| #[trigger] call_requires(*render, (task,)),
                forall|k: int|
                    0 <= k < i ==> is_rendered(*render, tasks@[k], #[trigger] blocks@[k]),
            decreases tasks@.len() - i,
        {
            let task = tasks[i];
            let buf = render(task);
            blocks.push(CachedBlock { id: task.id, key: task.key, buf });
            i += 1;
        }
        proof {
            assert(are_rendered(*render, tasks@, blocks@));
            lemma_all_placed(self.blocks@, blocks@, blocks@.len() as int);
            kept_blocks_are_few(
                all_placed(self.blocks@, blocks@, blocks@.len() as int),
                ids@,
            );
        }
        self.insert_rendered(blocks, ids);
        tasks.len()
    }
}

/// The block is what `render` makes of the task.
pub open spec fn is_rendered<B, R: Fn(RenderTask) -> B>(
    render: R,
    task: RenderTask,
    block: CachedBlock<B>,
) -> bool {
    block.id == task.id && block.key == task.key && call_ensures(render, (task,), block.buf)
}

/// The blocks are what `render` makes of the tasks.
pub open spec fn are_rendered<B, R: Fn(RenderTask) -> B>(
    render: R,
    tasks: Seq<RenderTask>,
    blocks: Seq<CachedBlock<B>>,
) -> bool {
    &&& blocks.len() == tasks.len()
    &&& forall|i: int|
        0 <= i < tasks.len() ==> is_rendered(render, tasks[i], #[trigger] blocks[i])
}

/// How many tasks one worker gets, where `available` could work at once.
pub fn tasks_per_worker(tasks: usize, available: usize) -> (n: usize)
    requires
        tasks > 0,
    ensures
        ({
            let workers = if available < 1 {
                1
            } else if available > MAX_WORKERS {
                MAX_WORKERS as int
            } else {
                available as int
            };
            &&& n >= 1
            &&& n * workers >= tasks
            &&& (n - 1) * workers < tasks
        }),
{
    let workers: usize = if available < 1 {
        1
    } else if available > MAX_WORKERS {
        MAX_WORKERS
    } else {
        available
    };
    let n = (tasks - 1) / workers + 1;
    proof {
        let t = tasks as int;
        let w = workers as int;
        vstd::arithmetic::div_mod::lemma_fundamental_div_mod(t - 1, w);
        vstd::arithmetic::div_mod::lemma_mod_bound(t - 1, w);
        let q = (t - 1) / w;
        assert((q + 1) * w == q * w + w) by (nonlinear_arith);
        assert(w * q == q * w) by (nonlinear_arith);
    }
    n
}

proof fn lemma_evicted_distinct<B>(
    rest: Seq<CachedBlock<B>>,
    deferred: Seq<CachedBlock<B>>,
    pinned: Seq<u64>,
)
    requires
        distinct(rest + deferred),
    ensures
        distinct(evicted(rest, deferred, pinned)),
    decreases rest.len(),
{
    let all = rest + deferred;
    if rest.len() > 0 && rest.len() + deferred.len() > MAX_RENDERED_BLOCKS {
        let fewer = rest.skip(1);
        if pinned.contains(rest[0].id) {
            let more = deferred.push(rest[0]);
            let moved = fewer + more;
            assert forall|i: int, j: int| 0 <= i < j < moved.len() implies moved[i].id
                != moved[j].id by {
                assert(moved[i] == all[i + 1]);
                if j == moved.len() - 1 {
                    assert(moved[j] == all[0]);
                } else {
                    assert(moved[j] == all[j + 1]);
                }
            }
            lemma_evicted_distinct(fewer, more, pinned);
        } else {
            let left = fewer + deferred;
            assert forall|i: int, j: int| 0 <= i < j < left.len() implies left[i].id
                != left[j].id by {
                assert(left[i] == all[i + 1]);
                assert(left[j] == all[j + 1]);
            }
            lemma_evicted_distinct(fewer, deferred, pinned);
        }
    }
}

proof fn lemma_evicted<B>(
    rest: Seq<CachedBlock<B>>,
    deferred: Seq<CachedBlock<B>>,
    pinned: Seq<u64>,
)
    requires
        forall|i: int|
            0 <= i < deferred.len() ==> pinned.contains((#[trigger] deferred[i]).id),
    ensures
        ({
            let left = evicted(rest, deferred, pinned);
            &&& left.len() <= MAX_RENDERED_BLOCKS || forall|i: int|
                0 <= i < left.len() ==> pinned.contains((#[trigger] left[i]).id)
            &&& forall|i: int|
                0 <= i < left.len() ==> (rest + deferred).contains(#[trigger] left[i])
            &&& forall|block: CachedBlock<B>|
                pinned.contains(block.id) && #[trigger] (rest + deferred).contains(block)
                    ==> left.contains(block)
        }),
    decreases rest.len(),
{
    let all = rest + deferred;
    let left = evicted(rest, deferred, pinned);
    if rest.len() == 0 || rest.len() + deferred.len() <= MAX_RENDERED_BLOCKS {
        assert forall|i: int| 0 <= i < left.len() implies all.contains(#[trigger] left[i]) by {
            assert(all[i] == left[i]);
        }
    } else {
        let fewer = rest.skip(1);
        let more = if pinned.contains(rest[0].id) {
            deferred.push(rest[0])
        } else {
            deferred
        };
        let next = fewer + more;
        lemma_evicted(fewer, more, pinned);
        assert forall|i: int| 0 <= i < left.len() implies all.contains(#[trigger] left[i]) by {
            assert(next.contains(left[i]));
            let k = choose|k: int| 0 <= k < next.len() && next[k] == left[i];
            if k == all.len() - 1 {
                assert(all[0] == left[i]);
            } else {
                assert(all[k + 1] == left[i]);
            }
        }
        assert forall|block: CachedBlock<B>|
            pinned.contains(block.id) && #[trigger] all.contains(block) implies left.contains(
            block,
        ) by {
            let k = choose|k: int| 0 <= k < all.len() && all[k] == block;
            if k == 0 {
                assert(next[next.len() - 1] == block);
            } else {
                assert(next[k - 1] == block);
            }
            assert(next.contains(block));
        }
    }
}

/// What is pinned stays.
pub proof fn pinned_blocks_stay<B>(
    blocks: Seq<CachedBlock<B>>,
    pinned: Seq<u64>,
    block: CachedBlock<B>,
)
    requires
        blocks.contains(block),
        pinned.contains(block.id),
    ensures
        evicted(blocks, Seq::empty(), pinned).contains(block),
{
    lemma_evicted(blocks, Seq::empty(), pinned);
    assert(blocks + Seq::empty() =~= blocks);
}

/// Nothing comes in by letting blocks go.
pub proof fn eviction_adds_nothing<B>(
    blocks: Seq<CachedBlock<B>>,
    pinned: Seq<u64>,
    block: CachedBlock<B>,
)
    requires
        evicted(blocks, Seq::empty(), pinned).contains(block),
    ensures
        blocks.contains(block),
{
    lemma_evicted(blocks, Seq::empty(), pinned);
    assert(blocks + Seq::empty() =~= blocks);
    let left = evicted(blocks, Seq::empty(), pinned);
    let k = choose|k: int| 0 <= k < left.len() && left[k] == block;
    assert((blocks + Seq::empty()).contains(left[k]));
}

/// There are never more blocks than are to be kept, as long as no more than that are pinned.
pub proof fn kept_blocks_are_few<B>(blocks: Seq<CachedBlock<B>>, pinned: Seq<u64>)
    requires
        distinct(blocks),
        pinned.len() <= MAX_RENDERED_BLOCKS,
    ensures
        evicted(blocks, Seq::empty(), pinned).len() <= MAX_RENDERED_BLOCKS,
{
    lemma_evicted(blocks, Seq::empty(), pinned);
    assert(blocks + Seq::empty() =~= blocks);
    lemma_evicted_distinct(blocks, Seq::empty(), pinned);
    let left = evicted(blocks, Seq::empty(), pinned);
    if left.len() > MAX_RENDERED_BLOCKS {
        let ids = left.map_values(|block: CachedBlock<B>| block.id);
        assert(ids.no_duplicates()) by {
            assert forall|i: int, j: int| 0 <= i < ids.len() && 0 <= j < ids.len() && i
                != j implies ids[i] != ids[j] by {
                assert(left[i].id != left[j].id);
            }
        }
        ids.unique_seq_to_set();
        assert forall|id: u64| ids.to_set().contains(id) implies pinned.to_set().contains(id) by {
            let k = choose|k: int| 0 <= k < ids.len() && ids[k] == id;
            assert(pinned.contains(left[k].id));
        }
        assert(ids.to_set().subset_of(pinned.to_set()));
        vstd::seq_lib::seq_to_set_is_finite(pinned);
        vstd::set_lib::lemma_len_subset(ids.to_set(), pinned.to_set());
        pinned.lemma_cardinality_of_set();
    }
}

proof fn lemma_entry_of_contained<B>(blocks: Seq<CachedBlock<B>>, block: CachedBlock<B>)
    requires
        distinct(blocks),
        blocks.contains(block),
    ensures
        entry(blocks, block.id) == Some(block),
{
    let k = choose|k: int| 0 <= k < blocks.len() && blocks[k] == block;
    lemma_without_at(blocks, block.id, k);
}

proof fn lemma_missing<B>(
    blocks: Seq<CachedBlock<B>>,
    ids: Seq<u64>,
    keys: Seq<LayoutKey>,
    next: int,
    n: int,
    i: int,
)
    requires
        distinct(blocks),
        0 <= i < n <= ids.len(),
        !is_hit(blocks, ids[i], keys[i]),
    ensures
        exists|t: int|
            0 <= t < missing(blocks, ids, keys, next, n).len() && (#[trigger] missing(
                blocks,
                ids,
                keys,
                next,
                n,
            )[t]).id == ids[i] && missing(blocks, ids, keys, next, n)[t].key == keys[i],
    decreases n,
{
    let before = touched(blocks, ids, keys, n - 1);
    let tasks = missing(blocks, ids, keys, next, n - 1);
    let all = missing(blocks, ids, keys, next, n);
    lemma_touched(blocks, ids, keys, n - 1);
    if i == n - 1 {
        assert(entry(before, ids[i]) == entry(blocks, ids[i]));
        assert(all[all.len() - 1].id == ids[i]);
    } else {
        lemma_missing(blocks, ids, keys, next, n - 1, i);
        let t = choose|t: int|
            0 <= t < tasks.len() && (#[trigger] tasks[t]).id == ids[i] && tasks[t].key == keys[i];
        assert(all[t] == tasks[t]);
    }
}

proof fn lemma_missing_ids<B>(
    blocks: Seq<CachedBlock<B>>,
    ids: Seq<u64>,
    keys: Seq<LayoutKey>,
    next: int,
    n: int,
)
    requires
        distinct(blocks),
        n <= ids.len(),
    ensures
        forall|t: int|
            0 <= t < missing(blocks, ids, keys, next, n).len() ==> exists|i: int|
                0 <= i < n && ids[i] == (#[trigger] missing(blocks, ids, keys, next, n)[t]).id
                    && keys[i] == missing(blocks, ids, keys, next, n)[t].key && !is_hit(
                    blocks,
                    ids[i],
                    keys[i],
                ),
    decreases n,
{
    if n > 0 {
        lemma_missing_ids(blocks, ids, keys, next, n - 1);
        lemma_touched(blocks, ids, keys, n - 1);
        let before = touched(blocks, ids, keys, n - 1);
        let tasks = missing(blocks, ids, keys, next, n - 1);
        let all = missing(blocks, ids, keys, next, n);
        assert(entry(before, ids[n - 1]) == entry(blocks, ids[n - 1]));
        assert forall|t: int| 0 <= t < all.len() implies exists|i: int|
            0 <= i < n && ids[i] == (#[trigger] all[t]).id && keys[i] == all[t].key && !is_hit(
                blocks,
                ids[i],
                keys[i],
            ) by {
            if t < tasks.len() {
                assert(all[t] == tasks[t]);
                let i = choose|i: int|
                    0 <= i < n - 1 && ids[i] == tasks[t].id && keys[i] == tasks[t].key && !is_hit(
                        blocks,
                        ids[i],
                        keys[i],
                    );
                assert(ids[i] == all[t].id);
            } else {
                assert(ids[n - 1] == all[t].id);
            }
        }
    }
}

proof fn lemma_placed_entries<B>(
    blocks: Seq<CachedBlock<B>>,
    rendered: Seq<CachedBlock<B>>,
    n: int,
    id: u64,
    key: LayoutKey,
)
    requires
        distinct(blocks),
        0 <= n <= rendered.len(),
        forall|t: int| 0 <= t < n && (#[trigger] rendered[t]).id == id ==> rendered[t].key == key,
        is_hit(blocks, id, key) || exists|t: int| 0 <= t < n && (#[trigger] rendered[t]).id == id,
    ensures
        is_hit(all_placed(blocks, rendered, n), id, key),
    decreases n,
{
    if n > 0 {
        let before = all_placed(blocks, rendered, n - 1);
        lemma_all_placed(blocks, rendered, n - 1);
        lemma_placed(before, rendered[n - 1]);
        if rendered[n - 1].id != id {
            lemma_placed_entries(blocks, rendered, n - 1, id, key);
        }
    }
}

/// Every block that was asked for is there afterwards, for the key it was asked for, where
/// no block is asked for twice.
pub proof fn ensured_blocks_are_found<B, R: Fn(RenderTask) -> B>(
    blocks: Seq<CachedBlock<B>>,
    ids: Seq<u64>,
    keys: Seq<LayoutKey>,
    next: int,
    render: R,
    rendered: Seq<CachedBlock<B>>,
    i: int,
)
    requires
        distinct(blocks),
        ids.len() == keys.len(),
        ids.no_duplicates(),
        are_rendered(render, missing(blocks, ids, keys, next, ids.len() as int), rendered),
        0 <= i < ids.len(),
    ensures
        ({
            let used = touched(blocks, ids, keys, ids.len() as int);
            is_hit(
                evicted(
                    all_placed(used, rendered, rendered.len() as int),
                    Seq::empty(),
                    ids,
                ),
                ids[i],
                keys[i],
            )
        }),
{
    let n = ids.len() as int;
    let used = touched(blocks, ids, keys, n);
    let tasks = missing(blocks, ids, keys, next, n);
    let id = ids[i];
    let key = keys[i];
    lemma_touched(blocks, ids, keys, n);
    lemma_missing_ids(blocks, ids, keys, next, n);
    assert(entry(used, id) == entry(blocks, id));
    assert forall|t: int| 0 <= t < rendered.len() && (#[trigger] rendered[t]).id
        == id implies rendered[t].key == key by {
        assert(is_rendered(render, tasks[t], rendered[t]));
        let k = choose|k: int|
            0 <= k < n && ids[k] == tasks[t].id && keys[k] == tasks[t].key && !is_hit(
                blocks,
                ids[k],
                keys[k],
            );
        assert(ids[k] == ids[i]);
    }
    if !is_hit(blocks, id, key) {
        lemma_missing(blocks, ids, keys, next, n, i);
        let t = choose|t: int|
            0 <= t < tasks.len() && (#[trigger] tasks[t]).id == id && tasks[t].key == key;
        assert(is_rendered(render, tasks[t], rendered[t]));
        assert(rendered[t].id == id);
    }
    let full = all_placed(used, rendered, rendered.len() as int);
    lemma_placed_entries(used, rendered, rendered.len() as int, id, key);
    lemma_all_placed(used, rendered, rendered.len() as int);
    lemma_entry(full, id);
    let block = entry(full, id)->0;
    assert(ids[i] == block.id);
    pinned_blocks_stay(full, ids, block);
    assert(full + Seq::empty() =~= full);
    lemma_evicted_distinct(full, Seq::empty(), ids);
    lemma_entry_of_contained(evicted(full, Seq::empty(), ids), block);
}

proof fn lemma_nothing_missing<B>(
    blocks: Seq<CachedBlock<B>>,
    ids: Seq<u64>,
    keys: Seq<LayoutKey>,
    next: int,
    n: int,
)
    requires
        distinct(blocks),
        0 <= n <= ids.len(),
        forall|i: int| 0 <= i < n ==> is_hit(blocks, #[trigger] ids[i], keys[i]),
    ensures
        missing(blocks, ids, keys, next, n) == Seq::<RenderTask>::empty(),
    decreases n,
{
    if n > 0 {
        lemma_nothing_missing(blocks, ids, keys, next, n - 1);
        lemma_touched(blocks, ids, keys, n - 1);
        assert(is_hit(blocks, ids[n - 1], keys[n - 1]));
        assert(entry(touched(blocks, ids, keys, n - 1), ids[n - 1]) == entry(blocks, ids[n - 1]));
    }
}

/// Once blocks were asked for, asking for the same again renders nothing, where no block is
/// asked for twice; and no more blocks are kept than may be.
pub proof fn ensuring_again_renders_nothing<B, R: Fn(RenderTask) -> B>(
    blocks: Seq<CachedBlock<B>>,
    ids: Seq<u64>,
    keys: Seq<LayoutKey>,
    next: int,
    render: R,
    rendered: Seq<CachedBlock<B>>,
    later: int,
)
    requires
        distinct(blocks),
        ids.len() == keys.len(),
        ids.len() <= MAX_RENDERED_BLOCKS,
        ids.no_duplicates(),
        are_rendered(render, missing(blocks, ids, keys, next, ids.len() as int), rendered),
    ensures
        ({
            let used = touched(blocks, ids, keys, ids.len() as int);
            let kept = evicted(
                all_placed(used, rendered, rendered.len() as int),
                Seq::empty(),
                ids,
            );
            &&& missing(kept, ids, keys, later, ids.len() as int) == Seq::<RenderTask>::empty()
            &&& kept.len() <= MAX_RENDERED_BLOCKS
        }),
{
    let n = ids.len() as int;
    let used = touched(blocks, ids, keys, n);
    let full = all_placed(used, rendered, rendered.len() as int);
    let kept = evicted(full, Seq::empty(), ids);
    lemma_touched(blocks, ids, keys, n);
    lemma_all_placed(used, rendered, rendered.len() as int);
    kept_blocks_are_few(full, ids);
    assert(full + Seq::empty() =~= full);
    lemma_evicted_distinct(full, Seq::empty(), ids);
    assert forall|i: int| 0 <= i < n implies is_hit(kept, #[trigger] ids[i], keys[i]) by {
        ensured_blocks_are_found(blocks, ids, keys, next, render, rendered, i);
    }
    lemma_nothing_missing(kept, ids, keys, later, n);
}

} // verus!
