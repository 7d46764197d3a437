//! Asking for the layouts of nodes: what is not cached is compiled, and then it is.
use vstd::prelude::*;
use crate::cached_layout::CachedLayout;
use crate::compile::{pure_builder, SourceViewRequest};
use crate::compile_jobs::{CompileJob, CompileJobSource, CompiledJob};
use crate::ir::{InlineSyntaxSpan, LayoutIr};
use crate::keys::DisplayCacheKey;
use crate::layout_cache::{
    all_wf, block_position, lemma_block_position, lemma_unique_push, lemma_unique_remove, planned,
    planned_one, unique_ids, work_for, LayoutCache, NodeRequest, Planned, PlannedJob, Shelf,
};
use crate::layout_cache_use::{filled_with, inserted, inserted_all, CompiledEntry};
use crate::syntax_cache::{pure_highlighter, InlineSyntaxCache};

verus! {

/// All requests for a node ask for the same key.
pub open spec fn one_key_per_node(requests: Seq<NodeRequest>) -> bool {
    forall|a: int, b: int|
        0 <= a < requests.len() && 0 <= b < requests.len() && (#[trigger] requests[a]).id == (
        #[trigger] requests[b]).id ==> requests[a].key == requests[b].key
}

/// `jobs` compile what was planned, from the sources that `source_of` gives.
pub open spec fn sources_given<S: Fn(PlannedJob) -> CompileJobSource>(
    source_of: S,
    planned: Seq<PlannedJob>,
    jobs: Seq<CompileJob>,
) -> bool {
    &&& jobs.len() == planned.len()
    &&& forall|i: int|
        0 <= i < jobs.len() ==> {
            &&& (#[trigger] jobs[i]).id == planned[i].id
            &&& jobs[i].key == planned[i].key
            &&& call_ensures(source_of, (planned[i],), jobs[i].source)
        }
}

/// There is room for these layouts beside these highlights.
pub open spec fn fits<T>(shelf: Shelf<T>, syntax: InlineSyntaxCache, budget: usize) -> bool {
    shelf.retained_bytes.saturating_add(syntax.retained_bytes) <= budget
}

/// A layout of this node and key is there.
pub open spec fn has_key<T>(
    blocks: Seq<CachedLayout<T>>,
    id: u64,
    key: DisplayCacheKey,
) -> bool {
    exists|i: int| 0 <= i < blocks.len() && (#[trigger] blocks[i]).id == id && blocks[i].key == key
}

proof fn lemma_has_key<T>(blocks: Seq<CachedLayout<T>>, id: u64, key: DisplayCacheKey)
    requires
        unique_ids(blocks),
        has_key(blocks, id, key),
    ensures
        block_position(blocks, id, 0) is Some,
        blocks[block_position(blocks, id, 0)->0].key == key,
{
    lemma_block_position(blocks, id, 0);
    let i = choose|i: int|
        0 <= i < blocks.len() && (#[trigger] blocks[i]).id == id && blocks[i].key == key;
    let pos = block_position(blocks, id, 0)->0;
    if pos < i {
        assert(blocks[pos].id != blocks[i].id);
    } else if i < pos {
        assert(blocks[i].id != blocks[pos].id);
    }
}

proof fn lemma_key_stays<T>(
    blocks: Seq<CachedLayout<T>>,
    pos: int,
    id: u64,
    key: DisplayCacheKey,
)
    requires
        0 <= pos < blocks.len(),
        has_key(blocks, id, key),
        blocks[pos].id != id,
    ensures
        has_key(blocks.remove(pos), id, key),
{
    let i = choose|i: int|
        0 <= i < blocks.len() && (#[trigger] blocks[i]).id == id && blocks[i].key == key;
    let j = if i < pos {
        i
    } else {
        i - 1
    };
    assert(blocks.remove(pos)[j] == blocks[i]);
}

proof fn lemma_key_behind<T>(
    blocks: Seq<CachedLayout<T>>,
    entry: CachedLayout<T>,
    id: u64,
    key: DisplayCacheKey,
)
    requires
        has_key(blocks, id, key) || (entry.id == id && entry.key == key),
    ensures
        has_key(blocks.push(entry), id, key),
{
    let all = blocks.push(entry);
    if has_key(blocks, id, key) {
        let i = choose|i: int|
            0 <= i < blocks.len() && (#[trigger] blocks[i]).id == id && blocks[i].key == key;
        assert(all[i] == blocks[i]);
    } else {
        assert(all[blocks.len() as int] == entry);
    }
}

proof fn lemma_planned_one<T>(p: Planned<T>, request: NodeRequest, index: int)
    requires
        unique_ids(p.shelf.blocks),
        all_wf(p.shelf.blocks),
    ensures
        ({
            let after = planned_one(p, request, index);
            &&& unique_ids(after.shelf.blocks)
            &&& all_wf(after.shelf.blocks)
            &&& work_for(request) is Some ==> has_key(after.shelf.blocks, request.id, request.key)
                || (after.jobs.len() == p.jobs.len() + 1 && after.jobs.last().id == request.id
                && after.jobs.last().key == request.key)
            &&& after.jobs == p.jobs || (after.jobs.drop_last() == p.jobs && after.jobs.len()
                == p.jobs.len() + 1 && after.jobs.last().id == request.id && after.jobs.last().key
                == request.key)
        }),
{
    let blocks = p.shelf.blocks;
    let after = planned_one(p, request, index);
    lemma_block_position(blocks, request.id, 0);
    match block_position(blocks, request.id, 0) {
        Some(pos) => {
            lemma_unique_remove(blocks, pos);
            let rest = blocks.remove(pos);
            if blocks[pos].key == request.key {
                lemma_key_behind(rest, blocks[pos], request.id, request.key);
            } else if blocks[pos].content_hash_pending
                && blocks[pos].key.differs_in_content_at_most(request.key) {
                let promoted = CachedLayout {
                    key: request.key,
                    content_hash_pending: false,
                    ..blocks[pos]
                };
                lemma_unique_push(rest, promoted);
                lemma_key_behind(rest, promoted, request.id, request.key);
            }
        },
        None => {},
    }
    if after.jobs.len() > p.jobs.len() {
        assert(after.jobs.drop_last() =~= p.jobs);
    }
}

proof fn lemma_asking_keeps<T>(
    p: Planned<T>,
    request: NodeRequest,
    index: int,
    id: u64,
    key: DisplayCacheKey,
)
    requires
        unique_ids(p.shelf.blocks),
        all_wf(p.shelf.blocks),
        has_key(p.shelf.blocks, id, key),
        request.id == id ==> request.key == key,
    ensures
        has_key(planned_one(p, request, index).shelf.blocks, id, key),
        request.id == id ==> planned_one(p, request, index).jobs == p.jobs,
{
    let blocks = p.shelf.blocks;
    lemma_block_position(blocks, request.id, 0);
    lemma_has_key(blocks, id, key);
    match block_position(blocks, request.id, 0) {
        Some(pos) => {
            if request.id == id {
                lemma_key_behind(blocks.remove(pos), blocks[pos], id, key);
            } else {
                lemma_key_stays(blocks, pos, id, key);
                lemma_key_behind(blocks.remove(pos), blocks[pos], id, key);
                let promoted = CachedLayout {
                    key: request.key,
                    content_hash_pending: false,
                    ..blocks[pos]
                };
                lemma_key_behind(blocks.remove(pos), promoted, id, key);
            }
        },
        None => {},
    }
}

/// A job for this node and key is among the first or the later ones.
spec fn has_job(jobs: Seq<PlannedJob>, id: u64, key: DisplayCacheKey) -> bool {
    exists|m: int| 0 <= m < jobs.len() && (#[trigger] jobs[m]).id == id && jobs[m].key == key
}

proof fn lemma_planned<T>(shelf: Shelf<T>, requests: Seq<NodeRequest>, n: int)
    requires
        unique_ids(shelf.blocks),
        all_wf(shelf.blocks),
        one_key_per_node(requests),
        0 <= n <= requests.len(),
    ensures
        ({
            let p = planned(shelf, requests, n);
            &&& unique_ids(p.shelf.blocks)
            &&& all_wf(p.shelf.blocks)
            &&& forall|r: int|
                0 <= r < n && work_for(#[trigger] requests[r]) is Some ==> has_key(
                    p.shelf.blocks,
                    requests[r].id,
                    requests[r].key,
                ) || has_job(p.jobs, requests[r].id, requests[r].key)
            &&& forall|m: int|
                0 <= m < p.jobs.len() ==> exists|r: int|
                    0 <= r < n && (#[trigger] requests[r]).id == (#[trigger] p.jobs[m]).id
                        && requests[r].key == p.jobs[m].key
        }),
    decreases n,
{
    if n > 0 {
        lemma_planned(shelf, requests, n - 1);
        let before = planned(shelf, requests, n - 1);
        let p = planned(shelf, requests, n);
        let request = requests[n - 1];
        lemma_planned_one(before, request, n - 1);
        assert forall|m: int| 0 <= m < before.jobs.len() implies #[trigger] p.jobs[m]
            == before.jobs[m] by {
            if p.jobs != before.jobs {
                assert(p.jobs.drop_last()[m] == before.jobs[m]);
            }
        }
        assert forall|r: int| 0 <= r < n && work_for(#[trigger] requests[r]) is Some implies has_key(
            p.shelf.blocks,
            requests[r].id,
            requests[r].key,
        ) || has_job(p.jobs, requests[r].id, requests[r].key) by {
            let id = requests[r].id;
            let key = requests[r].key;
            if r < n - 1 {
                if has_key(before.shelf.blocks, id, key) {
                    lemma_asking_keeps(before, request, n - 1, id, key);
                } else {
                    let m = choose|m: int|
                        0 <= m < before.jobs.len() && (#[trigger] before.jobs[m]).id == id
                            && before.jobs[m].key == key;
                    assert(p.jobs[m] == before.jobs[m]);
                }
            } else if !has_key(p.shelf.blocks, id, key) {
                assert(p.jobs[p.jobs.len() - 1].id == id);
            }
        }
        assert forall|m: int| 0 <= m < p.jobs.len() implies exists|r: int|
            0 <= r < n && (#[trigger] requests[r]).id == (#[trigger] p.jobs[m]).id
                && requests[r].key == p.jobs[m].key by {
            if m < before.jobs.len() {
                assert(p.jobs[m] == before.jobs[m]);
                let r = choose|r: int|
                    0 <= r < n - 1 && (#[trigger] requests[r]).id == before.jobs[m].id
                        && requests[r].key == before.jobs[m].key;
                assert(requests[r].id == p.jobs[m].id);
            } else {
                assert(requests[n - 1].id == p.jobs[m].id);
            }
        }
    }
}

proof fn lemma_nothing_planned<T>(shelf: Shelf<T>, requests: Seq<NodeRequest>, n: int)
    requires
        unique_ids(shelf.blocks),
        all_wf(shelf.blocks),
        one_key_per_node(requests),
        0 <= n <= requests.len(),
        forall|r: int|
            0 <= r < requests.len() && work_for(#[trigger] requests[r]) is Some ==> has_key(
                shelf.blocks,
                requests[r].id,
                requests[r].key,
            ),
    ensures
        ({
            let p = planned(shelf, requests, n);
            &&& p.jobs == Seq::<PlannedJob>::empty()
            &&& unique_ids(p.shelf.blocks)
            &&& all_wf(p.shelf.blocks)
            &&& forall|r: int|
                0 <= r < requests.len() && work_for(#[trigger] requests[r]) is Some ==> has_key(
                    p.shelf.blocks,
                    requests[r].id,
                    requests[r].key,
                )
        }),
    decreases n,
{
    if n > 0 {
        lemma_nothing_planned(shelf, requests, n - 1);
        let before = planned(shelf, requests, n - 1);
        let p = planned(shelf, requests, n);
        let request = requests[n - 1];
        lemma_planned_one(before, request, n - 1);
        if work_for(request) is Some {
            lemma_asking_keeps(before, request, n - 1, request.id, request.key);
        }
        assert forall|r: int|
            0 <= r < requests.len() && work_for(#[trigger] requests[r]) is Some implies has_key(
            p.shelf.blocks,
            requests[r].id,
            requests[r].key,
        ) by {
            lemma_asking_keeps(before, request, n - 1, requests[r].id, requests[r].key);
        }
    }
}

proof fn lemma_inserted<T>(
    before: Shelf<T>,
    compiled: CompiledEntry,
    theme_revision: u64,
    after: Shelf<T>,
)
    requires
        unique_ids(before.blocks),
        all_wf(before.blocks),
        inserted(before, compiled, theme_revision, after),
    ensures
        unique_ids(after.blocks),
        all_wf(after.blocks),
        has_key(after.blocks, compiled.id, compiled.key),
        forall|id: u64, key: DisplayCacheKey|
            #![trigger has_key(after.blocks, id, key)]
            has_key(before.blocks, id, key) && (compiled.id == id ==> compiled.key == key)
                ==> has_key(after.blocks, id, key),
{
    let blocks = before.blocks;
    let entry = after.blocks.last();
    let rest = after.blocks.drop_last();
    lemma_block_position(blocks, compiled.id, 0);
    assert(after.blocks =~= rest.push(entry));
    let found = block_position(blocks, compiled.id, 0);
    if let Some(pos) = found {
        lemma_unique_remove(blocks, pos);
        assert forall|i: int| 0 <= i < rest.len() implies (#[trigger] rest[i]).id != entry.id by {
            assert(rest[i].id != blocks[pos].id);
        }
    }
    lemma_unique_push(rest, entry);
    lemma_key_behind(rest, entry, compiled.id, compiled.key);
    assert forall|id: u64, key: DisplayCacheKey|
        has_key(blocks, id, key) && (compiled.id == id ==> compiled.key == key) implies has_key(
        after.blocks,
        id,
        key,
    ) by {
        if compiled.id != id {
            if let Some(pos) = found {
                lemma_key_stays(blocks, pos, id, key);
            }
        }
        lemma_key_behind(rest, entry, id, key);
    }
}

/// Of these entries, those of one node have one key.
spec fn one_key_of(layouts: Seq<CompiledEntry>, id: u64, key: DisplayCacheKey) -> bool {
    forall|i: int| 0 <= i < layouts.len() && (#[trigger] layouts[i]).id == id ==> layouts[i].key == key
}

proof fn lemma_inserted_all<T>(
    start: Shelf<T>,
    layouts: Seq<CompiledEntry>,
    theme_revision: u64,
    steps: Seq<Shelf<T>>,
    n: int,
)
    requires
        unique_ids(start.blocks),
        all_wf(start.blocks),
        inserted_all(start, layouts, theme_revision, steps),
        0 <= n <= layouts.len(),
    ensures
        unique_ids(steps[n].blocks),
        all_wf(steps[n].blocks),
        forall|id: u64, key: DisplayCacheKey|
            #![trigger has_key(steps[n].blocks, id, key)]
            one_key_of(layouts, id, key) && (has_key(start.blocks, id, key) || exists|i: int|
                0 <= i < n && (#[trigger] layouts[i]).id == id) ==> has_key(
                steps[n].blocks,
                id,
                key,
            ),
    decreases n,
{
    if n > 0 {
        lemma_inserted_all(start, layouts, theme_revision, steps, n - 1);
        assert(inserted(steps[n - 1], layouts[n - 1], theme_revision, steps[n - 1 + 1]));
        lemma_inserted(steps[n - 1], layouts[n - 1], theme_revision, steps[n]);
        assert forall|id: u64, key: DisplayCacheKey|
            one_key_of(layouts, id, key) && (has_key(start.blocks, id, key) || exists|i: int|
                0 <= i < n && (#[trigger] layouts[i]).id == id) implies has_key(
            steps[n].blocks,
            id,
            key,
        ) by {
            if layouts[n - 1].id == id {
                assert(layouts[n - 1].key == key);
            } else {
                if !has_key(start.blocks, id, key) {
                    let i = choose|i: int| 0 <= i < n && (#[trigger] layouts[i]).id == id;
                    assert(i < n - 1);
                }
                assert(has_key(steps[n - 1].blocks, id, key));
            }
        }
    }
}

/// Once the layouts of some nodes were asked for, and what was not cached was compiled and
/// cached, asking for the same nodes again leaves nothing to compile, if there is room for
/// all layouts beside the highlights. A key says nothing of a width, so this holds at any
/// other width too.
pub proof fn ensured_nodes_are_not_compiled_again<
    T,
    S: Fn(PlannedJob) -> CompileJobSource,
    F: Fn(&str, &str) -> Vec<InlineSyntaxSpan>,
    V: Fn(SourceViewRequest) -> u64,
    W: Fn(&LayoutIr) -> usize,
>(
    before: Shelf<T>,
    requests: Seq<NodeRequest>,
    source_of: S,
    jobs: Seq<CompileJob>,
    after: LayoutCache<T>,
    syntax_before: InlineSyntaxCache,
    pinned: Set<u64>,
    theme_revision: u64,
    highlight: F,
    build_view: V,
    weigh: W,
    now: u64,
    errors: Seq<String>,
    compiled: Seq<CompiledJob>,
    layouts: Seq<CompiledEntry>,
    syntax: InlineSyntaxCache,
    steps: Seq<Shelf<T>>,
)
    requires
        unique_ids(before.blocks),
        all_wf(before.blocks),
        one_key_per_node(requests),
        sources_given(source_of, planned(before, requests, requests.len() as int).jobs, jobs),
        filled_with(
            after,
            syntax_before,
            planned(before, requests, requests.len() as int).shelf,
            pinned,
            jobs,
            theme_revision,
            highlight,
            build_view,
            weigh,
            now,
            errors,
            compiled,
            layouts,
            syntax,
            steps,
        ),
        fits(steps.last(), syntax, after.budget),
    ensures
        planned(after.shelf(), requests, requests.len() as int).jobs == Seq::<PlannedJob>::empty(),
        after.shelf() == steps.last(),
{
    let n = requests.len() as int;
    let p = planned(before, requests, n);
    lemma_planned(before, requests, n);
    lemma_inserted_all(p.shelf, layouts, theme_revision, steps, layouts.len() as int);
    assert(steps[layouts.len() as int] == steps.last());
    assert forall|i: int| 0 <= i < layouts.len() implies (#[trigger] layouts[i]).id == p.jobs[i].id
        && layouts[i].key == p.jobs[i].key by {
        assert(compiled[i].id == jobs[i].id);
    }
    assert forall|r: int| 0 <= r < n && work_for(#[trigger] requests[r]) is Some implies has_key(
        after.shelf().blocks,
        requests[r].id,
        requests[r].key,
    ) by {
        let id = requests[r].id;
        let key = requests[r].key;
        assert forall|i: int| 0 <= i < layouts.len() && (
        #[trigger] layouts[i]).id == id implies layouts[i].key == key by {
            let q = choose|q: int|
                0 <= q < n && (#[trigger] requests[q]).id == p.jobs[i].id && requests[q].key
                    == p.jobs[i].key;
            assert(requests[q].id == requests[r].id);
        }
        assert(one_key_of(layouts, id, key));
        if !has_key(p.shelf.blocks, id, key) {
            let m = choose|m: int|
                0 <= m < p.jobs.len() && (#[trigger] p.jobs[m]).id == id && p.jobs[m].key == key;
            assert(layouts[m].id == id);
        }
        assert(has_key(steps.last().blocks, id, key));
    }
    lemma_nothing_planned(after.shelf(), requests, n);
}

impl<T> LayoutCache<T> {
    /// Sees to it that the layouts of some nodes are cached: those that are not are compiled
    /// from what `source_of` gives for them. How many that were; what did not compile goes
    /// behind `errors`.
    pub fn ensure_many<
        S: Fn(PlannedJob) -> CompileJobSource,
        F: Fn(&str, &str) -> Vec<InlineSyntaxSpan>,
        V: Fn(SourceViewRequest) -> u64,
        W: Fn(&LayoutIr) -> usize,
    >(
        &mut self,
        requests: &Vec<NodeRequest>,
        source_of: &S,
        now: u64,
        theme_revision: u64,
        highlight: &F,
        build_view: &V,
        weigh: &W,
        errors: &mut Vec<String>,
    ) -> (compiled: usize)
        requires
            old(self).wf(),
            forall|job: PlannedJob| #[trigger] call_requires(*source_of, (job,)),
            pure_highlighter(*highlight),
            pure_builder(*build_view),
            old(self).inline_syntax.agrees(*highlight, theme_revision),
            forall|layout: &LayoutIr| #[trigger] call_requires(*weigh, (layout,)),
        ensures
            final(self).wf(),
            final(self).budget == old(self).budget,
            final(self).inline_syntax.agrees(*highlight, theme_revision),
            ({
                let p = planned(old(self).shelf(), requests@, requests@.len() as int);
                &&& compiled == p.jobs.len()
                &&& exists|
                    jobs: Seq<CompileJob>,
                    more: Seq<String>,
                    done: Seq<CompiledJob>,
                    layouts: Seq<CompiledEntry>,
                    syntax: InlineSyntaxCache,
                    steps: Seq<Shelf<T>>,
                |
                    {
                        &&& sources_given(*source_of, p.jobs, jobs)
                        &&& final(errors)@ == old(errors)@ + more
                        &&& #[trigger] filled_with(
                            *final(self),
                            old(self).inline_syntax,
                            p.shelf,
                            old(self).pinned@,
                            jobs,
                            theme_revision,
                            *highlight,
                            *build_view,
                            *weigh,
                            now,
                            more,
                            done,
                            layouts,
                            syntax,
                            steps,
                        )
                        &&& one_key_per_node(requests@) && fits(
                            steps.last(),
                            syntax,
                            final(self).budget,
                        ) ==> planned(
                            final(self).shelf(),
                            requests@,
                            requests@.len() as int,
                        ).jobs == Seq::<PlannedJob>::empty()
                    }
            }),
    {
        let ghost before = self.shelf();
        let planned_jobs = self.collect_compile_jobs(requests);
        let ghost p = planned(before, requests@, requests@.len() as int);
        let ghost shelf = self.shelf();
        let ghost syntax_before = self.inline_syntax;
        let ghost pinned = self.pinned@;
        let mut jobs: Vec<CompileJob> = Vec::new();
        let mut i: usize = 0;
        while i < planned_jobs.len()
            invariant
                i <= planned_jobs@.len(),
                forall|job: PlannedJob| #[trigger] call_requires(*source_of, (job,)),
                jobs@.len() == i,
                forall|k: int|
                    0 <= k < i ==> {
                        &&& (#[trigger] jobs@[k]).id == planned_jobs@[k].id
                        &&& jobs@[k].key == planned_jobs@[k].key
                        &&& call_ensures(*source_of, (planned_jobs@[k],), jobs@[k].source)
                    },
            decreases planned_jobs@.len() - i,
        {
            let job = planned_jobs[i];
            let source = source_of(job);
            jobs.push(CompileJob { id: job.id, key: job.key, source });
            i += 1;
        }
        let ghost all = jobs@;
        let compiled = jobs.len();
        let mut more = self.compile_and_insert(
            jobs,
            now,
            theme_revision,
            highlight,
            build_view,
            weigh,
        );
        let ghost new_errors = more@;
        errors.append(&mut more);
        proof {
            assert(sources_given(*source_of, p.jobs, all));
            let (done, layouts, syntax, steps) = choose|
                done: Seq<CompiledJob>,
                layouts: Seq<CompiledEntry>,
                syntax: InlineSyntaxCache,
                steps: Seq<Shelf<T>>,
            | #[trigger]
                filled_with(
                    *self,
                    syntax_before,
                    shelf,
                    pinned,
                    all,
                    theme_revision,
                    *highlight,
                    *build_view,
                    *weigh,
                    now,
                    new_errors,
                    done,
                    layouts,
                    syntax,
                    steps,
                );
            if one_key_per_node(requests@) && fits(steps.last(), syntax, self.budget) {
                ensured_nodes_are_not_compiled_again(
                    before,
                    requests@,
                    *source_of,
                    all,
                    *self,
                    syntax_before,
                    pinned,
                    theme_revision,
                    *highlight,
                    *build_view,
                    *weigh,
                    now,
                    new_errors,
                    done,
                    layouts,
                    syntax,
                    steps,
                );
            }
            assert(p.shelf == shelf);
            assert(p.jobs == planned_jobs@);
            assert(errors@ =~= old(errors)@ + new_errors);
            assert(filled_with(
                *self,
                old(self).inline_syntax,
                p.shelf,
                old(self).pinned@,
                all,
                theme_revision,
                *highlight,
                *build_view,
                *weigh,
                now,
                new_errors,
                done,
                layouts,
                syntax,
                steps,
            ));
        }
        compiled
    }
}

} // verus!
