//! Filling, ageing and reading the cache of compiled layouts, and what always holds of it.
use vstd::prelude::*;
use crate::cached_layout::{
    measurement_ensured, moved_to_back, pure_scale, range_ensured, theme_ensured, theme_lookups,
    CachedLayout, MeasurementKey, RenderRangeKey,
};
use crate::compile::{pure_builder, CompileSources, SourceViewRequest};
use crate::compile_jobs::{job_lookups, job_shows, CompileJob, CompiledJob};
use crate::host::LayoutHost;
use crate::ir::{
    Constraint, ContentTextWindow, InlineSyntaxSpan, IrLeaf, LayoutIr, RetainedContentSpec,
    RowPrefixSpec, RunsSpec,
};
use crate::keys::DisplayCacheKey;
use crate::layout_cache::{
    all_wf, block_position, kept, kept_bytes, lemma_block_position, lemma_to_set_push,
    lemma_unique_push, lemma_unique_remove, set_of, shifted, syntax_evicted, unique_ids,
    LayoutCache, Shelf,
};
use crate::plan::MeasuredLayout;
use crate::syntax_cache::{
    agree, highlighted, lemma_more_lookups, lookups_leave, pure_highlighter, InlineSyntaxCache,
    SyntaxBucket, SyntaxLookup,
};
use crate::view_state::{view_rows, ViewState};
use std::collections::HashSet;

verus! {

broadcast use vstd::std_specs::hash::group_hash_axioms;

/// A compiled layout that is to be cached, and the bytes it keeps.
#[derive(Debug)]
pub struct CompiledEntry {
    pub id: u64,
    pub key: DisplayCacheKey,
    pub layout: LayoutIr,
    pub refresh_at: Option<u64>,
    pub weight: usize,
}

/// `entry` is a compiled layout of which nothing was measured or drawn yet.
pub open spec fn is_fresh<T>(
    entry: CachedLayout<T>,
    compiled: CompiledEntry,
    theme_revision: u64,
) -> bool {
    &&& entry.id == compiled.id
    &&& entry.key == compiled.key
    &&& entry.layout == compiled.layout
    &&& entry.syntax_theme_revision == theme_revision
    &&& entry.measurements@.len() == 0
    &&& entry.rendered_ranges@.len() == 0
    &&& entry.weight == compiled.weight
    &&& entry.refresh_at == compiled.refresh_at
    &&& !entry.content_hash_pending
}

/// `after` is `before` with a compiled layout as its newest, in place of the one that its
/// node had.
pub open spec fn inserted<T>(
    before: Shelf<T>,
    compiled: CompiledEntry,
    theme_revision: u64,
    after: Shelf<T>,
) -> bool {
    let found = block_position(before.blocks, compiled.id, 0);
    &&& after.blocks.len() > 0
    &&& is_fresh(after.blocks.last(), compiled, theme_revision)
    &&& after.blocks.drop_last() == match found {
        Some(pos) => before.blocks.remove(pos),
        None => before.blocks,
    }
    &&& after.retained_bytes == (match found {
        Some(pos) => before.retained_bytes.saturating_sub(before.blocks[pos].weight),
        None => before.retained_bytes,
    }).saturating_add(compiled.weight)
}

/// `steps` leads from `start` on, one compiled layout after the other.
pub open spec fn inserted_all<T>(
    start: Shelf<T>,
    layouts: Seq<CompiledEntry>,
    theme_revision: u64,
    steps: Seq<Shelf<T>>,
) -> bool {
    &&& steps.len() == layouts.len() + 1
    &&& steps[0] == start
    &&& forall|i: int|
        0 <= i < layouts.len() ==> inserted(
            steps[i],
            #[trigger] layouts[i],
            theme_revision,
            steps[i + 1],
        )
}

/// `compiled` is what the jobs come to at a moment.
pub open spec fn jobs_show<
    F: Fn(&str, &str) -> Vec<InlineSyntaxSpan>,
    V: Fn(SourceViewRequest) -> u64,
>(jobs: Seq<CompileJob>, highlight: F, build_view: V, now: u64, compiled: Seq<CompiledJob>) -> bool {
    &&& compiled.len() == jobs.len()
    &&& forall|i: int|
        0 <= i < jobs.len() ==> job_shows(
            jobs[i],
            highlight,
            build_view,
            now,
            #[trigger] compiled[i],
        )
}

/// What is looked up to compile some jobs.
pub open spec fn jobs_lookups<
    F: Fn(&str, &str) -> Vec<InlineSyntaxSpan>,
    V: Fn(SourceViewRequest) -> u64,
>(jobs: Seq<CompileJob>, highlight: F, build_view: V) -> Seq<SyntaxLookup>
    decreases jobs.len(),
{
    if jobs.len() == 0 {
        Seq::empty()
    } else {
        jobs_lookups(jobs.drop_last(), highlight, build_view) + job_lookups(
            jobs.last(),
            highlight,
            build_view,
        )
    }
}

/// `entry` is a compiled job, weighed.
pub open spec fn entry_of<W: Fn(&LayoutIr) -> usize>(
    compiled: CompiledJob,
    weigh: W,
    entry: CompiledEntry,
) -> bool {
    &&& entry.id == compiled.id
    &&& entry.key == compiled.key
    &&& entry.layout == compiled.layout
    &&& entry.refresh_at == compiled.refresh_at
    &&& call_ensures(weigh, (&compiled.layout,), entry.weight)
}

/// `entries` are compiled jobs, weighed.
pub open spec fn entries_of<W: Fn(&LayoutIr) -> usize>(
    compiled: Seq<CompiledJob>,
    weigh: W,
    entries: Seq<CompiledEntry>,
) -> bool {
    &&& entries.len() == compiled.len()
    &&& forall|i: int|
        0 <= i < compiled.len() ==> entry_of(compiled[i], weigh, #[trigger] entries[i])
}

/// What did not compile, in the order of the jobs.
pub open spec fn all_errors(compiled: Seq<CompiledJob>) -> Seq<String>
    decreases compiled.len(),
{
    if compiled.len() == 0 {
        Seq::empty()
    } else {
        all_errors(compiled.drop_last()) + compiled.last().errors@
    }
}

/// `after` is what compiling some jobs and caching what they come to leaves of a cache with
/// these highlights, layouts and pins: `compiled` is what the jobs come to, `layouts` is that
/// weighed, `syntax` is what their lookups leave of the highlights, and `steps` leads to the
/// layouts that there are before the budget is enforced.
pub open spec fn filled_with<
    T,
    F: Fn(&str, &str) -> Vec<InlineSyntaxSpan>,
    V: Fn(SourceViewRequest) -> u64,
    W: Fn(&LayoutIr) -> usize,
>(
    after: LayoutCache<T>,
    syntax_before: InlineSyntaxCache,
    shelf: Shelf<T>,
    pinned: Set<u64>,
    jobs: Seq<CompileJob>,
    theme_revision: u64,
    highlight: F,
    build_view: V,
    weigh: W,
    now: u64,
    errors: Seq<String>,
    compiled: Seq<CompiledJob>,
    layouts: Seq<CompiledEntry>,
    syntax: InlineSyntaxCache,
    steps: Seq<Shelf<T>>,
) -> bool {
    &&& jobs_show(jobs, highlight, build_view, now, compiled)
    &&& entries_of(compiled, weigh, layouts)
    &&& errors == all_errors(compiled)
    &&& lookups_leave(
        highlight,
        theme_revision,
        syntax_before,
        jobs_lookups(jobs, highlight, build_view),
        syntax,
    )
    &&& inserted_all(shelf, layouts, theme_revision, steps)
    &&& after.enforced(syntax, steps.last(), pinned)
}

/// `after` is what compiling some jobs and caching what they come to leaves of a cache with
/// these highlights, layouts and pins.
pub open spec fn filled<
    T,
    F: Fn(&str, &str) -> Vec<InlineSyntaxSpan>,
    V: Fn(SourceViewRequest) -> u64,
    W: Fn(&LayoutIr) -> usize,
>(
    after: LayoutCache<T>,
    syntax_before: InlineSyntaxCache,
    shelf: Shelf<T>,
    pinned: Set<u64>,
    jobs: Seq<CompileJob>,
    theme_revision: u64,
    highlight: F,
    build_view: V,
    weigh: W,
    now: u64,
    errors: Seq<String>,
) -> bool {
    exists|
        compiled: Seq<CompiledJob>,
        layouts: Seq<CompiledEntry>,
        syntax: InlineSyntaxCache,
        steps: Seq<Shelf<T>>,
    | #[trigger]
        filled_with(
            after,
            syntax_before,
            shelf,
            pinned,
            jobs,
            theme_revision,
            highlight,
            build_view,
            weigh,
            now,
            errors,
            compiled,
            layouts,
            syntax,
            steps,
        )
}

proof fn lemma_eviction_agrees<F: Fn(&str, &str) -> Vec<InlineSyntaxSpan>>(
    buckets: Seq<SyntaxBucket>,
    retained: usize,
    budget: usize,
    f: F,
)
    requires
        agree(buckets, f),
    ensures
        agree(syntax_evicted(buckets, retained, budget), f),
    decreases buckets.len(),
{
    if buckets.len() > 0 {
        let rest = buckets.drop_first();
        assert forall|i: int, j: int|
            0 <= i < rest.len() && 0 <= j < rest[i].entries@.len() implies (
        #[trigger] rest[i].entries@[j]).spans@ == highlighted(
            f,
            rest[i].entries@[j].language@,
            rest[i].entries@[j].source@,
        ) by {
            assert(rest[i].entries@[j] == buckets[i + 1].entries@[j]);
        }
        lemma_eviction_agrees(rest, retained, budget, f);
    }
}

impl<T> LayoutCache<T> {
    fn insert_one(&mut self, compiled: CompiledEntry, theme_revision: u64)
        requires
            unique_ids(old(self).blocks@),
            all_wf(old(self).blocks@),
        ensures
            unique_ids(final(self).blocks@),
            all_wf(final(self).blocks@),
            inserted(old(self).shelf(), compiled, theme_revision, final(self).shelf()),
            final(self).inline_syntax == old(self).inline_syntax,
            final(self).pinned == old(self).pinned,
            final(self).budget == old(self).budget,
    {
        let ghost before = self.blocks@;
        proof {
            lemma_block_position(before, compiled.id, 0);
        }
        if let Some(pos) = self.position(compiled.id) {
            proof {
                lemma_unique_remove(before, pos as int);
            }
            let previous = self.blocks.remove(pos);
            self.retained_bytes = self.retained_bytes.saturating_sub(previous.weight);
        }
        self.retained_bytes = self.retained_bytes.saturating_add(compiled.weight);
        let ghost rest = self.blocks@;
        let entry = CachedLayout {
            id: compiled.id,
            key: compiled.key,
            layout: compiled.layout,
            syntax_theme_revision: theme_revision,
            measurements: Vec::new(),
            rendered_ranges: Vec::new(),
            weight: compiled.weight,
            refresh_at: compiled.refresh_at,
            content_hash_pending: false,
        };
        proof {
            lemma_unique_push(rest, entry);
            assert(rest.push(entry).drop_last() =~= rest);
        }
        self.blocks.push(entry);
    }

    /// Caches compiled layouts, each as the newest, and drops others if there is no room.
    pub fn insert_compiled_blocks(&mut self, layouts: Vec<CompiledEntry>, theme_revision: u64)
        requires
            old(self).wf(),
        ensures
            final(self).wf(),
            final(self).budget == old(self).budget,
            exists|steps: Seq<Shelf<T>>| #[trigger]
                inserted_all(old(self).shelf(), layouts@, theme_revision, steps)
                    && final(self).enforced(old(self).inline_syntax, steps.last(), old(self).pinned@),
    {
        let ghost all = layouts@;
        let mut layouts = layouts;
        let ghost start = self.shelf();
        let ghost mut steps: Seq<Shelf<T>> = seq![start];
        let mut n: usize = layouts.len();
        let total: usize = layouts.len();
        while n > 0
            invariant
                n == layouts@.len(),
                n <= total,
                total == all.len(),
                layouts@ == all.skip(total - n),
                unique_ids(self.blocks@),
                all_wf(self.blocks@),
                start == old(self).shelf(),
                steps.len() == total - n + 1,
                steps[0] == start,
                steps.last() == self.shelf(),
                forall|i: int|
                    0 <= i < total - n ==> inserted(
                        steps[i],
                        #[trigger] all[i],
                        theme_revision,
                        steps[i + 1],
                    ),
                self.inline_syntax == old(self).inline_syntax,
                self.pinned == old(self).pinned,
                self.budget == old(self).budget,
            decreases n,
        {
            let ghost before = steps;
            let compiled = layouts.remove(0);
            proof {
                assert(compiled == all[total - n]);
                assert(layouts@ =~= all.skip(total - n + 1));
            }
            self.insert_one(compiled, theme_revision);
            proof {
                steps = steps.push(self.shelf());
                assert forall|i: int| 0 <= i < total - n + 1 implies inserted(
                    steps[i],
                    #[trigger] all[i],
                    theme_revision,
                    steps[i + 1],
                ) by {
                    if i < total - n {
                        assert(steps[i] == before[i]);
                        assert(steps[i + 1] == before[i + 1]);
                    }
                }
            }
            n -= 1;
        }
        proof {
            assert(inserted_all(start, all, theme_revision, steps));
        }
        let ghost middle = *self;
        self.enforce_budget();
        proof {
            assert(self.enforced(old(self).inline_syntax, steps.last(), old(self).pinned@));
        }
    }

    /// Compiles what the jobs ask for and caches it; returns what did not compile. `weigh`
    /// gives the bytes that a layout keeps.
    pub fn compile_and_insert<
        F: Fn(&str, &str) -> Vec<InlineSyntaxSpan>,
        V: Fn(SourceViewRequest) -> u64,
        W: Fn(&LayoutIr) -> usize,
    >(
        &mut self,
        jobs: Vec<CompileJob>,
        now: u64,
        theme_revision: u64,
        highlight: &F,
        build_view: &V,
        weigh: &W,
    ) -> (errors: Vec<String>)
        requires
            old(self).wf(),
            pure_highlighter(*highlight),
            pure_builder(*build_view),
            old(self).inline_syntax.agrees(*highlight, theme_revision),
            forall|layout: &LayoutIr| #[trigger] call_requires(*weigh, (layout,)),
        ensures
            final(self).wf(),
            final(self).budget == old(self).budget,
            final(self).inline_syntax.agrees(*highlight, theme_revision),
            filled(
                *final(self),
                old(self).inline_syntax,
                old(self).shelf(),
                old(self).pinned@,
                jobs@,
                theme_revision,
                *highlight,
                *build_view,
                *weigh,
                now,
                errors@,
            ),
    {
        let ghost syntax_before = self.inline_syntax;
        let ghost shelf = self.shelf();
        let ghost pinned = self.pinned@;
        let ghost all = jobs@;
        let mut jobs = jobs;
        let mut layouts: Vec<CompiledEntry> = Vec::new();
        let mut errors: Vec<String> = Vec::new();
        let ghost mut done: Seq<CompiledJob> = Seq::empty();
        let total: usize = jobs.len();
        let mut n: usize = jobs.len();
        proof {
            assert(all.skip(0) =~= all);
            assert(jobs_lookups(all.take(0), *highlight, *build_view) =~= Seq::<
                SyntaxLookup,
            >::empty());
        }
        while n > 0
            invariant
                n == jobs@.len(),
                n <= total,
                total == all.len(),
                jobs@ == all.skip(total - n),
                pure_highlighter(*highlight),
                pure_builder(*build_view),
                forall|layout: &LayoutIr| #[trigger] call_requires(*weigh, (layout,)),
                self.inline_syntax.wf(),
                self.inline_syntax.agrees(*highlight, theme_revision),
                lookups_leave(
                    *highlight,
                    theme_revision,
                    old(self).inline_syntax,
                    jobs_lookups(all.take(total - n), *highlight, *build_view),
                    self.inline_syntax,
                ),
                self.blocks == old(self).blocks,
                self.pinned == old(self).pinned,
                self.retained_bytes == old(self).retained_bytes,
                self.budget == old(self).budget,
                self.earliest_refresh_at == old(self).earliest_refresh_at,
                done.len() == total - n,
                forall|i: int|
                    0 <= i < total - n ==> job_shows(
                        all[i],
                        *highlight,
                        *build_view,
                        now,
                        #[trigger] done[i],
                    ),
                layouts@.len() == total - n,
                forall|i: int|
                    0 <= i < total - n ==> entry_of(done[i], *weigh, #[trigger] layouts@[i]),
                errors@ == all_errors(done),
            decreases n,
        {
            let job = jobs.remove(0);
            proof {
                assert(job == all[total - n]);
                assert(jobs@ =~= all.skip(total - n + 1));
            }
            let ghost mid = self.inline_syntax;
            let compiled = job.compile(
                now,
                theme_revision,
                highlight,
                build_view,
                &mut self.inline_syntax,
            );
            let ghost before = done;
            proof {
                done = done.push(compiled);
                assert(done.drop_last() =~= before);
                assert(all.take(total - n + 1).drop_last() =~= all.take(total - n));
                lemma_more_lookups(
                    *highlight,
                    theme_revision,
                    old(self).inline_syntax,
                    jobs_lookups(all.take(total - n), *highlight, *build_view),
                    mid,
                    job_lookups(job, *highlight, *build_view),
                    self.inline_syntax,
                );
            }
            let weight = weigh(&compiled.layout);
            let mut more = compiled.errors;
            errors.append(&mut more);
            layouts.push(
                CompiledEntry {
                    id: compiled.id,
                    key: compiled.key,
                    layout: compiled.layout,
                    refresh_at: compiled.refresh_at,
                    weight,
                },
            );
            n -= 1;
        }
        let ghost syntax = self.inline_syntax;
        let ghost entries = layouts@;
        proof {
            assert(jobs_show(all, *highlight, *build_view, now, done));
            assert(entries_of(done, *weigh, entries));
            assert(self.shelf() == old(self).shelf());
            assert(all.take(total as int) =~= all);
        }
        self.insert_compiled_blocks(layouts, theme_revision);
        proof {
            let steps = choose|steps: Seq<Shelf<T>>| #[trigger]
                inserted_all(old(self).shelf(), entries, theme_revision, steps) && self.enforced(
                    syntax,
                    steps.last(),
                    old(self).pinned@,
                );
            assert(inserted_all(old(self).shelf(), entries, theme_revision, steps));
            assert(self.enforced(syntax, steps.last(), old(self).pinned@));
            if syntax.theme_revision == theme_revision {
                lemma_eviction_agrees(
                    syntax.buckets@,
                    self.retained_bytes,
                    self.budget,
                    *highlight,
                );
            }
            assert(filled_with(
                *self,
                syntax_before,
                shelf,
                pinned,
                all,
                theme_revision,
                *highlight,
                *build_view,
                *weigh,
                now,
                errors@,
                done,
                entries,
                syntax,
                steps,
            ));
        }
        errors
    }

    /// Drops the layouts that `keep` does not hold of: those whose node is in `ids`, or is
    /// not, as `listed` says.
    fn retain(&mut self, ids: &HashSet<u64>, listed: bool)
        requires
            unique_ids(old(self).blocks@),
            all_wf(old(self).blocks@),
        ensures
            unique_ids(final(self).blocks@),
            all_wf(final(self).blocks@),
            ({
                let keep = |entry: CachedLayout<T>| ids@.contains(entry.id) == listed;
                &&& final(self).blocks@ == kept(old(self).blocks@, keep)
                &&& final(self).retained_bytes == kept_bytes(
                    old(self).retained_bytes,
                    old(self).blocks@,
                    keep,
                )
            }),
            final(self).inline_syntax == old(self).inline_syntax,
            final(self).pinned == old(self).pinned,
            final(self).budget == old(self).budget,
    {
        let ghost keep = |entry: CachedLayout<T>| ids@.contains(entry.id) == listed;
        let ghost before = self.blocks@;
        let mut seen: usize = 0;
        let mut at: usize = 0;
        let total: usize = self.blocks.len();
        proof {
            assert(kept(before.take(0), keep) =~= Seq::<CachedLayout<T>>::empty());
            assert(self.blocks@ =~= kept(before.take(0), keep) + before.skip(0));
            assert(kept_bytes(self.retained_bytes, before.take(0), keep) == self.retained_bytes);
        }
        while seen < total
            invariant
                seen <= total,
                total == before.len(),
                keep == (|entry: CachedLayout<T>| ids@.contains(entry.id) == listed),
                at <= seen,
                at == kept(before.take(seen as int), keep).len(),
                self.blocks@ == kept(before.take(seen as int), keep) + before.skip(seen as int),
                self.retained_bytes == kept_bytes(
                    old(self).retained_bytes,
                    before.take(seen as int),
                    keep,
                ),
                self.inline_syntax == old(self).inline_syntax,
                self.pinned == old(self).pinned,
                self.budget == old(self).budget,
            decreases total - seen,
        {
            let ghost now = kept(before.take(seen as int), keep);
            proof {
                assert(before.take(seen + 1).drop_last() =~= before.take(seen as int));
                assert(self.blocks@[at as int] == before[seen as int]);
            }
            if ids.contains(&self.blocks[at].id) == listed {
                proof {
                    assert(self.blocks@ =~= now.push(before[seen as int]) + before.skip(seen + 1));
                }
                at += 1;
            } else {
                let removed = self.blocks.remove(at);
                self.retained_bytes = self.retained_bytes.saturating_sub(removed.weight);
                proof {
                    assert(self.blocks@ =~= now + before.skip(seen + 1));
                }
            }
            seen += 1;
        }
        proof {
            assert(before.take(total as int) =~= before);
            assert(self.blocks@ =~= kept(before, keep));
            lemma_kept(before, keep);
        }
    }

    /// Drops the layouts of all nodes but `ids`.
    pub fn retain_nodes(&mut self, ids: &Vec<u64>)
        requires
            old(self).wf(),
        ensures
            final(self).wf(),
            final(self).budget == old(self).budget,
            ({
                let live = |entry: CachedLayout<T>| ids@.to_set().contains(entry.id) == true;
                final(self).enforced(
                    old(self).inline_syntax,
                    Shelf {
                        blocks: kept(old(self).blocks@, live),
                        retained_bytes: kept_bytes(
                            old(self).retained_bytes,
                            old(self).blocks@,
                            live,
                        ),
                    },
                    old(self).pinned@.intersect(ids@.to_set()),
                )
            }),
    {
        let live = set_of(ids);
        self.retain(&live, true);
        let mut pinned: HashSet<u64> = HashSet::new();
        let mut i: usize = 0;
        proof {
            assert(self.pinned@.intersect(ids@.take(0).to_set()) =~= Set::<u64>::empty());
        }
        while i < ids.len()
            invariant
                i <= ids@.len(),
                pinned@ == self.pinned@.intersect(ids@.take(i as int).to_set()),
            decreases ids@.len() - i,
        {
            proof {
                lemma_to_set_push(ids@, i as int);
            }
            if self.pinned.contains(&ids[i]) {
                pinned.insert(ids[i]);
            }
            i += 1;
            proof {
                assert(pinned@ =~= self.pinned@.intersect(ids@.take(i as int).to_set()));
            }
        }
        proof {
            assert(ids@.take(i as int) =~= ids@);
        }
        self.pinned = pinned;
        self.enforce_budget();
    }

    /// Drops the layouts that are due to be drawn again at `now`. Their nodes, oldest
    /// first.
    pub fn expire_due_refreshes(&mut self, now: u64) -> (due: Vec<u64>)
        requires
            old(self).wf(),
        ensures
            final(self).wf(),
            due@ == due_ids(old(self).blocks@, now),
            ({
                let keep = |entry: CachedLayout<T>|
                    due_ids(old(self).blocks@, now).to_set().contains(entry.id) == false;
                &&& final(self).blocks@ == kept(old(self).blocks@, keep)
                &&& final(self).retained_bytes == kept_bytes(
                    old(self).retained_bytes,
                    old(self).blocks@,
                    keep,
                )
            }),
            final(self).inline_syntax == old(self).inline_syntax,
            final(self).pinned == old(self).pinned,
            final(self).budget == old(self).budget,
    {
        let mut due: Vec<u64> = Vec::new();
        let mut i: usize = 0;
        proof {
            assert(due_ids(self.blocks@.take(0), now) =~= Seq::<u64>::empty());
        }
        while i < self.blocks.len()
            invariant
                *self == *old(self),
                i <= self.blocks@.len(),
                due@ == due_ids(self.blocks@.take(i as int), now),
            decreases self.blocks@.len() - i,
        {
            proof {
                assert(self.blocks@.take(i + 1).drop_last() =~= self.blocks@.take(i as int));
            }
            if let Some(deadline) = self.blocks[i].refresh_at {
                if deadline <= now {
                    due.push(self.blocks[i].id);
                }
            }
            i += 1;
        }
        proof {
            assert(self.blocks@.take(i as int) =~= self.blocks@);
        }
        let due_set = set_of(&due);
        self.retain(&due_set, false);
        self.recompute_earliest_refresh_at();
        due
    }

    /// The layout of a node, if one of this key is cached. It becomes the newest.
    pub fn get(&mut self, id: u64, key: DisplayCacheKey) -> (layout: Option<&LayoutIr>)
        requires
            old(self).wf(),
        ensures
            match block_position(old(self).blocks@, id, 0) {
                Some(pos) if old(self).blocks@[pos].key == key => {
                    &&& layout == Some(&old(self).blocks@[pos].layout)
                    &&& final(self).blocks@ == moved_to_back(old(self).blocks@, pos)
                },
                _ => layout is None && final(self).blocks@ == old(self).blocks@,
            },
            final(self).wf(),
            final(self).inline_syntax == old(self).inline_syntax,
            final(self).pinned == old(self).pinned,
            final(self).retained_bytes == old(self).retained_bytes,
            final(self).budget == old(self).budget,
    {
        match self.position(id) {
            Some(pos) => {
                if !self.blocks[pos].key.same(key) {
                    return None;
                }
                self.touch(pos);
                let last = self.blocks.len() - 1;
                Some(&self.blocks[last].layout)
            },
            None => None,
        }
    }
}

/// The nodes whose layouts are due at `now`.
pub open spec fn due_ids<T>(blocks: Seq<CachedLayout<T>>, now: u64) -> Seq<u64>
    decreases blocks.len(),
{
    if blocks.len() == 0 {
        Seq::empty()
    } else if blocks.last().refresh_at is Some && blocks.last().refresh_at->0 <= now {
        due_ids(blocks.drop_last(), now).push(blocks.last().id)
    } else {
        due_ids(blocks.drop_last(), now)
    }
}

pub(crate) proof fn lemma_kept<T>(
    blocks: Seq<CachedLayout<T>>,
    keep: spec_fn(CachedLayout<T>) -> bool,
)
    requires
        unique_ids(blocks),
        all_wf(blocks),
    ensures
        unique_ids(kept(blocks, keep)),
        all_wf(kept(blocks, keep)),
        forall|i: int|
            0 <= i < kept(blocks, keep).len() ==> blocks.contains(#[trigger] kept(blocks, keep)[i])
                && keep(kept(blocks, keep)[i]),
        forall|i: int|
            0 <= i < blocks.len() && keep(blocks[i]) ==> kept(blocks, keep).contains(
                #[trigger] blocks[i],
            ),
    decreases blocks.len(),
{
    let all = kept(blocks, keep);
    if blocks.len() > 0 {
        let init = blocks.drop_last();
        let some = kept(init, keep);
        assert(unique_ids(init));
        assert(all_wf(init));
        lemma_kept(init, keep);
        assert forall|i: int| 0 <= i < some.len() implies blocks.contains(#[trigger] some[i])
            && some[i].id != blocks.last().id by {
            assert(init.contains(some[i]));
            let k = choose|k: int| 0 <= k < init.len() && init[k] == some[i];
            assert(blocks[k] == some[i]);
            assert(blocks[k].id != blocks[blocks.len() - 1].id);
        }
        assert(blocks[blocks.len() - 1] == blocks.last());
        if keep(blocks.last()) {
            lemma_unique_push(some, blocks.last());
            assert forall|i: int| 0 <= i < all.len() implies blocks.contains(#[trigger] all[i])
                && keep(all[i]) by {
                if i < some.len() {
                    assert(all[i] == some[i]);
                }
            }
        }
        assert forall|i: int| 0 <= i < blocks.len() && keep(blocks[i]) implies all.contains(
            #[trigger] blocks[i],
        ) by {
            if i < init.len() {
                assert(init[i] == blocks[i]);
                assert(some.contains(init[i]));
                let k = choose|k: int| 0 <= k < some.len() && some[k] == init[i];
                assert(all[k] == blocks[i]);
            } else {
                assert(all[all.len() - 1] == blocks[i]);
            }
        }
    }
}

/// What rows of a layout are asked for.
#[derive(Clone, Copy, Debug)]
pub struct RangeRequest {
    pub width: u16,
    pub view_state: ViewState,
    pub inline_options: u64,
    pub row_start: usize,
    pub row_count: usize,
}

impl RangeRequest {
    /// What the layout is measured at.
    pub open spec fn measurement(self) -> MeasurementKey {
        MeasurementKey { width: self.width, inline_options: self.inline_options }
    }

    /// What the rows are drawn for.
    pub open spec fn range(self, theme_revision: u64) -> RenderRangeKey {
        RenderRangeKey {
            width: self.width,
            view_state: self.view_state,
            theme_revision,
            row_start: self.row_start,
            row_count: self.row_count,
        }
    }
}

/// The layouts once the one at `pos` was changed to `entry` and became the newest.
pub open spec fn replaced<T>(shelf: Shelf<T>, pos: int, entry: CachedLayout<T>) -> Shelf<T> {
    Shelf {
        blocks: shelf.blocks.remove(pos).push(entry),
        retained_bytes: shifted(shelf.retained_bytes, shelf.blocks[pos].weight, entry.weight),
    }
}

impl<T> LayoutCache<T> {
    /// Puts back a layout that was taken out at `pos` and changed, as the newest, and drops
    /// others if there is no room.
    fn put_back(&mut self, before: usize, entry: CachedLayout<T>)
        requires
            unique_ids(old(self).blocks@),
            all_wf(old(self).blocks@),
            old(self).inline_syntax.wf(),
            entry.wf(),
            forall|i: int|
                0 <= i < old(self).blocks@.len() ==> (#[trigger] old(self).blocks@[i]).id
                    != entry.id,
        ensures
            final(self).wf(),
            final(self).budget == old(self).budget,
            final(self).enforced(
                old(self).inline_syntax,
                Shelf {
                    blocks: old(self).blocks@.push(entry),
                    retained_bytes: shifted(old(self).retained_bytes, before, entry.weight),
                },
                old(self).pinned@,
            ),
    {
        proof {
            lemma_unique_push(self.blocks@, entry);
        }
        if entry.weight >= before {
            self.retained_bytes = self.retained_bytes.saturating_add(entry.weight - before);
        } else {
            self.retained_bytes = self.retained_bytes.saturating_sub(before - entry.weight);
        }
        self.blocks.push(entry);
        self.enforce_budget();
    }

    /// Rows that a node shows in a view, if a layout of this key is cached.
    pub fn measure_height<
        A: Fn(&IrLeaf, u16, u16) -> usize,
        B: Fn(&RunsSpec, &RowPrefixSpec, u16) -> usize,
        C: Fn(&RetainedContentSpec, u16, usize) -> ContentTextWindow,
        D: Fn(u64) -> usize,
        E: Fn(&Vec<Constraint>, &Vec<u16>, u16) -> Vec<u16>,
        F: Fn(&IrLeaf, u16, usize, usize) -> bool,
        G: Fn(&LayoutIr, u16, usize, usize) -> bool,
    >(
        &mut self,
        id: u64,
        key: DisplayCacheKey,
        measurement: MeasurementKey,
        view_state: ViewState,
        host: &LayoutHost<A, B, C, D, E, F, G>,
    ) -> (rows: Option<u64>)
        requires
            old(self).wf(),
            host.wf(),
        ensures
            final(self).wf(),
            final(self).budget == old(self).budget,
            match block_position(old(self).blocks@, id, 0) {
                Some(pos) if old(self).blocks@[pos].key == key => exists|entry: CachedLayout<T>|
                    {
                        &&& #[trigger] measurement_ensured(
                            host.metrics(),
                            old(self).blocks@[pos],
                            measurement,
                            entry,
                        )
                        &&& rows == Some(
                            view_rows(
                                view_state,
                                entry.measurements@.last().layout.rows as int,
                            ).len() as u64,
                        )
                        &&& final(self).enforced(
                            old(self).inline_syntax,
                            replaced(old(self).shelf(), pos, entry),
                            old(self).pinned@,
                        )
                    },
                _ => rows is None && *final(self) == *old(self),
            },
    {
        match self.position(id) {
            Some(pos) => {
                if !self.blocks[pos].key.same(key) {
                    return None;
                }
                let ghost before = self.blocks@;
                proof {
                    lemma_unique_remove(before, pos as int);
                }
                let mut entry = self.blocks.remove(pos);
                let weight = entry.weight;
                host.ensure_cached_measurement(&mut entry, measurement);
                let last = entry.measurements.len() - 1;
                let rows = view_state.measured_height(entry.measurements[last].layout.rows as u64);
                proof {
                    assert(measurement_ensured(
                        host.metrics(),
                        before[pos as int],
                        measurement,
                        entry,
                    ));
                }
                self.put_back(weight, entry);
                Some(rows)
            },
            None => None,
        }
    }

    /// Shows some rows of a node to `visit`, if a layout of this key is cached: rows that
    /// are cached, or that `draw` draws.
    pub fn with_rendered_range<
        'a,
        R,
        A: Fn(&IrLeaf, u16, u16) -> usize,
        B: Fn(&RunsSpec, &RowPrefixSpec, u16) -> usize,
        C: Fn(&RetainedContentSpec, u16, usize) -> ContentTextWindow,
        D: Fn(u64) -> usize,
        E: Fn(&Vec<Constraint>, &Vec<u16>, u16) -> Vec<u16>,
        F: Fn(&IrLeaf, u16, usize, usize) -> bool,
        G: Fn(&LayoutIr, u16, usize, usize) -> bool,
        H: Fn(&str, &str) -> Vec<InlineSyntaxSpan>,
        V: Fn(SourceViewRequest) -> u64,
        L: Fn(&LayoutIr) -> usize,
        W: FnOnce(&LayoutIr, &MeasuredLayout, Option<T>) -> (T, usize, usize),
        X: FnOnce(&T, usize) -> R,
    >(
        &mut self,
        id: u64,
        key: DisplayCacheKey,
        request: RangeRequest,
        host: &LayoutHost<A, B, C, D, E, F, G>,
        sources: &CompileSources<'a, H, V>,
        layout_bytes: &L,
        draw: W,
        visit: X,
    ) -> (shown: Option<R>)
        requires
            old(self).wf(),
            host.wf(),
            sources.wf(),
            sources.admits(old(self).inline_syntax),
            pure_scale(*layout_bytes),
            forall|l: &LayoutIr, m: &MeasuredLayout, t: Option<T>| #[trigger]
                call_requires(draw, (l, m, t)),
            forall|t: &T, n: usize| #[trigger] call_requires(visit, (t, n)),
        ensures
            final(self).wf(),
            final(self).budget == old(self).budget,
            match block_position(old(self).blocks@, id, 0) {
                Some(pos) if old(self).blocks@[pos].key == key => exists|
                    themed: CachedLayout<T>,
                    measured: CachedLayout<T>,
                    entry: CachedLayout<T>,
                    syntax: InlineSyntaxCache,
                |
                    {
                        &&& theme_ensured(
                            sources.env(),
                            *layout_bytes,
                            sources.theme_revision,
                            old(self).blocks@[pos],
                            themed,
                        )
                        &&& #[trigger] measurement_ensured(
                            host.metrics(),
                            themed,
                            request.measurement(),
                            measured,
                        )
                        &&& range_ensured(
                            draw,
                            measured,
                            request.range(sources.theme_revision),
                            entry,
                        )
                        &&& sources.admits(syntax)
                        &&& sources.leaves(
                            old(self).inline_syntax,
                            theme_lookups(old(self).blocks@[pos], sources.theme_revision),
                            syntax,
                        )
                        &&& shown is Some
                        &&& call_ensures(
                            visit,
                            (
                                &entry.rendered_ranges@.last().buffer,
                                entry.rendered_ranges@.last().line_count,
                            ),
                            shown->0,
                        )
                        &&& #[trigger] final(self).enforced(
                            syntax,
                            replaced(old(self).shelf(), pos, entry),
                            old(self).pinned@,
                        )
                    },
                _ => shown is None && *final(self) == *old(self),
            },
    {
        match self.position(id) {
            Some(pos) => {
                if !self.blocks[pos].key.same(key) {
                    return None;
                }
                let ghost before = self.blocks@;
                proof {
                    lemma_unique_remove(before, pos as int);
                }
                let mut entry = self.blocks.remove(pos);
                let weight = entry.weight;
                sources.ensure_cached_syntax_theme(
                    &mut entry,
                    layout_bytes,
                    &mut self.inline_syntax,
                );
                let ghost themed = entry;
                let ghost syntax = self.inline_syntax;
                host.ensure_cached_measurement(
                    &mut entry,
                    MeasurementKey {
                        width: request.width,
                        inline_options: request.inline_options,
                    },
                );
                let ghost measured = entry;
                entry.ensure_rendered_range(
                    RenderRangeKey {
                        width: request.width,
                        view_state: request.view_state,
                        theme_revision: sources.theme_revision,
                        row_start: request.row_start,
                        row_count: request.row_count,
                    },
                    draw,
                );
                let last = entry.rendered_ranges.len() - 1;
                let shown = visit(
                    &entry.rendered_ranges[last].buffer,
                    entry.rendered_ranges[last].line_count,
                );
                let ghost done = entry;
                proof {
                    assert(measurement_ensured(
                        host.metrics(),
                        themed,
                        request.measurement(),
                        measured,
                    ));
                }
                self.put_back(weight, entry);
                proof {
                    assert(self.enforced(
                        syntax,
                        replaced(old(self).shelf(), pos as int, done),
                        old(self).pinned@,
                    ));
                }
                Some(shown)
            },
            None => None,
        }
    }
}

} // verus!
