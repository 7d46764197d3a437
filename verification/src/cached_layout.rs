//! A compiled layout in the cache, with what was measured and drawn of it.
use vstd::prelude::*;
use crate::compile::{ir_lookups, syntax_compiled, CompileSources, SourceViewRequest};
use crate::highlight_laws::overlooks_highlights;
use crate::host::{LayoutHost, Metrics};
use crate::ir::{
    Constraint, ContentTextWindow, InlineSyntaxSpan, IrLeaf, LayoutIr, RetainedContentSpec,
    RowPrefixSpec, RunsSpec,
};
use crate::keys::DisplayCacheKey;
use crate::plan::{
    is_plan, refresh_equals_rebuild, refresh_outcome, refreshed, same_but_contents, MeasuredLayout,
};
use crate::retained::can_keep;
use crate::syntax_cache::{InlineSyntaxCache, SyntaxLookup};
use crate::view_state::ViewState;

verus! {

/// What a layout was measured at: a width, and the hash of the inline options.
#[derive(Clone, Copy, Debug, PartialEq, Eq, Structural)]
pub struct MeasurementKey {
    pub width: u16,
    pub inline_options: u64,
}

/// A measured layout; `dirty` once a content of the layout has grown.
#[derive(Debug)]
pub struct CachedMeasurement {
    pub key: MeasurementKey,
    pub layout: MeasuredLayout,
    pub retained_bytes: usize,
    pub dirty: bool,
}

/// What some rows of a layout were drawn for.
#[derive(Clone, Copy, Debug, PartialEq, Eq, Structural)]
pub struct RenderRangeKey {
    pub width: u16,
    pub view_state: ViewState,
    pub theme_revision: u64,
    pub row_start: usize,
    pub row_count: usize,
}

/// Some rows of a layout as they were drawn; `dirty` once a content of the layout has
/// grown.
#[derive(Debug)]
pub struct CachedRenderRange<T> {
    pub key: RenderRangeKey,
    pub buffer: T,
    pub line_count: usize,
    pub retained_bytes: usize,
    pub dirty: bool,
}

/// A compiled layout of a node, with its last two measurements and its last two drawn
/// ranges, the newest last.
#[derive(Debug)]
pub struct CachedLayout<T> {
    pub id: u64,
    pub key: DisplayCacheKey,
    pub layout: LayoutIr,
    pub syntax_theme_revision: u64,
    pub measurements: Vec<CachedMeasurement>,
    pub rendered_ranges: Vec<CachedRenderRange<T>>,
    pub weight: usize,
    pub refresh_at: Option<u64>,
    pub content_hash_pending: bool,
}

/// The element at `pos` moved to the back.
pub open spec fn moved_to_back<E>(elements: Seq<E>, pos: int) -> Seq<E> {
    elements.remove(pos).push(elements[pos])
}

/// The first measurement at `key` from `i` on.
pub open spec fn measurement_position(
    measurements: Seq<CachedMeasurement>,
    key: MeasurementKey,
    i: int,
) -> Option<int>
    decreases measurements.len() - i,
{
    if i >= measurements.len() {
        None
    } else if measurements[i].key == key {
        Some(i)
    } else {
        measurement_position(measurements, key, i + 1)
    }
}

/// The first range drawn for `key` from `i` on.
pub open spec fn range_position<T>(
    ranges: Seq<CachedRenderRange<T>>,
    key: RenderRangeKey,
    i: int,
) -> Option<int>
    decreases ranges.len() - i,
{
    if i >= ranges.len() {
        None
    } else if ranges[i].key == key {
        Some(i)
    } else {
        range_position(ranges, key, i + 1)
    }
}

/// The last dirty range among the first `n`.
pub open spec fn last_dirty<T>(ranges: Seq<CachedRenderRange<T>>, n: int) -> Option<int>
    decreases n,
{
    if n <= 0 {
        None
    } else if ranges[n - 1].dirty {
        Some(n - 1)
    } else {
        last_dirty(ranges, n - 1)
    }
}

/// `weight` with `dropped` bytes taken out and `added` bytes put in.
pub open spec fn reweighed(weight: usize, dropped: usize, added: usize) -> usize {
    weight.saturating_sub(dropped).saturating_add(added)
}

impl<T> CachedLayout<T> {
    /// At most two measurements and two drawn ranges are kept.
    pub open spec fn wf(&self) -> bool {
        self.measurements@.len() <= 2 && self.rendered_ranges@.len() <= 2
    }

    /// The same but for measurements and weight.
    pub open spec fn same_but_measurements(self, other: Self) -> bool {
        &&& self.id == other.id
        &&& self.key == other.key
        &&& self.layout == other.layout
        &&& self.syntax_theme_revision == other.syntax_theme_revision
        &&& self.rendered_ranges == other.rendered_ranges
        &&& self.refresh_at == other.refresh_at
        &&& self.content_hash_pending == other.content_hash_pending
    }

    /// The same but for drawn ranges and weight.
    pub open spec fn same_but_ranges(self, other: Self) -> bool {
        &&& self.id == other.id
        &&& self.key == other.key
        &&& self.layout == other.layout
        &&& self.syntax_theme_revision == other.syntax_theme_revision
        &&& self.measurements == other.measurements
        &&& self.refresh_at == other.refresh_at
        &&& self.content_hash_pending == other.content_hash_pending
    }
}

/// `after` is `before` with its newest measurement at `key` and up to date: a cached one,
/// one that was refreshed, or a new one in place of a stale or the oldest one.
pub open spec fn measurement_ensured<T>(
    m: Metrics,
    before: CachedLayout<T>,
    key: MeasurementKey,
    after: CachedLayout<T>,
) -> bool {
    let old = before.measurements@;
    let new = after.measurements@;
    &&& after.same_but_measurements(before)
    &&& new.len() > 0
    &&& new.last().key == key
    &&& !new.last().dirty
    &&& match measurement_position(old, key, 0) {
        Some(pos) => {
            &&& new.drop_last() == old.remove(pos)
            &&& if !old[pos].dirty {
                new.last() == old[pos] && after.weight == before.weight
            } else if refresh_outcome(before.layout, old[pos].layout) is Updated {
                &&& refreshed(m, before.layout, old[pos].layout, new.last().layout, key.width, 0)
                &&& new.last().retained_bytes == old[pos].retained_bytes
                &&& after.weight == before.weight
            } else {
                &&& newly_measured(m, before.layout, new.last())
                &&& after.weight == reweighed(
                    before.weight,
                    old[pos].retained_bytes,
                    new.last().retained_bytes,
                )
            }
        },
        None => {
            &&& newly_measured(m, before.layout, new.last())
            &&& if old.len() >= 2 {
                &&& new.drop_last() == old.drop_first()
                &&& after.weight == reweighed(
                    before.weight,
                    old[0].retained_bytes,
                    new.last().retained_bytes,
                )
            } else {
                &&& new.drop_last() == old
                &&& after.weight == before.weight.saturating_add(new.last().retained_bytes)
            }
        },
    }
}

/// The measurement is one of `layout`, and its bytes are counted.
pub open spec fn newly_measured(
    m: Metrics,
    layout: LayoutIr,
    measurement: CachedMeasurement,
) -> bool {
    &&& is_plan(m, layout, measurement.layout, measurement.key.width, 0)
    &&& can_keep(measurement.layout, measurement.retained_bytes)
}

/// Every measurement with these options is what measuring gives, or gave before contents
/// grew if it is dirty.
pub open spec fn measured_truly<T>(m: Metrics, options: u64, entry: CachedLayout<T>) -> bool {
    forall|i: int|
        0 <= i < entry.measurements@.len() && (
        #[trigger] entry.measurements@[i]).key.inline_options == options ==> if entry.measurements@[i].dirty {
            was_plan(m, entry.layout, entry.measurements@[i])
        } else {
            is_plan(
                m,
                entry.layout,
                entry.measurements@[i].layout,
                entry.measurements@[i].key.width,
                0,
            )
        }
}

/// The measurement was one of `layout` before contents grew.
pub open spec fn was_plan(m: Metrics, layout: LayoutIr, measurement: CachedMeasurement) -> bool {
    exists|earlier: Metrics|
        same_but_contents(earlier, m) && overlooks_highlights(earlier) && #[trigger] is_plan(
            earlier,
            layout,
            measurement.layout,
            measurement.key.width,
            0,
        )
}

/// Once a measurement is ensured it is what measuring the layout anew would give, though
/// it may have been cached or brought up to date in parts.
pub proof fn ensured_measurement_is_true<T>(
    m: Metrics,
    before: CachedLayout<T>,
    key: MeasurementKey,
    after: CachedLayout<T>,
)
    requires
        measured_truly(m, key.inline_options, before),
        measurement_ensured(m, before, key, after),
    ensures
        is_plan(m, after.layout, after.measurements@.last().layout, key.width, 0),
        measured_truly(m, key.inline_options, after),
{
    let old = before.measurements@;
    let new = after.measurements@;
    lemma_measurement_position(old, key, 0);
    match measurement_position(old, key, 0) {
        Some(pos) => {
            let cached = old[pos];
            if cached.dirty && refresh_outcome(before.layout, cached.layout) is Updated {
                let earlier = choose|earlier: Metrics|
                    same_but_contents(earlier, m) && overlooks_highlights(earlier)
                        && #[trigger] is_plan(
                        earlier,
                        before.layout,
                        cached.layout,
                        cached.key.width,
                        0,
                    );
                refresh_equals_rebuild(
                    earlier,
                    m,
                    before.layout,
                    cached.layout,
                    new.last().layout,
                    key.width,
                    0,
                );
            }
            assert(new.drop_last().len() == old.len() - 1);
            assert forall|i: int| 0 <= i < new.len() - 1 implies old.contains(#[trigger] new[i]) by {
                assert(new.drop_last()[i] == old.remove(pos)[i]);
                assert(new[i] == if i < pos {
                    old[i]
                } else {
                    old[i + 1]
                });
            }
        },
        None => {
            assert(new.drop_last().len() == if old.len() >= 2 {
                old.len() - 1
            } else {
                old.len() as int
            });
            assert forall|i: int| 0 <= i < new.len() - 1 implies old.contains(#[trigger] new[i]) by {
                if old.len() >= 2 {
                    assert(new.drop_last()[i] == old.drop_first()[i]);
                    assert(new[i] == old[i + 1]);
                } else {
                    assert(new.drop_last()[i] == old[i]);
                }
            }
        },
    }
}

proof fn lemma_measurement_position(
    measurements: Seq<CachedMeasurement>,
    key: MeasurementKey,
    i: int,
)
    requires
        0 <= i <= measurements.len(),
    ensures
        match measurement_position(measurements, key, i) {
            Some(pos) => i <= pos < measurements.len() && measurements[pos].key == key,
            None => true,
        },
    decreases measurements.len() - i,
{
    if i < measurements.len() && measurements[i].key != key {
        lemma_measurement_position(measurements, key, i + 1);
    }
}

impl<
    A: Fn(&IrLeaf, u16, u16) -> usize,
    B: Fn(&RunsSpec, &RowPrefixSpec, u16) -> usize,
    C: Fn(&RetainedContentSpec, u16, usize) -> ContentTextWindow,
    D: Fn(u64) -> usize,
    E: Fn(&Vec<Constraint>, &Vec<u16>, u16) -> Vec<u16>,
    F: Fn(&IrLeaf, u16, usize, usize) -> bool,
    G: Fn(&LayoutIr, u16, usize, usize) -> bool,
> LayoutHost<A, B, C, D, E, F, G> {
    /// Sees to it that the newest measurement of `entry` is one at `key` and up to date.
    pub fn ensure_cached_measurement<T>(&self, entry: &mut CachedLayout<T>, key: MeasurementKey)
        requires
            self.wf(),
            old(entry).wf(),
        ensures
            final(entry).wf(),
            measurement_ensured(self.metrics(), *old(entry), key, *final(entry)),
    {
        let ghost before = *entry;
        let ghost old_measurements = entry.measurements@;
        let mut position: Option<usize> = None;
        let mut i: usize = 0;
        while i < entry.measurements.len()
            invariant_except_break
                position is None,
            invariant
                *entry == before,
                i <= entry.measurements@.len(),
                measurement_position(entry.measurements@, key, 0) == measurement_position(
                    entry.measurements@,
                    key,
                    i as int,
                ),
            ensures
                match position {
                    Some(pos) => pos < entry.measurements@.len() && entry.measurements@[pos as int].key
                        == key && measurement_position(entry.measurements@, key, 0) == Some(
                        pos as int,
                    ),
                    None => measurement_position(entry.measurements@, key, 0) is None,
                },
            decreases entry.measurements@.len() - i,
        {
            if entry.measurements[i].key == key {
                position = Some(i);
                break ;
            }
            i += 1;
        }
        if let Some(pos) = position {
            let mut measurement = entry.measurements.remove(pos);
            if !measurement.dirty {
                entry.measurements.push(measurement);
                proof {
                    assert(entry.measurements@.drop_last() =~= old_measurements.remove(pos as int));
                }
                return ;
            }
            if self.refresh_layout_ir_content_measurements(
                &entry.layout,
                &mut measurement.layout,
                key.width,
            ) {
                measurement.dirty = false;
                entry.measurements.push(measurement);
                proof {
                    assert(entry.measurements@.drop_last() =~= old_measurements.remove(pos as int));
                }
                return ;
            }
            entry.weight = entry.weight.saturating_sub(measurement.retained_bytes);
        } else if entry.measurements.len() >= 2 {
            let oldest = entry.measurements.remove(0);
            entry.weight = entry.weight.saturating_sub(oldest.retained_bytes);
            proof {
                assert(entry.measurements@ =~= old_measurements.drop_first());
            }
        }
        let ghost rest = entry.measurements@;
        let layout = self.measure_layout_ir_plan(&entry.layout, key.width);
        let retained_bytes = layout.retained_bytes();
        entry.weight = entry.weight.saturating_add(retained_bytes);
        entry.measurements.push(CachedMeasurement { key, layout, retained_bytes, dirty: false });
        proof {
            assert(entry.measurements@.drop_last() =~= rest);
        }
    }
}

/// What `f` says that a layout weighs.
pub open spec fn bytes_of<L: Fn(&LayoutIr) -> usize>(f: L, layout: LayoutIr) -> usize {
    choose|bytes: usize| call_ensures(f, (&layout,), bytes)
}

/// `f` can be asked of any layout, and always says the same.
pub open spec fn pure_scale<L: Fn(&LayoutIr) -> usize>(f: L) -> bool {
    &&& forall|layout: &LayoutIr| #[trigger] call_requires(f, (layout,))
    &&& forall|layout: &LayoutIr, a: usize, b: usize|
        #[trigger] call_ensures(f, (layout,), a) && #[trigger] call_ensures(f, (layout,), b) ==> a
            == b
}

/// `after` is `before` with its highlights found under `theme_revision`.
pub open spec fn theme_ensured<'a, T, L: Fn(&LayoutIr) -> usize>(
    env: crate::compile::CompileEnv<'a>,
    layout_bytes: L,
    theme_revision: u64,
    before: CachedLayout<T>,
    after: CachedLayout<T>,
) -> bool {
    if before.syntax_theme_revision == theme_revision {
        after == before
    } else {
        &&& syntax_compiled(env, before.layout, after.layout)
        &&& after == (CachedLayout {
            layout: after.layout,
            syntax_theme_revision: theme_revision,
            weight: reweighed(
                before.weight,
                bytes_of(layout_bytes, before.layout),
                bytes_of(layout_bytes, after.layout),
            ),
            ..before
        })
    }
}

/// What is looked up to find the highlights of a cached layout under `theme_revision`.
pub open spec fn theme_lookups<T>(entry: CachedLayout<T>, theme_revision: u64) -> Seq<
    SyntaxLookup,
> {
    if entry.syntax_theme_revision == theme_revision {
        Seq::empty()
    } else {
        ir_lookups(entry.layout)
    }
}

impl<
    'a,
    F: Fn(&str, &str) -> Vec<InlineSyntaxSpan>,
    V: Fn(SourceViewRequest) -> u64,
> CompileSources<'a, F, V> {
    /// Sees to it that the highlights of `entry` are those of the theme.
    pub fn ensure_cached_syntax_theme<T, L: Fn(&LayoutIr) -> usize>(
        &self,
        entry: &mut CachedLayout<T>,
        layout_bytes: &L,
        inline_syntax: &mut InlineSyntaxCache,
    )
        requires
            self.wf(),
            self.admits(*old(inline_syntax)),
            pure_scale(*layout_bytes),
        ensures
            self.admits(*final(inline_syntax)),
            self.leaves(
                *old(inline_syntax),
                theme_lookups(*old(entry), self.theme_revision),
                *final(inline_syntax),
            ),
            theme_ensured(
                self.env(),
                *layout_bytes,
                self.theme_revision,
                *old(entry),
                *final(entry),
            ),
    {
        if entry.syntax_theme_revision == self.theme_revision {
            return ;
        }
        let old_bytes = layout_bytes(&entry.layout);
        self.compile_layout_syntax(&mut entry.layout, inline_syntax);
        let new_bytes = layout_bytes(&entry.layout);
        entry.syntax_theme_revision = self.theme_revision;
        entry.weight = entry.weight.saturating_sub(old_bytes).saturating_add(new_bytes);
    }
}

/// The place of the drawn range that a new one takes over, where the range itself was
/// drawn at `found`, if ever, and all ranges are in `ranges`.
pub open spec fn reused_range<T>(ranges: Seq<CachedRenderRange<T>>, found: Option<int>) -> Option<
    int,
> {
    match found {
        Some(pos) => Some(pos),
        None => match last_dirty(ranges, ranges.len() as int) {
            Some(pos) => Some(pos),
            None => if ranges.len() >= 2 {
                Some(0)
            } else {
                None
            },
        },
    }
}

/// `after` is `before` with its newest range that of `key` and up to date: a cached one,
/// or one that `draw` drew, over the buffer of a stale or the oldest one if there is one.
pub open spec fn range_ensured<
    T,
    W: FnOnce(&LayoutIr, &MeasuredLayout, Option<T>) -> (T, usize, usize),
>(draw: W, before: CachedLayout<T>, key: RenderRangeKey, after: CachedLayout<T>) -> bool {
    let old = before.rendered_ranges@;
    let new = after.rendered_ranges@;
    let found = range_position(old, key, 0);
    &&& after.same_but_ranges(before)
    &&& new.len() > 0
    &&& new.last().key == key
    &&& !new.last().dirty
    &&& if found is Some && !old[found->0].dirty {
        new == moved_to_back(old, found->0) && after.weight == before.weight
    } else {
        let reused = reused_range(old, found);
        let drawn = new.last();
        &&& new.drop_last() == match reused {
            Some(pos) => old.remove(pos),
            None => old,
        }
        &&& call_ensures(
            draw,
            (
                &before.layout,
                &before.measurements@.last().layout,
                match reused {
                    Some(pos) => Some(old[pos].buffer),
                    None => None,
                },
            ),
            (drawn.buffer, drawn.line_count, drawn.retained_bytes),
        )
        &&& after.weight == reweighed(
            before.weight,
            match reused {
                Some(pos) => old[pos].retained_bytes,
                None => 0,
            },
            drawn.retained_bytes,
        )
    }
}

impl<T> CachedLayout<T> {
    fn range_place(&self, key: RenderRangeKey) -> (position: Option<usize>)
        ensures
            match position {
                Some(pos) => pos < self.rendered_ranges@.len() && self.rendered_ranges@[pos as int].key
                    == key && range_position(self.rendered_ranges@, key, 0) == Some(pos as int),
                None => range_position(self.rendered_ranges@, key, 0) is None,
            },
    {
        let mut i: usize = 0;
        while i < self.rendered_ranges.len()
            invariant
                i <= self.rendered_ranges@.len(),
                range_position(self.rendered_ranges@, key, 0) == range_position(
                    self.rendered_ranges@,
                    key,
                    i as int,
                ),
            decreases self.rendered_ranges@.len() - i,
        {
            if self.rendered_ranges[i].key == key {
                return Some(i);
            }
            i += 1;
        }
        None
    }

    fn last_dirty_place(&self) -> (position: Option<usize>)
        ensures
            match position {
                Some(pos) => pos < self.rendered_ranges@.len() && last_dirty(
                    self.rendered_ranges@,
                    self.rendered_ranges@.len() as int,
                ) == Some(pos as int),
                None => last_dirty(
                    self.rendered_ranges@,
                    self.rendered_ranges@.len() as int,
                ) is None,
            },
    {
        let mut n: usize = self.rendered_ranges.len();
        while n > 0
            invariant
                n <= self.rendered_ranges@.len(),
                last_dirty(self.rendered_ranges@, self.rendered_ranges@.len() as int) == last_dirty(
                    self.rendered_ranges@,
                    n as int,
                ),
            decreases n,
        {
            if self.rendered_ranges[n - 1].dirty {
                return Some(n - 1);
            }
            n -= 1;
        }
        None
    }

    /// Sees to it that the newest range is that of `key` and up to date.
    pub fn ensure_rendered_range<
        W: FnOnce(&LayoutIr, &MeasuredLayout, Option<T>) -> (T, usize, usize),
    >(&mut self, key: RenderRangeKey, draw: W)
        requires
            old(self).wf(),
            old(self).measurements@.len() > 0,
            forall|l: &LayoutIr, m: &MeasuredLayout, t: Option<T>| #[trigger]
                call_requires(draw, (l, m, t)),
        ensures
            final(self).wf(),
            range_ensured(draw, *old(self), key, *final(self)),
    {
        let ghost old_ranges = self.rendered_ranges@;
        let found = self.range_place(key);
        if let Some(pos) = found {
            if !self.rendered_ranges[pos].dirty {
                let range = self.rendered_ranges.remove(pos);
                self.rendered_ranges.push(range);
                proof {
                    assert(self.rendered_ranges@ =~= moved_to_back(old_ranges, pos as int));
                }
                return ;
            }
        }
        let reused = match found {
            Some(pos) => Some(pos),
            None => match self.last_dirty_place() {
                Some(pos) => Some(pos),
                None => if self.rendered_ranges.len() >= 2 {
                    Some(0)
                } else {
                    None
                },
            },
        };
        let mut buffer: Option<T> = None;
        if let Some(pos) = reused {
            let range = self.rendered_ranges.remove(pos);
            self.weight = self.weight.saturating_sub(range.retained_bytes);
            buffer = Some(range.buffer);
        }
        let ghost kept = self.rendered_ranges@;
        let last = self.measurements.len() - 1;
        let (buffer, line_count, retained_bytes) = draw(
            &self.layout,
            &self.measurements[last].layout,
            buffer,
        );
        self.weight = self.weight.saturating_add(retained_bytes);
        self.rendered_ranges.push(
            CachedRenderRange { key, buffer, line_count, retained_bytes, dirty: false },
        );
        proof {
            assert(self.rendered_ranges@.drop_last() =~= kept);
        }
    }
}

} // verus!
