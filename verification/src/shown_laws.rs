//! Rows that are shown from the cache are the rows that would be drawn anew.
use vstd::prelude::*;
use crate::cached_layout::{
    ensured_measurement_is_true, measured_truly, measurement_ensured, range_ensured, range_position,
    reused_range, theme_ensured, was_plan, CachedLayout, CachedRenderRange, MeasurementKey,
    RenderRangeKey,
};
use crate::compile::CompileEnv;
use crate::highlight_laws::{
    highlighting_changes_highlights_only, highlights_change_no_rows, overlooks_highlights,
};
use crate::host::Metrics;
use crate::ir::LayoutIr;
use crate::layout_cache::grown;
use crate::plan::{is_plan, same_but_contents, MeasuredLayout};

verus! {

/// Every range that is up to date and of the layout's theme shows what `fresh` says that a
/// fresh drawing shows. `picture` is what a buffer of so many lines shows.
pub open spec fn drawn_truly<T, P>(
    picture: spec_fn(T, usize) -> P,
    fresh: spec_fn(LayoutIr, RenderRangeKey) -> P,
    entry: CachedLayout<T>,
) -> bool {
    forall|i: int|
        0 <= i < entry.rendered_ranges@.len() ==> shows_truly(
            picture,
            fresh,
            entry.layout,
            entry.syntax_theme_revision,
            #[trigger] entry.rendered_ranges@[i],
        )
}

/// A range, if it is up to date and of this theme, shows what a fresh drawing shows.
pub open spec fn shows_truly<T, P>(
    picture: spec_fn(T, usize) -> P,
    fresh: spec_fn(LayoutIr, RenderRangeKey) -> P,
    layout: LayoutIr,
    theme_revision: u64,
    range: CachedRenderRange<T>,
) -> bool {
    !range.dirty && range.key.theme_revision == theme_revision ==> picture(
        range.buffer,
        range.line_count,
    ) == fresh(layout, range.key)
}

/// Nothing is drawn for a theme before the layout has its highlights. A theme's revision is
/// never used again.
pub open spec fn drawn_after_theme<T>(entry: CachedLayout<T>, theme_revision: u64) -> bool {
    entry.syntax_theme_revision != theme_revision ==> forall|i: int|
        0 <= i < entry.rendered_ranges@.len() ==> (
        #[trigger] entry.rendered_ranges@[i]).key.theme_revision != theme_revision
}

/// `draw` draws what `fresh` says from any measurement of the layout, whatever buffer it is
/// given to draw in.
pub open spec fn draws_afresh<
    T,
    P,
    W: FnOnce(&LayoutIr, &MeasuredLayout, Option<T>) -> (T, usize, usize),
>(
    draw: W,
    m: Metrics,
    picture: spec_fn(T, usize) -> P,
    fresh: spec_fn(LayoutIr, RenderRangeKey) -> P,
    key: RenderRangeKey,
) -> bool {
    forall|
        layout: LayoutIr,
        measured: MeasuredLayout,
        reused: Option<T>,
        buffer: T,
        line_count: usize,
        bytes: usize,
    |
        is_plan(m, layout, measured, key.width, 0) && #[trigger] call_ensures(
            draw,
            (&layout, &measured, reused),
            (buffer, line_count, bytes),
        ) ==> picture(buffer, line_count) == fresh(layout, key)
}

proof fn lemma_range_position<T>(
    ranges: Seq<CachedRenderRange<T>>,
    key: RenderRangeKey,
    i: int,
)
    requires
        0 <= i <= ranges.len(),
    ensures
        match range_position(ranges, key, i) {
            Some(pos) => i <= pos < ranges.len() && ranges[pos].key == key,
            None => true,
        },
    decreases ranges.len() - i,
{
    if i < ranges.len() && ranges[i].key != key {
        lemma_range_position(ranges, key, i + 1);
    }
}

proof fn lemma_last_dirty<T>(ranges: Seq<CachedRenderRange<T>>, n: int)
    requires
        0 <= n <= ranges.len(),
    ensures
        match crate::cached_layout::last_dirty(ranges, n) {
            Some(pos) => 0 <= pos < n,
            None => true,
        },
    decreases n,
{
    if n > 0 && !ranges[n - 1].dirty {
        lemma_last_dirty(ranges, n - 1);
    }
}

/// What is shown of a node is what drawing it anew would show, though it may have been drawn
/// earlier: the cache brings the highlights, the measurement and the rows up to date in this
/// order, each only where it has to, and leaves itself as it was found. Highlights count for
/// nothing in measuring.
pub proof fn shown_rows_are_fresh<
    'a,
    T,
    P,
    L: Fn(&LayoutIr) -> usize,
    W: FnOnce(&LayoutIr, &MeasuredLayout, Option<T>) -> (T, usize, usize),
>(
    m: Metrics,
    env: CompileEnv<'a>,
    layout_bytes: L,
    draw: W,
    picture: spec_fn(T, usize) -> P,
    fresh: spec_fn(LayoutIr, RenderRangeKey) -> P,
    options: u64,
    key: RenderRangeKey,
    before: CachedLayout<T>,
    themed: CachedLayout<T>,
    measured: CachedLayout<T>,
    after: CachedLayout<T>,
)
    requires
        measured_truly(m, options, before),
        drawn_truly(picture, fresh, before),
        drawn_after_theme(before, key.theme_revision),
        theme_ensured(env, layout_bytes, key.theme_revision, before, themed),
        overlooks_highlights(m),
        measurement_ensured(
            m,
            themed,
            MeasurementKey { width: key.width, inline_options: options },
            measured,
        ),
        draws_afresh(draw, m, picture, fresh, key),
        range_ensured(draw, measured, key, after),
    ensures
        ({
            let shown = after.rendered_ranges@.last();
            picture(shown.buffer, shown.line_count) == fresh(after.layout, key)
        }),
        after.syntax_theme_revision == key.theme_revision,
        measured_truly(m, options, after),
        drawn_truly(picture, fresh, after),
{
    if before.syntax_theme_revision != key.theme_revision {
        highlighting_changes_highlights_only(env, before.layout, themed.layout);
    }
    assert forall|i: int|
        0 <= i < themed.measurements@.len() && (
        #[trigger] themed.measurements@[i]).key.inline_options == options implies {
        let found = themed.measurements@[i];
        if found.dirty {
            was_plan(m, themed.layout, found)
        } else {
            is_plan(m, themed.layout, found.layout, found.key.width, 0)
        }
    } by {
        let found = before.measurements@[i];
        assert(themed.measurements@[i] == found);
        if found.dirty {
            let earlier = choose|earlier: Metrics|
                same_but_contents(earlier, m) && overlooks_highlights(earlier)
                    && #[trigger] is_plan(
                    earlier,
                    before.layout,
                    found.layout,
                    found.key.width,
                    0,
                );
            if before.syntax_theme_revision != key.theme_revision {
                highlights_change_no_rows(
                    earlier,
                    before.layout,
                    themed.layout,
                    found.layout,
                    found.key.width,
                    0,
                );
            }
            assert(is_plan(earlier, themed.layout, found.layout, found.key.width, 0));
        } else if before.syntax_theme_revision != key.theme_revision {
            highlights_change_no_rows(
                m,
                before.layout,
                themed.layout,
                found.layout,
                found.key.width,
                0,
            );
        }
    }
    let at = MeasurementKey { width: key.width, inline_options: options };
    ensured_measurement_is_true(m, themed, at, measured);
    let old = measured.rendered_ranges@;
    let new = after.rendered_ranges@;
    assert forall|i: int| 0 <= i < old.len() implies shows_truly(
        picture,
        fresh,
        measured.layout,
        measured.syntax_theme_revision,
        #[trigger] old[i],
    ) by {
        assert(old[i] == before.rendered_ranges@[i]);
    }
    let found = range_position(old, key, 0);
    lemma_range_position(old, key, 0);
    if found is Some && !old[found->0].dirty {
        let pos = found->0;
        assert(new.last() == old[pos]);
        assert forall|i: int| 0 <= i < new.len() implies shows_truly(
            picture,
            fresh,
            after.layout,
            after.syntax_theme_revision,
            #[trigger] new[i],
        ) by {
            assert(new[i] == old[if i == old.len() - 1 {
                pos
            } else if i < pos {
                i
            } else {
                i + 1
            }]);
        }
    } else {
        let reused = reused_range(old, found);
        lemma_last_dirty(old, old.len() as int);
        let rest = new.drop_last();
        assert forall|i: int| 0 <= i < new.len() implies shows_truly(
            picture,
            fresh,
            after.layout,
            after.syntax_theme_revision,
            #[trigger] new[i],
        ) by {
            if i < rest.len() {
                assert(rest[i] == new[i]);
                match reused {
                    Some(pos) => {
                        assert(rest[i] == old[if i < pos {
                            i
                        } else {
                            i + 1
                        }]);
                    },
                    None => {
                        assert(rest[i] == old[i]);
                    },
                }
            } else {
                assert(new[i] == new.last());
            }
        }
    }
}

/// Once a content has grown, nothing that was drawn before counts as up to date, and what was
/// measured before is what measuring gave then.
pub proof fn growth_makes_the_cache_stale<T, P>(
    earlier: Metrics,
    m: Metrics,
    picture: spec_fn(T, usize) -> P,
    fresh: spec_fn(LayoutIr, RenderRangeKey) -> P,
    options: u64,
    before: CachedLayout<T>,
    after: CachedLayout<T>,
)
    requires
        same_but_contents(earlier, m),
        overlooks_highlights(earlier),
        measured_truly(earlier, options, before),
        grown(before, after),
    ensures
        measured_truly(m, options, after),
        drawn_truly(picture, fresh, after),
{
    assert forall|i: int|
        0 <= i < after.measurements@.len() && (
        #[trigger] after.measurements@[i]).key.inline_options == options implies {
        let found = after.measurements@[i];
        found.dirty && was_plan(m, after.layout, found)
    } by {
        let found = before.measurements@[i];
        if found.dirty {
            let first = choose|first: Metrics|
                same_but_contents(first, earlier) && overlooks_highlights(first)
                    && #[trigger] is_plan(
                    first,
                    before.layout,
                    found.layout,
                    found.key.width,
                    0,
                );
            assert(same_but_contents(first, m));
            assert(is_plan(
                first,
                after.layout,
                after.measurements@[i].layout,
                after.measurements@[i].key.width,
                0,
            ));
        } else {
            assert(is_plan(
                earlier,
                after.layout,
                after.measurements@[i].layout,
                after.measurements@[i].key.width,
                0,
            ));
        }
    }
}

} // verus!
