//! Which rows of a child a cap keeps, and where its marker stands.
use vstd::prelude::*;
use crate::ir::{CapKeep, CapMarker, CapSpec};

verus! {

/// What a cap marker says of the rows it stands for.
#[derive(Clone, Copy, Debug, PartialEq, Eq, Structural)]
pub enum CapDirection {
    Above,
    Below,
    Omitted,
}

/// One output row of a capped child.
#[derive(Clone, Copy, Debug, PartialEq, Eq, Structural)]
pub enum CapRow {
    Child(usize),
    Marker { skipped: usize, kept: usize, total: Option<u64>, direction: CapDirection },
}

#[derive(Clone, Copy, Debug)]
enum CapSegment {
    Children { start: usize, count: usize },
    Marker {
        skipped: usize,
        kept: usize,
        total: Option<u64>,
        direction: CapDirection,
        omitted: Option<(usize, usize)>,
    },
}

/// The output rows of a capped child, as runs of child rows and markers.
pub struct CapRows {
    segments: Vec<CapSegment>,
}

/// The rows `start .. start + count` of the child.
pub open spec fn child_run(start: int, count: int) -> Seq<CapRow> {
    Seq::new(count as nat, |i: int| CapRow::Child((start + i) as usize))
}

pub open spec fn marker_row(
    shown: bool,
    skipped: int,
    kept: int,
    total: Option<u64>,
    direction: CapDirection,
) -> Seq<CapRow> {
    if shown {
        seq![CapRow::Marker { skipped: skipped as usize, kept: kept as usize, total, direction }]
    } else {
        Seq::empty()
    }
}

/// The total that a tail cap's upper marker quotes: the known one, where it
/// exceeds what is shown.
pub open spec fn quoted_total(spec: CapSpec, kept: int) -> Option<u64> {
    match spec.total_rows {
        Some(total) if total > kept => Some(total),
        _ => None,
    }
}

/// Rows that a head-and-tail cap takes from the start of its child.
pub open spec fn head_share(spec: CapSpec, head: u16) -> int {
    if head < spec.rows { head as int } else { spec.rows as int }
}

/// Rows of a child of `n` rows under `spec`; `with_omitted` tells whether a
/// marker between head and tail is kept.
pub open spec fn capped(n: int, spec: CapSpec, with_omitted: bool) -> Seq<CapRow> {
    let cap = spec.rows as int;
    let truncated = n > cap;
    let kept = if truncated { cap } else { n };
    match spec.keep {
        CapKeep::Head { marker } => marker_row(
            truncated && marker == Some(CapMarker::Above),
            n - kept,
            kept,
            None,
            CapDirection::Above,
        ) + child_run(0, kept) + marker_row(
            truncated && marker == Some(CapMarker::Below),
            n - kept,
            kept,
            None,
            CapDirection::Below,
        ),
        CapKeep::Tail { marker } => marker_row(
            truncated && marker == Some(CapMarker::Above),
            n - kept,
            kept,
            quoted_total(spec, kept),
            CapDirection::Above,
        ) + child_run(n - kept, kept) + marker_row(
            truncated && marker == Some(CapMarker::Below),
            n - kept,
            kept,
            None,
            CapDirection::Below,
        ),
        CapKeep::HeadTail { head, marker } => if !truncated {
            child_run(0, n)
        } else {
            let h = head_share(spec, head);
            child_run(0, h) + marker_row(
                marker && with_omitted,
                n - cap,
                cap,
                None,
                CapDirection::Omitted,
            ) + child_run(n - (cap - h), cap - h)
        },
    }
}

/// The child rows that a head-and-tail marker stands for, where there is one.
pub open spec fn omitted_of(n: int, spec: CapSpec) -> Option<(usize, usize)> {
    match spec.keep {
        CapKeep::HeadTail { head, marker: true } if n > spec.rows => {
            let h = head_share(spec, head);
            Some((h as usize, (n - (spec.rows - h)) as usize))
        },
        _ => None,
    }
}

impl CapSegment {
    spec fn rows(self) -> Seq<CapRow> {
        match self {
            CapSegment::Children { start, count } => child_run(start as int, count as int),
            CapSegment::Marker { skipped, kept, total, direction, .. } => seq![
                CapRow::Marker { skipped, kept, total, direction },
            ],
        }
    }

    spec fn in_range(self) -> bool {
        self matches CapSegment::Children { start, count } ==> start + count <= usize::MAX
    }

    spec fn is_omitted(self) -> bool {
        self matches CapSegment::Marker { omitted: Some(_), .. }
    }
}

spec fn segment_rows(segments: Seq<CapSegment>) -> Seq<CapRow>
    decreases segments.len(),
{
    if segments.len() == 0 {
        Seq::empty()
    } else {
        segment_rows(segments.drop_last()) + segments.last().rows()
    }
}

spec fn segments_without_omitted(segments: Seq<CapSegment>) -> Seq<CapSegment>
    decreases segments.len(),
{
    if segments.len() == 0 {
        Seq::empty()
    } else {
        let rest = segments_without_omitted(segments.drop_last());
        if segments.last().is_omitted() {
            rest
        } else {
            rest.push(segments.last())
        }
    }
}

spec fn first_omitted(segments: Seq<CapSegment>) -> Option<(usize, usize)>
    decreases segments.len(),
{
    if segments.len() == 0 {
        None
    } else {
        match first_omitted(segments.drop_last()) {
            Some(range) => Some(range),
            None => match segments.last() {
                CapSegment::Marker { omitted, .. } => omitted,
                _ => None,
            },
        }
    }
}

proof fn lemma_segment_rows_step(segments: Seq<CapSegment>, i: int)
    requires
        0 <= i < segments.len(),
    ensures
        segment_rows(segments.take(i + 1)) == segment_rows(segments.take(i)) + segments[i].rows(),
        segments_without_omitted(segments.take(i + 1)) == (if segments[i].is_omitted() {
            segments_without_omitted(segments.take(i))
        } else {
            segments_without_omitted(segments.take(i)).push(segments[i])
        }),
{
    assert(segments.take(i + 1).drop_last() =~= segments.take(i));
}

proof fn lemma_segment_rows_prefix(segments: Seq<CapSegment>, i: int)
    requires
        0 <= i <= segments.len(),
    ensures
        segment_rows(segments.take(i)).len() <= segment_rows(segments).len(),
        segment_rows(segments.take(i)) == segment_rows(segments).take(
            segment_rows(segments.take(i)).len() as int,
        ),
    decreases segments.len() - i,
{
    if i == segments.len() {
        assert(segments.take(i) =~= segments);
        assert(segment_rows(segments).take(segment_rows(segments).len() as int) =~= segment_rows(
            segments,
        ));
    } else {
        lemma_segment_rows_prefix(segments, i + 1);
        lemma_segment_rows_step(segments, i);
        let short = segment_rows(segments.take(i));
        let long = segment_rows(segments.take(i + 1));
        assert(short =~= long.take(short.len() as int));
        assert(short =~= segment_rows(segments).take(short.len() as int));
    }
}

proof fn lemma_none_omitted(segments: Seq<CapSegment>)
    ensures
        ({
            let kept = segments_without_omitted(segments);
            segments_without_omitted(kept) == kept && first_omitted(kept) is None
        }),
    decreases segments.len(),
{
    if segments.len() > 0 {
        let rest = segments_without_omitted(segments.drop_last());
        lemma_none_omitted(segments.drop_last());
        assert(rest.push(segments.last()).drop_last() =~= rest);
    }
}

impl CapRows {
    /// The output rows, top to bottom.
    pub closed spec fn view(&self) -> Seq<CapRow> {
        segment_rows(self.segments@)
    }

    /// The output rows without a marker between head and tail.
    pub closed spec fn unmarked(&self) -> Seq<CapRow> {
        segment_rows(segments_without_omitted(self.segments@))
    }

    /// The child rows that the marker between head and tail stands for.
    pub closed spec fn omitted(&self) -> Option<(usize, usize)> {
        first_omitted(self.segments@)
    }

    /// Every run of child rows ends within the machine's row numbers.
    pub closed spec fn wf(&self) -> bool {
        forall|i: int|
            0 <= i < self.segments@.len() ==> (#[trigger] self.segments@[i]).in_range()
    }

    fn push(&mut self, segment: CapSegment)
        requires
            old(self).wf(),
            segment.in_range(),
        ensures
            final(self).wf(),
            final(self)@ == old(self)@ + segment.rows(),
            final(self).unmarked() == (if segment.is_omitted() {
                old(self).unmarked()
            } else {
                old(self).unmarked() + segment.rows()
            }),
            final(self).omitted() == (match old(self).omitted() {
                Some(range) => Some(range),
                None => match segment {
                    CapSegment::Marker { omitted, .. } => omitted,
                    _ => None,
                },
            }),
    {
        if let CapSegment::Children { count, .. } = segment {
            if count == 0 {
                assert(segment.rows() =~= Seq::<CapRow>::empty());
                assert(self@ + segment.rows() =~= self@);
                assert(self.unmarked() + segment.rows() =~= self.unmarked());
                return;
            }
        }
        let ghost before = self.segments@;
        self.segments.push(segment);
        proof {
            assert(self.segments@.drop_last() =~= before);
            let kept = segments_without_omitted(before);
            assert(kept.push(segment).drop_last() =~= kept);
        }
    }

    /// How many output rows there are.
    pub fn row_count(&self) -> (count: usize)
        ensures
            count == (if self@.len() > usize::MAX {
                usize::MAX as int
            } else {
                self@.len() as int
            }),
    {
        let mut rows: usize = 0;
        let mut i: usize = 0;
        while i < self.segments.len()
            invariant
                i <= self.segments.len(),
                rows == (if segment_rows(self.segments@.take(i as int)).len() > usize::MAX {
                    usize::MAX as int
                } else {
                    segment_rows(self.segments@.take(i as int)).len() as int
                }),
            decreases self.segments.len() - i,
        {
            proof {
                lemma_segment_rows_step(self.segments@, i as int);
            }
            let more = match self.segments[i] {
                CapSegment::Children { count, .. } => count,
                CapSegment::Marker { .. } => 1,
            };
            rows = rows.saturating_add(more);
            i += 1;
        }
        proof {
            assert(self.segments@.take(i as int) =~= self.segments@);
        }
        rows
    }

    /// The output row at `output_row`, `None` past the last one.
    pub fn row_at(&self, output_row: usize) -> (row: Option<CapRow>)
        requires
            self.wf(),
            self@.len() <= usize::MAX,
        ensures
            row == (if output_row < self@.len() {
                Some(self@[output_row as int])
            } else {
                None
            }),
    {
        let mut base: usize = 0;
        let mut i: usize = 0;
        proof {
            assert(self.segments@.take(0) =~= Seq::<CapSegment>::empty());
        }
        while i < self.segments.len()
            invariant
                i <= self.segments.len(),
                self.wf(),
                self@.len() <= usize::MAX,
                base == segment_rows(self.segments@.take(i as int)).len(),
                base <= output_row,
            decreases self.segments.len() - i,
        {
            proof {
                lemma_segment_rows_step(self.segments@, i as int);
                lemma_segment_rows_prefix(self.segments@, i as int);
                lemma_segment_rows_prefix(self.segments@, i + 1);
            }
            let ghost upto = segment_rows(self.segments@.take(i + 1));
            match self.segments[i] {
                CapSegment::Children { start, count } => {
                    let end = base.saturating_add(count);
                    if output_row < end {
                        proof {
                            assert(upto[output_row as int] == self@[output_row as int]);
                        }
                        return Some(
                            CapRow::Child(start.saturating_add(output_row.saturating_sub(base))),
                        );
                    }
                    base = end;
                },
                CapSegment::Marker { skipped, kept, total, direction, .. } => {
                    if output_row == base {
                        proof {
                            assert(upto[output_row as int] == self@[output_row as int]);
                        }
                        return Some(CapRow::Marker { skipped, kept, total, direction });
                    }
                    base = base.saturating_add(1);
                },
            }
            i += 1;
        }
        proof {
            assert(self.segments@.take(i as int) =~= self.segments@);
        }
        None
    }

    /// The child rows that the marker between head and tail stands for.
    pub fn omitted_range(&self) -> (range: Option<(usize, usize)>)
        ensures
            range == self.omitted(),
    {
        let mut i: usize = 0;
        let mut found: Option<(usize, usize)> = None;
        while i < self.segments.len()
            invariant
                i <= self.segments.len(),
                found == first_omitted(self.segments@.take(i as int)),
            decreases self.segments.len() - i,
        {
            proof {
                assert(self.segments@.take(i + 1).drop_last() =~= self.segments@.take(i as int));
            }
            if found.is_none() {
                if let CapSegment::Marker { omitted, .. } = self.segments[i] {
                    found = omitted;
                }
            }
            i += 1;
        }
        proof {
            assert(self.segments@.take(i as int) =~= self.segments@);
        }
        found
    }

    /// Drops the marker between head and tail.
    pub fn remove_omitted_marker(&mut self)
        requires
            old(self).wf(),
        ensures
            final(self).wf(),
            final(self)@ == old(self).unmarked(),
            final(self).unmarked() == final(self)@,
            final(self).omitted() is None,
    {
        let mut kept: Vec<CapSegment> = Vec::new();
        let mut i: usize = 0;
        let ghost before = *self;
        while i < self.segments.len()
            invariant
                i <= self.segments.len(),
                *self == before,
                before.wf(),
                forall|j: int| 0 <= j < kept@.len() ==> (#[trigger] kept@[j]).in_range(),
                kept@ == segments_without_omitted(self.segments@.take(i as int)),
            decreases self.segments.len() - i,
        {
            proof {
                lemma_segment_rows_step(self.segments@, i as int);
            }
            let segment = self.segments[i];
            match segment {
                CapSegment::Marker { omitted: Some(_), .. } => {},
                _ => kept.push(segment),
            }
            i += 1;
        }
        proof {
            assert(self.segments@.take(i as int) =~= self.segments@);
        }
        self.segments = kept;
        proof {
            lemma_none_omitted(before.segments@);
        }
    }
}

/// The rows that a cap shows of a child of `child_rows` rows.
pub fn cap_rows(child_rows: usize, spec: &CapSpec) -> (rows: CapRows)
    ensures
        rows.wf(),
        rows@ == capped(child_rows as int, *spec, true),
        rows.unmarked() == capped(child_rows as int, *spec, false),
        rows.omitted() == omitted_of(child_rows as int, *spec),
        rows@.len() <= spec.rows + 1,
        rows.unmarked().len() <= spec.rows + 1,
{
    let cap_rows = spec.rows as usize;
    let truncated = child_rows > cap_rows;
    let kept = if truncated { cap_rows } else { child_rows };
    let mut rows = CapRows { segments: Vec::new() };
    proof {
        assert(rows@ =~= Seq::<CapRow>::empty());
        assert(rows.unmarked() =~= Seq::<CapRow>::empty());
    }
    match spec.keep {
        CapKeep::Head { marker } => {
            if truncated && marker == Some(CapMarker::Above) {
                rows.push(
                    CapSegment::Marker {
                        skipped: child_rows - kept,
                        kept,
                        total: None,
                        direction: CapDirection::Above,
                        omitted: None,
                    },
                );
            }
            rows.push(CapSegment::Children { start: 0, count: kept });
            if truncated && marker == Some(CapMarker::Below) {
                rows.push(
                    CapSegment::Marker {
                        skipped: child_rows - kept,
                        kept,
                        total: None,
                        direction: CapDirection::Below,
                        omitted: None,
                    },
                );
            }
        },
        CapKeep::Tail { marker } => {
            if truncated && marker == Some(CapMarker::Above) {
                let total = match spec.total_rows {
                    Some(total) if total > kept as u64 => Some(total),
                    _ => None,
                };
                rows.push(
                    CapSegment::Marker {
                        skipped: child_rows - kept,
                        kept,
                        total,
                        direction: CapDirection::Above,
                        omitted: None,
                    },
                );
            }
            rows.push(CapSegment::Children { start: child_rows - kept, count: kept });
            if truncated && marker == Some(CapMarker::Below) {
                rows.push(
                    CapSegment::Marker {
                        skipped: child_rows - kept,
                        kept,
                        total: None,
                        direction: CapDirection::Below,
                        omitted: None,
                    },
                );
            }
        },
        CapKeep::HeadTail { head, marker } => {
            if !truncated {
                rows.push(CapSegment::Children { start: 0, count: child_rows });
            } else {
                let head_rows = if head < spec.rows { head as usize } else { cap_rows };
                let tail_rows = cap_rows - head_rows;
                rows.push(CapSegment::Children { start: 0, count: head_rows });
                if marker {
                    rows.push(
                        CapSegment::Marker {
                            skipped: child_rows - cap_rows,
                            kept: cap_rows,
                            total: None,
                            direction: CapDirection::Omitted,
                            omitted: Some((head_rows, child_rows - tail_rows)),
                        },
                    );
                }
                rows.push(CapSegment::Children { start: child_rows - tail_rows, count: tail_rows });
            }
        },
    }
    proof {
        assert(rows@ =~= capped(child_rows as int, *spec, true));
        assert(rows.unmarked() =~= capped(child_rows as int, *spec, false));
    }
    rows
}

/// A cap without its marker between head and tail shows the same rows but for that one; where
/// it has none, all the same rows.
pub proof fn marker_is_one_row(n: usize, spec: CapSpec)
    ensures
        match omitted_of(n as int, spec) {
            Some((start, end)) => {
                let marked = capped(n as int, spec, true);
                &&& start <= end <= n
                &&& start < marked.len()
                &&& marked[start as int] == (CapRow::Marker {
                    skipped: (end - start) as usize,
                    kept: spec.rows as usize,
                    total: None,
                    direction: CapDirection::Omitted,
                })
                &&& marked.remove(start as int) == capped(n as int, spec, false)
            },
            None => capped(n as int, spec, true) == capped(n as int, spec, false),
        },
{
    if let Some((start, end)) = omitted_of(n as int, spec) {
        assert(capped(n as int, spec, true).remove(start as int) =~= capped(
            n as int,
            spec,
            false,
        ));
    }
}

} // verus!
