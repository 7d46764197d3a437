//! Bytes that measured layouts and parsed texts keep.
use vstd::prelude::*;
use crate::markdown_flow::FlowState;
use crate::markdown_retained::{ByteRange, RetainedMarkdownLayout, RetainedParsedMarkdown};
use crate::parse_cache::{header_bytes, markdown_arc_retained_bytes};
use crate::plan::{MeasuredLayout, MeasuredLayoutKind};

verus! {

/// `n`, or the largest number that fits.
pub open spec fn capped(n: int) -> usize {
    if n > usize::MAX {
        usize::MAX
    } else {
        n as usize
    }
}

/// Bytes of the nodes of a measured layout.
pub open spec fn node_bytes(measured: MeasuredLayout) -> int
    decreases measured, 1nat,
{
    let own = vstd::layout::size_of::<MeasuredLayout>() as int;
    match measured.kind {
        MeasuredLayoutKind::Terminal => own,
        MeasuredLayoutKind::Child(child) => own + node_bytes(*child),
        MeasuredLayoutKind::Children(children) => own + node_bytes_of_all(children@),
        MeasuredLayoutKind::Hbox { children, .. } => own + node_bytes_of_all(children@),
    }
}

pub open spec fn node_bytes_of_all(children: Seq<MeasuredLayout>) -> int
    decreases children, 0nat,
{
    if children.len() == 0 {
        0
    } else {
        node_bytes_of_all(children.drop_last()) + node_bytes(children.last())
    }
}

/// How many column widths each row of columns in a measured layout has, a row in front of
/// those inside it.
pub open spec fn column_counts(measured: MeasuredLayout) -> Seq<nat>
    decreases measured, 1nat,
{
    match measured.kind {
        MeasuredLayoutKind::Terminal => Seq::empty(),
        MeasuredLayoutKind::Child(child) => column_counts(*child),
        MeasuredLayoutKind::Children(children) => column_counts_of_all(children@),
        MeasuredLayoutKind::Hbox { widths, children } => seq![widths@.len()]
            + column_counts_of_all(children@),
    }
}

pub open spec fn column_counts_of_all(children: Seq<MeasuredLayout>) -> Seq<nat>
    decreases children, 0nat,
{
    if children.len() == 0 {
        Seq::empty()
    } else {
        column_counts_of_all(children.drop_last()) + column_counts(children.last())
    }
}

/// Vectors with so many places can hold so many elements each.
pub open spec fn places_hold(places: Seq<usize>, counts: Seq<nat>) -> bool {
    &&& places.len() == counts.len()
    &&& forall|i: int| 0 <= i < counts.len() ==> #[trigger] places[i] >= counts[i]
}

/// The sum of some capacities.
pub open spec fn total_capacity(capacities: Seq<usize>) -> int
    decreases capacities.len(),
{
    if capacities.len() == 0 {
        0
    } else {
        total_capacity(capacities.drop_last()) + capacities.last()
    }
}

/// Bytes of a measured layout whose vectors of column widths have so many places.
pub open spec fn layout_bytes(measured: MeasuredLayout, width_places: Seq<usize>) -> int {
    node_bytes(measured) + total_capacity(width_places) * vstd::layout::size_of::<u16>()
}

/// A number of bytes that a measured layout can keep: that of its nodes and of some number
/// of places in each vector of column widths.
pub open spec fn can_keep(measured: MeasuredLayout, bytes: usize) -> bool {
    exists|places: Seq<usize>|
        #[trigger] places_hold(places, column_counts(measured)) && bytes == capped(
            layout_bytes(measured, places),
        )
}

/// `Vec::capacity`: at least as many places as there are elements; how many more is up
/// to the allocator.
#[verifier::external_body]
fn vec_capacity<T>(vec: &Vec<T>) -> (capacity: usize)
    ensures
        capacity >= vec@.len(),
{
    vec.capacity()
}

proof fn lemma_node_bytes(measured: MeasuredLayout)
    ensures
        node_bytes(measured) >= 0,
    decreases measured, 1nat,
{
    match measured.kind {
        MeasuredLayoutKind::Terminal => {},
        MeasuredLayoutKind::Child(child) => lemma_node_bytes(*child),
        MeasuredLayoutKind::Children(children) => lemma_node_bytes_of_all(children@),
        MeasuredLayoutKind::Hbox { children, .. } => lemma_node_bytes_of_all(children@),
    }
}

proof fn lemma_node_bytes_of_all(children: Seq<MeasuredLayout>)
    ensures
        node_bytes_of_all(children) >= 0,
    decreases children, 0nat,
{
    if children.len() > 0 {
        lemma_node_bytes_of_all(children.drop_last());
        lemma_node_bytes(children.last());
    }
}

/// Bytes of the nodes of some measured layouts.
fn sum_node_bytes(children: &Vec<MeasuredLayout>) -> (bytes: usize)
    ensures
        bytes == capped(node_bytes_of_all(children@)),
    decreases children@, 0nat,
{
    let mut sum: usize = 0;
    let mut i: usize = 0;
    proof {
        assert(node_bytes_of_all(children@.take(0)) == 0);
    }
    while i < children.len()
        invariant
            i <= children@.len(),
            sum == capped(node_bytes_of_all(children@.take(i as int))),
        decreases children@.len() - i,
    {
        proof {
            assert(decreases_to!(children@ => children@[i as int]));
            assert(children@.take(i + 1).drop_last() =~= children@.take(i as int));
            lemma_node_bytes_of_all(children@.take(i as int));
            lemma_node_bytes(children@[i as int]);
        }
        sum = sum.saturating_add(children[i].own_bytes());
        i += 1;
    }
    proof {
        assert(children@.take(i as int) =~= children@);
    }
    sum
}

/// Puts the places of the vectors of column widths in some measured layouts behind `places`.
fn push_all_width_places(children: &Vec<MeasuredLayout>, places: &mut Vec<usize>)
    ensures
        adds_places(old(places)@, final(places)@, column_counts_of_all(children@)),
    decreases children@, 0nat,
{
    let ghost before = places@;
    let mut i: usize = 0;
    proof {
        assert(column_counts_of_all(children@.take(0)) =~= Seq::<nat>::empty());
        assert(before.take(before.len() as int) =~= before);
    }
    while i < children.len()
        invariant
            i <= children@.len(),
            adds_places(before, places@, column_counts_of_all(children@.take(i as int))),
        decreases children@.len() - i,
    {
        let ghost now = places@;
        proof {
            assert(decreases_to!(children@ => children@[i as int]));
            assert(children@.take(i + 1).drop_last() =~= children@.take(i as int));
        }
        children[i].push_width_places(places);
        proof {
            lemma_adds_places(
                before,
                now,
                places@,
                column_counts_of_all(children@.take(i as int)),
                column_counts(children@[i as int]),
            );
        }
        i += 1;
    }
    proof {
        assert(children@.take(i as int) =~= children@);
    }
}

/// `after` is `before` and behind it places for so many elements each.
spec fn adds_places(before: Seq<usize>, after: Seq<usize>, counts: Seq<nat>) -> bool {
    &&& before.len() <= after.len()
    &&& after.take(before.len() as int) == before
    &&& places_hold(after.skip(before.len() as int), counts)
}

proof fn lemma_adds_places(
    a: Seq<usize>,
    b: Seq<usize>,
    c: Seq<usize>,
    counts: Seq<nat>,
    more: Seq<nat>,
)
    requires
        adds_places(a, b, counts),
        adds_places(b, c, more),
    ensures
        adds_places(a, c, counts + more),
{
    let n = a.len() as int;
    let m = b.len() as int;
    assert(c.take(n) =~= c.take(m).take(n));
    assert(c.skip(n) =~= b.skip(n) + c.skip(m)) by {
        assert forall|i: int| 0 <= i < m - n implies c.skip(n)[i] == b.skip(n)[i] by {
            assert(c.take(m)[n + i] == b[n + i]);
        }
    }
    assert forall|i: int| 0 <= i < (counts + more).len() implies #[trigger] c.skip(n)[i] >= (
    counts + more)[i] by {
        if i < counts.len() {
            assert(b.skip(n)[i] >= counts[i]);
        } else {
            assert(c.skip(m)[i - counts.len()] >= more[i - counts.len()]);
        }
    }
}

proof fn lemma_capacity_prefix(capacities: Seq<usize>, n: int)
    requires
        0 <= n <= capacities.len(),
    ensures
        0 <= total_capacity(capacities.take(n)) <= total_capacity(capacities),
    decreases capacities.len(),
{
    if n == capacities.len() {
        assert(capacities.take(n) =~= capacities);
        if n > 0 {
            lemma_capacity_prefix(capacities.drop_last(), n - 1);
        }
    } else {
        lemma_capacity_prefix(capacities.drop_last(), n);
        assert(capacities.drop_last().take(n) =~= capacities.take(n));
    }
}

/// Bytes of so many places of `size` bytes each.
fn bytes_of_places(places: usize, size: usize) -> (bytes: usize)
    ensures
        bytes == capped(places * size),
        places * size >= 0,
{
    proof {
        assert(places * size >= 0) by (nonlinear_arith)
            requires
                places >= 0,
                size >= 0,
        ;
    }
    match places.checked_mul(size) {
        Some(bytes) => bytes,
        None => usize::MAX,
    }
}

/// Bytes of vectors with so many places of `size` bytes each.
fn bytes_of_all_places(places: &Vec<usize>, size: usize) -> (bytes: usize)
    ensures
        bytes == capped(total_capacity(places@) * size),
        total_capacity(places@) * size >= 0,
{
    let mut sum: usize = 0;
    let mut i: usize = 0;
    proof {
        assert(total_capacity(places@.take(0)) == 0);
        assert(total_capacity(places@.take(0)) * size == 0) by (nonlinear_arith)
            requires
                total_capacity(places@.take(0)) == 0,
        ;
    }
    while i < places.len()
        invariant
            i <= places@.len(),
            sum == capped(total_capacity(places@.take(i as int)) * size),
            total_capacity(places@.take(i as int)) * size >= 0,
        decreases places@.len() - i,
    {
        let more = bytes_of_places(places[i], size);
        proof {
            assert(places@.take(i + 1).drop_last() =~= places@.take(i as int));
            let a = total_capacity(places@.take(i as int));
            let b = places@[i as int] as int;
            assert((a + b) * size == a * size + b * size) by (nonlinear_arith);
        }
        sum = sum.saturating_add(more);
        i += 1;
    }
    proof {
        assert(places@.take(i as int) =~= places@);
    }
    sum
}

/// Bytes of a measured layout whose vectors of column widths have so many places.
pub fn layout_bytes_at(measured: &MeasuredLayout, width_places: &Vec<usize>) -> (bytes: usize)
    ensures
        bytes == capped(layout_bytes(*measured, width_places@)),
{
    proof {
        lemma_node_bytes(*measured);
    }
    measured.own_bytes().saturating_add(
        bytes_of_all_places(width_places, core::mem::size_of::<u16>()),
    )
}

impl MeasuredLayout {
    /// Bytes of the nodes.
    fn own_bytes(&self) -> (bytes: usize)
        ensures
            bytes == capped(node_bytes(*self)),
        decreases self, 1nat,
    {
        let own = core::mem::size_of::<MeasuredLayout>();
        match &self.kind {
            MeasuredLayoutKind::Terminal => own,
            MeasuredLayoutKind::Child(child) => {
                proof {
                    lemma_node_bytes(**child);
                }
                own.saturating_add(child.own_bytes())
            },
            MeasuredLayoutKind::Children(children) => {
                proof {
                    lemma_node_bytes_of_all(children@);
                }
                own.saturating_add(sum_node_bytes(children))
            },
            MeasuredLayoutKind::Hbox { children, .. } => {
                proof {
                    lemma_node_bytes_of_all(children@);
                }
                own.saturating_add(sum_node_bytes(children))
            },
        }
    }

    /// Puts the places of the vectors of column widths behind `places`.
    fn push_width_places(&self, places: &mut Vec<usize>)
        ensures
            adds_places(old(places)@, final(places)@, column_counts(*self)),
        decreases self, 1nat,
    {
        let ghost before = places@;
        match &self.kind {
            MeasuredLayoutKind::Terminal => {
                proof {
                    assert(before.take(before.len() as int) =~= before);
                }
            },
            MeasuredLayoutKind::Child(child) => {
                child.push_width_places(places);
            },
            MeasuredLayoutKind::Children(children) => {
                push_all_width_places(children, places);
            },
            MeasuredLayoutKind::Hbox { widths, children } => {
                places.push(vec_capacity(widths));
                let ghost now = places@;
                proof {
                    assert(now.take(before.len() as int) =~= before);
                    assert(now.skip(before.len() as int) =~= seq![now.last()]);
                }
                push_all_width_places(children, places);
                proof {
                    lemma_adds_places(
                        before,
                        now,
                        places@,
                        seq![widths@.len()],
                        column_counts_of_all(children@),
                    );
                }
            },
        }
    }

    /// Bytes that the measured layout keeps. How many spare places its vectors of column
    /// widths have is up to the allocator.
    pub fn retained_bytes(&self) -> (bytes: usize)
        ensures
            can_keep(*self, bytes),
    {
        let mut places: Vec<usize> = Vec::new();
        self.push_width_places(&mut places);
        proof {
            assert(places@.skip(0) =~= places@);
            assert(places_hold(places@, column_counts(*self)));
        }
        layout_bytes_at(self, &places)
    }
}

/// How many states each measurement of a parsed text keeps.
pub open spec fn state_counts(layouts: Seq<RetainedMarkdownLayout>) -> Seq<nat> {
    layouts.map_values(|layout: RetainedMarkdownLayout| layout.completed_states@.len())
}

/// Bytes of a parsed text whose vectors have so many places: of finished texts, of
/// measurements, and of states in each measurement. Its nodes keep `nodes_bytes`.
pub open spec fn parsed_bytes_with(
    completed_places: usize,
    layout_places: usize,
    state_places: Seq<usize>,
    nodes_bytes: usize,
) -> int {
    completed_places * vstd::layout::size_of::<ByteRange>() + header_bytes() + nodes_bytes
        + layout_places * vstd::layout::size_of::<RetainedMarkdownLayout>() + total_capacity(
        state_places,
    ) * vstd::layout::size_of::<FlowState>()
}

/// Bytes of a parsed text whose vectors have so many places: of finished texts, of
/// measurements, and of states in each measurement. Its nodes keep `nodes_bytes`.
pub fn parsed_bytes_at(
    completed_places: usize,
    layout_places: usize,
    state_places: &Vec<usize>,
    nodes_bytes: usize,
) -> (bytes: usize)
    ensures
        bytes == capped(
            parsed_bytes_with(completed_places, layout_places, state_places@, nodes_bytes),
        ),
{
    let completed = bytes_of_places(completed_places, core::mem::size_of::<ByteRange>());
    let layouts = bytes_of_places(
        layout_places,
        core::mem::size_of::<RetainedMarkdownLayout>(),
    );
    let states = bytes_of_all_places(state_places, core::mem::size_of::<FlowState>());
    completed.saturating_add(markdown_arc_retained_bytes(nodes_bytes)).saturating_add(
        layouts,
    ).saturating_add(states)
}

impl RetainedParsedMarkdown {
    /// So many places can hold the finished texts, the measurements and the states.
    pub open spec fn places_hold_parts(
        &self,
        completed_places: usize,
        layout_places: usize,
        state_places: Seq<usize>,
    ) -> bool {
        &&& completed_places >= self.completed@.len()
        &&& layout_places >= self.layouts@.len()
        &&& places_hold(state_places, state_counts(self.layouts@))
    }

    /// Bytes that a parsed text keeps besides its own; its nodes keep `nodes_bytes`. How
    /// many spare places its vectors have is up to the allocator.
    pub fn dynamic_retained_bytes(&self, nodes_bytes: usize) -> (bytes: usize)
        ensures
            exists|completed_places: usize, layout_places: usize, state_places: Seq<usize>|
                #[trigger] self.places_hold_parts(completed_places, layout_places, state_places)
                    && bytes == capped(
                    parsed_bytes_with(completed_places, layout_places, state_places, nodes_bytes),
                ),
    {
        let mut states: Vec<usize> = Vec::new();
        let mut i: usize = 0;
        while i < self.layouts.len()
            invariant
                i <= self.layouts@.len(),
                states@.len() == i,
                forall|k: int|
                    0 <= k < i ==> #[trigger] states@[k] >= self.layouts@[k].completed_states@.len(),
            decreases self.layouts@.len() - i,
        {
            states.push(vec_capacity(&self.layouts[i].completed_states));
            i += 1;
        }
        let completed = vec_capacity(&self.completed);
        let layouts = vec_capacity(&self.layouts);
        proof {
            assert(self.places_hold_parts(completed, layouts, states@));
        }
        parsed_bytes_at(completed, layouts, &states, nodes_bytes)
    }
}

/// Sizes of the parts of drawn rows.
#[derive(Clone, Copy, Debug, PartialEq, Eq, Structural)]
pub struct BufferSizes {
    pub buffer: usize,
    pub line: usize,
    pub decoration: usize,
}

/// Bytes that drawn rows keep: the buffer, its lines, the texts of these, given by their
/// capacities, and the rows' decorations.
pub fn rendered_buffer_retained_bytes(
    sizes: BufferSizes,
    capacities: &Vec<usize>,
    line_count: usize,
) -> (bytes: usize)
    requires
        total_capacity(capacities@) <= usize::MAX,
    ensures
        bytes == capped(
            sizes.buffer + capped(capacities@.len() * sizes.line) + total_capacity(
                capacities@,
            ) + capped(line_count * sizes.decoration),
        ),
{
    let mut texts: usize = 0;
    let mut i: usize = 0;
    while i < capacities.len()
        invariant
            i <= capacities@.len(),
            texts == total_capacity(capacities@.take(i as int)),
            total_capacity(capacities@) <= usize::MAX,
        decreases capacities@.len() - i,
    {
        proof {
            lemma_capacity_prefix(capacities@, i + 1);
            assert(capacities@.take(i + 1).drop_last() =~= capacities@.take(i as int));
        }
        texts = texts + capacities[i];
        i = i + 1;
    }
    proof {
        assert(capacities@.take(i as int) =~= capacities@);
        lemma_capacity_prefix(capacities@, i as int);
    }
    let lines = match capacities.len().checked_mul(sizes.line) {
        Some(lines) => lines,
        None => usize::MAX,
    };
    let decorations = match line_count.checked_mul(sizes.decoration) {
        Some(decorations) => decorations,
        None => usize::MAX,
    };
    sizes.buffer.saturating_add(lines).saturating_add(texts).saturating_add(decorations)
}

} // verus!
