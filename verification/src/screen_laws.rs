//! What cells a rectangle of the screen has, which window is found, and how keys tell renderers
//! apart.
use vstd::prelude::*;
use crate::keys::{mixed, turned};
use crate::screen::{named_from, rect_from, NamedWin, Rect, SplitRect};

verus! {

/// A rectangle has the cells from its upper left one on, as many rows and columns of them as it
/// says, and no others.
pub proof fn rectangle_has_its_cells(rect: Rect, row: int, col: int)
    ensures
        ({
            let last_row = rect.top + rect.height - 1;
            let last_col = rect.left + rect.width - 1;
            &&& rect.width > 0 && rect.height > 0 ==> rect.has(rect.top as int, rect.left as int)
                && rect.has(last_row, last_col)
            &&& rect.has(row, col) ==> rect.top <= row <= last_row && rect.left <= col <= last_col
            &&& !rect.has(rect.top - 1, col) && !rect.has(last_row + 1, col)
            &&& !rect.has(row, rect.left - 1) && !rect.has(row, last_col + 1)
            &&& rect.has(row, col) && row > rect.top ==> rect.has(row - 1, col)
            &&& rect.has(row, col) && row < last_row ==> rect.has(row + 1, col)
            &&& rect.has(row, col) && col > rect.left ==> rect.has(row, col - 1)
            &&& rect.has(row, col) && col < last_col ==> rect.has(row, col + 1)
        }),
{
}

/// The window that is found under a name is that of the first entry of this name, and none is
/// where there is no such entry.
pub proof fn first_window_of_a_name_is_found(named: Seq<NamedWin>, name: Seq<char>, i: int)
    requires
        0 <= i <= named.len(),
    ensures
        match named_from(named, name, i) {
            Some(win) => exists|k: int|
                i <= k < named.len() && (#[trigger] named[k]).name@ == name && named[k].win == win
                    && forall|j: int| i <= j < k ==> (#[trigger] named[j]).name@ != name,
            None => forall|k: int| i <= k < named.len() ==> (#[trigger] named[k]).name@ != name,
        },
    decreases named.len() - i,
{
    if i < named.len() {
        if named[i].name@ != name {
            first_window_of_a_name_is_found(named, name, i + 1);
            if let Some(win) = named_from(named, name, i + 1) {
                let k = choose|k: int|
                    i + 1 <= k < named.len() && (#[trigger] named[k]).name@ == name && named[k].win
                        == win && forall|j: int|
                        i + 1 <= j < k ==> (#[trigger] named[j]).name@ != name;
                assert(named[k].win == win);
            }
        }
    }
}

/// The cells that are found for a window are those of its first entry, and none are where it
/// has no entry.
pub proof fn first_cells_of_a_window_are_found(splits: Seq<SplitRect>, win: u64, i: int)
    requires
        0 <= i <= splits.len(),
    ensures
        match rect_from(splits, win, i) {
            Some(rect) => exists|k: int|
                i <= k < splits.len() && (#[trigger] splits[k]).win == win && splits[k].rect == rect
                    && forall|j: int| i <= j < k ==> (#[trigger] splits[j]).win != win,
            None => forall|k: int| i <= k < splits.len() ==> (#[trigger] splits[k]).win != win,
        },
    decreases splits.len() - i,
{
    if i < splits.len() {
        if splits[i].win != win {
            first_cells_of_a_window_are_found(splits, win, i + 1);
            if let Some(rect) = rect_from(splits, win, i + 1) {
                let k = choose|k: int|
                    i + 1 <= k < splits.len() && (#[trigger] splits[k]).win == win && splits[k].rect
                        == rect && forall|j: int|
                        i + 1 <= j < k ==> (#[trigger] splits[j]).win != win;
                assert(splits[k].rect == rect);
            }
        }
    }
}

/// Keys that differ in one of the hashes that are mixed into them differ.
pub proof fn keys_differ_where_one_hash_does(a: u64, b: u64, x: u64, y: u64)
    ensures
        mixed(Some(a), Some(x)) == mixed(Some(b), Some(x)) ==> a == b,
        mixed(Some(a), Some(x)) == mixed(Some(a), Some(y)) ==> x == y,
        mixed(None, Some(x)) == Some(x),
        mixed(Some(a), None) == Some(a),
        mixed(None, None) is None,
{
    let m = turned(x);
    let n = turned(y);
    assert(a ^ m == b ^ m ==> a == b) by (bit_vector);
    assert(a ^ m == a ^ n ==> m == n) by (bit_vector);
    assert((x << 17) | (x >> 47) == (y << 17) | (y >> 47) ==> x == y) by (bit_vector);
}

} // verus!
