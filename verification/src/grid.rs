//! The integer bookkeeping of the ground-plane grid: which cells a ring of
//! the outward walk visits, and which items each cell holds.

use vstd::prelude::*;

use crate::order::strictly_ordered_lists_agree;

verus! {

/// Cap on a grid side, so a map with one enormous item cannot allocate a
/// pathological number of cells.
pub const MAX_DIM: usize = 1024;

/// The absolute value of `x`.
pub open spec fn abs(x: int) -> int {
    if x < 0 { -x } else { x }
}

/// Whether the cell `(ix, iy)` is at Chebyshev distance `r` from
/// `(cx, cy)`: `r` cells away along one axis and no further along the
/// other.
pub open spec fn in_ring(cx: int, cy: int, r: int, ix: int, iy: int) -> bool {
    (abs(ix - cx) == r && abs(iy - cy) <= r) || (abs(iy - cy) == r && abs(ix - cx) <= r)
}

/// Whether cell `a` comes before cell `b` row by row, each row left to
/// right.
pub open spec fn cell_before(a: (usize, usize), b: (usize, usize)) -> bool {
    a.1 < b.1 || (a.1 == b.1 && a.0 < b.0)
}

/// Whether `cells` is exactly the ring of radius `r` about `(cx, cy)`
/// within a grid of `cols` by `rows`, row by row, each row left to right.
pub open spec fn is_ring(cols: int, rows: int, cx: int, cy: int, r: int, cells: Seq<(usize, usize)>) -> bool {
    &&& forall|i: int| 0 <= i < cells.len() ==> {
        let (ix, iy) = #[trigger] cells[i];
        &&& (ix as int) < cols
        &&& (iy as int) < rows
        &&& in_ring(cx, cy, r, ix as int, iy as int)
    }
    &&& forall|ix: int, iy: int| 0 <= ix < cols && 0 <= iy < rows && in_ring(cx, cy, r, ix, iy)
        ==> #[trigger] cells.contains((ix as usize, iy as usize))
    &&& forall|i: int, j: int| 0 <= i < j < cells.len() ==> cell_before(#[trigger] cells[i], #[trigger] cells[j])
}

/// The in-bounds cells at Chebyshev distance `r` from `(cx, cy)`, row by
/// row from the lowest, each row left to right. The rows at the ring's top
/// and bottom give all their cells; the rows between give their two ends.
pub fn ring(cols: usize, rows: usize, cx: usize, cy: usize, r: usize) -> (cells: Vec<(usize, usize)>)
    requires
        cols <= MAX_DIM,
        rows <= MAX_DIM,
        cx <= MAX_DIM,
        cy <= MAX_DIM,
        r <= 2 * MAX_DIM,
    ensures
        is_ring(cols as int, rows as int, cx as int, cy as int, r as int, cells@),
{
    let (cols_i, rows_i, cx_i, cy_i, r_i) = (cols as i64, rows as i64, cx as i64, cy as i64, r as i64);
    let mut out: Vec<(usize, usize)> = Vec::new();
    let mut iy: i64 = if cy_i - r_i > 0 { cy_i - r_i } else { 0 };
    while iy <= cy_i + r_i && iy < rows_i
        invariant
            cols_i == cols, rows_i == rows, cx_i == cx, cy_i == cy, r_i == r,
            cols <= MAX_DIM, rows <= MAX_DIM, cx <= MAX_DIM, cy <= MAX_DIM, r <= 2 * MAX_DIM,
            0 <= iy,
            iy >= cy - r,
            iy <= cy + r + 1,
            forall|i: int| 0 <= i < out@.len() ==> {
                let (ix, y) = #[trigger] out@[i];
                &&& (ix as int) < cols
                &&& (y as int) < rows
                &&& (y as int) < iy
                &&& in_ring(cx as int, cy as int, r as int, ix as int, y as int)
            },
            forall|ix: int, y: int| 0 <= ix < cols && 0 <= y < rows && y < iy && in_ring(cx as int, cy as int, r as int, ix, y)
                ==> #[trigger] out@.contains((ix as usize, y as usize)),
            forall|i: int, j: int| 0 <= i < j < out@.len() ==> cell_before(#[trigger] out@[i], #[trigger] out@[j]),
        decreases cy + r + 1 - iy,
    {
        let edge = iy == cy_i - r_i || iy == cy_i + r_i;
        let ghost before = out@;
        let mut ix: i64 = if cx_i - r_i > 0 { cx_i - r_i } else { 0 };
        while ix <= cx_i + r_i && ix < cols_i
            invariant
                cols_i == cols, rows_i == rows, cx_i == cx, cy_i == cy, r_i == r,
                cols <= MAX_DIM, rows <= MAX_DIM, cx <= MAX_DIM, cy <= MAX_DIM, r <= 2 * MAX_DIM,
                0 <= iy < rows,
                cy - r <= iy <= cy + r,
                edge == (iy == cy - r || iy == cy + r),
                0 <= ix,
                ix >= cx - r,
                ix <= cx + r + 1,
                forall|i: int| 0 <= i < out@.len() ==> {
                    let (x, y) = #[trigger] out@[i];
                    &&& (x as int) < cols
                    &&& (y as int) < rows
                    &&& ((y as int) < iy || ((y as int) == iy && (x as int) < ix))
                    &&& in_ring(cx as int, cy as int, r as int, x as int, y as int)
                },
                forall|x: int, y: int| 0 <= x < cols && 0 <= y < rows && (y < iy || (y == iy && x < ix))
                    && in_ring(cx as int, cy as int, r as int, x, y)
                    ==> #[trigger] out@.contains((x as usize, y as usize)),
                forall|i: int, j: int| 0 <= i < j < out@.len() ==> cell_before(#[trigger] out@[i], #[trigger] out@[j]),
            decreases cx + r + 1 - ix,
        {
            let ghost old_out = out@;
            if edge || ix == cx_i - r_i || ix == cx_i + r_i {
                out.push((ix as usize, iy as usize));
                proof {
                    assert forall|x: int, y: int| 0 <= x < cols && 0 <= y < rows && (y < iy || (y == iy && x < ix + 1))
                        && in_ring(cx as int, cy as int, r as int, x, y)
                        implies #[trigger] out@.contains((x as usize, y as usize)) by {
                        if y < iy || x < ix {
                            assert(old_out.contains((x as usize, y as usize)));
                            let at = old_out.index_of((x as usize, y as usize));
                            assert(out@[at] == old_out[at]);
                        } else {
                            assert(out@[out@.len() - 1] == (x as usize, y as usize));
                        }
                    }
                }
            }
            if !edge && ix < cx_i + r_i {
                // Between its two ends, a row inside the ring has no cell
                // of it.
                ix = cx_i + r_i;
            } else {
                ix = ix + 1;
            }
        }
        iy = iy + 1;
    }
    out
}

/// A cell lies in the ring of radius `r` exactly when its Chebyshev
/// distance from the centre, the larger of its distances along the two
/// axes, is `r`.
pub proof fn a_ring_is_the_cells_at_one_chebyshev_distance(cx: int, cy: int, r: int, ix: int, iy: int)
    ensures
        in_ring(cx, cy, r, ix, iy) <==> r == (if abs(ix - cx) >= abs(iy - cy) { abs(ix - cx) } else { abs(iy - cy) }),
        abs(ix - cx) == (if ix >= cx { ix - cx } else { cx - ix }),
        abs(iy - cy) == (if iy >= cy { iy - cy } else { cy - iy }),
{
}

/// The outward walk misses nothing: from any cell of a grid no side of
/// which exceeds `bound`, every cell of it lies in the ring of exactly one
/// radius no greater than `bound`.
pub proof fn every_cell_lies_in_one_ring(bound: int, cx: int, cy: int, ix: int, iy: int)
    requires
        0 <= cx < bound,
        0 <= cy < bound,
        0 <= ix < bound,
        0 <= iy < bound,
    ensures
        exists|r: int| 0 <= r <= bound && #[trigger] in_ring(cx, cy, r, ix, iy),
        forall|r1: int, r2: int| in_ring(cx, cy, r1, ix, iy) && in_ring(cx, cy, r2, ix, iy) ==> r1 == r2,
{
    let d = if abs(ix - cx) >= abs(iy - cy) { abs(ix - cx) } else { abs(iy - cy) };
    assert(in_ring(cx, cy, d, ix, iy));
}

/// A ring's cells and their order are fully determined: two lists that
/// both give the ring of radius `r` about `(cx, cy)` are the same list.
pub proof fn a_ring_is_determined(
    cols: int,
    rows: int,
    cx: int,
    cy: int,
    r: int,
    a: Seq<(usize, usize)>,
    b: Seq<(usize, usize)>,
)
    requires
        is_ring(cols, rows, cx, cy, r, a),
        is_ring(cols, rows, cx, cy, r, b),
    ensures
        a == b,
{
    assert forall|c: (usize, usize)| #[trigger] a.contains(c) <==> b.contains(c) by {
        let (ix, iy) = (c.0 as int, c.1 as int);
        if a.contains(c) {
            let i = choose|i: int| 0 <= i < a.len() && a[i] == c;
            assert(in_ring(cx, cy, r, a[i].0 as int, a[i].1 as int));
            assert(b.contains((ix as usize, iy as usize)));
        }
        if b.contains(c) {
            let i = choose|i: int| 0 <= i < b.len() && b[i] == c;
            assert(in_ring(cx, cy, r, b[i].0 as int, b[i].1 as int));
            assert(a.contains((ix as usize, iy as usize)));
        }
    }
    let before = |p: (usize, usize), q: (usize, usize)| cell_before(p, q);
    assert forall|i: int, j: int| 0 <= i < j < a.len() implies before(#[trigger] a[i], #[trigger] a[j]) by {}
    assert forall|i: int, j: int| 0 <= i < j < b.len() implies before(#[trigger] b[i], #[trigger] b[j]) by {}
    strictly_ordered_lists_agree(a, b, before);
}

/// The outward walk may stop at the first ring that holds no cell: from a
/// cell of the grid, once a ring has outgrown the grid, every wider ring
/// has too.
pub proof fn an_empty_ring_has_only_empty_rings_beyond(
    cols: int,
    rows: int,
    cx: int,
    cy: int,
    r: int,
    wider: int,
    ring_cells: Seq<(usize, usize)>,
    wider_cells: Seq<(usize, usize)>,
)
    requires
        0 <= cx < cols,
        0 <= cy < rows,
        0 <= r <= wider,
        is_ring(cols, rows, cx, cy, r, ring_cells),
        is_ring(cols, rows, cx, cy, wider, wider_cells),
        ring_cells.len() == 0,
    ensures
        wider_cells.len() == 0,
{
    if wider_cells.len() > 0 {
        let (ix, iy) = wider_cells[0];
        let (ix, iy) = (ix as int, iy as int);
        // The cell `r` steps from the centre toward `(ix, iy)`, along the
        // axis on which that cell is furthest out.
        let (jx, jy) = if abs(ix - cx) == wider {
            (if ix >= cx { cx + r } else { cx - r }, cy)
        } else {
            (cx, if iy >= cy { cy + r } else { cy - r })
        };
        assert(in_ring(cx, cy, r, jx, jy));
        assert(ring_cells.contains((jx as usize, jy as usize)));
    }
}

/// Whether the cell box `b`, `(lo_x, hi_x, lo_y, hi_y)` inclusive, covers
/// the cell `(ix, iy)`.
pub open spec fn covers(b: (usize, usize, usize, usize), ix: int, iy: int) -> bool {
    b.0 <= ix <= b.1 && b.2 <= iy <= b.3
}

/// The items among the first `k` whose cell boxes cover `(ix, iy)`, in
/// item order.
pub open spec fn covering_upto(boxes: Seq<(usize, usize, usize, usize)>, ix: int, iy: int, k: int) -> Seq<u32>
    decreases k,
{
    if k <= 0 {
        Seq::empty()
    } else {
        let rest = covering_upto(boxes, ix, iy, k - 1);
        if covers(boxes[k - 1], ix, iy) {
            rest.push((k - 1) as u32)
        } else {
            rest
        }
    }
}

/// A cell lists exactly the items whose box covers it, each once and
/// lowest index first: nothing that could be nearest is missing from the
/// cells under it, and ties can go to the lowest index.
pub proof fn a_cell_lists_exactly_the_items_covering_it(
    boxes: Seq<(usize, usize, usize, usize)>,
    ix: int,
    iy: int,
    k: int,
)
    requires
        0 <= k <= boxes.len() <= u32::MAX,
    ensures
        forall|i: int| 0 <= i < k ==> (covering_upto(boxes, ix, iy, k).contains(i as u32)
            <==> (#[trigger] boxes[i]).0 <= ix <= boxes[i].1 && boxes[i].2 <= iy <= boxes[i].3),
        forall|a: int| 0 <= a < covering_upto(boxes, ix, iy, k).len() ==> (#[trigger] covering_upto(boxes, ix, iy, k)[a] as int) < k,
        forall|a: int, b: int| 0 <= a < b < covering_upto(boxes, ix, iy, k).len()
            ==> #[trigger] covering_upto(boxes, ix, iy, k)[a] < #[trigger] covering_upto(boxes, ix, iy, k)[b],
    decreases k,
{
    if k > 0 {
        a_cell_lists_exactly_the_items_covering_it(boxes, ix, iy, k - 1);
        let rest = covering_upto(boxes, ix, iy, k - 1);
        let all = covering_upto(boxes, ix, iy, k);
        if covers(boxes[k - 1], ix, iy) {
            assert(all == rest.push((k - 1) as u32));
            assert forall|i: int| 0 <= i < k implies (all.contains(i as u32) <==> covers(#[trigger] boxes[i], ix, iy)) by {
                if i < k - 1 {
                    if all.contains(i as u32) {
                        let j = choose|j: int| 0 <= j < all.len() && all[j] == i as u32;
                        if j < rest.len() {
                            assert(rest[j] == i as u32);
                        }
                    }
                    if rest.contains(i as u32) {
                        let j = choose|j: int| 0 <= j < rest.len() && rest[j] == i as u32;
                        assert(all[j] == i as u32);
                    }
                } else {
                    assert(all[rest.len() as int] == (k - 1) as u32);
                }
            }
        } else {
            assert(all == rest);
        }
    }
}

/// What cell `(ix, iy)` holds once item `i` has been bucketed into the
/// cells before `(x, y)`, row by row.
pub open spec fn partly_bucketed(boxes: Seq<(usize, usize, usize, usize)>, i: int, ix: int, iy: int, x: int, y: int) -> Seq<u32> {
    if covers(boxes[i], ix, iy) && (iy < y || (iy == y && ix < x)) {
        covering_upto(boxes, ix, iy, i + 1)
    } else {
        covering_upto(boxes, ix, iy, i)
    }
}

/// Bucket items into a grid of `rows` rows of `cols` cells. `boxes` gives,
/// for each item in order, the inclusive range of columns and of rows its
/// footprint spans, `(lo_x, hi_x, lo_y, hi_y)`. Each cell lists the items
/// whose box covers it, lowest index first, which is what lets the
/// nearest-item walk break ties to the lowest index.
pub fn bucket_items(cols: usize, rows: usize, boxes: &[(usize, usize, usize, usize)]) -> (cells: Vec<Vec<Vec<u32>>>)
    requires
        cols <= MAX_DIM,
        rows <= MAX_DIM,
        boxes@.len() <= u32::MAX,
        forall|i: int| 0 <= i < boxes@.len() ==> (#[trigger] boxes@[i]).1 < cols && boxes@[i].3 < rows,
    ensures
        cells@.len() == rows,
        forall|iy: int| 0 <= iy < rows ==> (#[trigger] cells@[iy])@.len() == cols,
        forall|ix: int, iy: int| 0 <= ix < cols && 0 <= iy < rows
            ==> (#[trigger] cells@[iy]@[ix])@ == covering_upto(boxes@, ix, iy, boxes@.len() as int),
{
    let mut cells: Vec<Vec<Vec<u32>>> = Vec::new();
    let mut y: usize = 0;
    while y < rows
        invariant
            y <= rows,
            cells@.len() == y,
            forall|iy: int| 0 <= iy < y ==> (#[trigger] cells@[iy])@.len() == cols,
            forall|ix: int, iy: int| 0 <= ix < cols && 0 <= iy < y ==> (#[trigger] cells@[iy]@[ix])@ == Seq::<u32>::empty(),
        decreases rows - y,
    {
        let mut row: Vec<Vec<u32>> = Vec::new();
        let mut x: usize = 0;
        while x < cols
            invariant
                x <= cols,
                row@.len() == x,
                forall|ix: int| 0 <= ix < x ==> (#[trigger] row@[ix])@ == Seq::<u32>::empty(),
            decreases cols - x,
        {
            row.push(Vec::new());
            x = x + 1;
        }
        cells.push(row);
        y = y + 1;
    }
    let mut i: usize = 0;
    while i < boxes.len()
        invariant
            i <= boxes@.len() <= u32::MAX,
            cols <= MAX_DIM,
            rows <= MAX_DIM,
            forall|k: int| 0 <= k < boxes@.len() ==> (#[trigger] boxes@[k]).1 < cols && boxes@[k].3 < rows,
            cells@.len() == rows,
            forall|iy: int| 0 <= iy < rows ==> (#[trigger] cells@[iy])@.len() == cols,
            forall|ix: int, iy: int| 0 <= ix < cols && 0 <= iy < rows
                ==> (#[trigger] cells@[iy]@[ix])@ == covering_upto(boxes@, ix, iy, i as int),
        decreases boxes.len() - i,
    {
        let (lo_x, hi_x, lo_y, hi_y) = boxes[i];
        let mut y: usize = lo_y;
        while y <= hi_y
            invariant
                i < boxes@.len() <= u32::MAX,
                boxes@[i as int] == (lo_x, hi_x, lo_y, hi_y),
                hi_x < cols,
                hi_y < rows,
                lo_y <= y,
                y <= hi_y + 1 || y == lo_y,
                cells@.len() == rows,
                forall|iy: int| 0 <= iy < rows ==> (#[trigger] cells@[iy])@.len() == cols,
                forall|ix: int, iy: int| 0 <= ix < cols && 0 <= iy < rows
                    ==> (#[trigger] cells@[iy]@[ix])@ == partly_bucketed(boxes@, i as int, ix, iy, 0, y as int),
            decreases hi_y + 1 - y,
        {
            let mut x: usize = lo_x;
            while x <= hi_x
                invariant
                    i < boxes@.len() <= u32::MAX,
                    boxes@[i as int] == (lo_x, hi_x, lo_y, hi_y),
                    hi_x < cols,
                    hi_y < rows,
                    lo_y <= y <= hi_y,
                    lo_x <= x,
                    x <= hi_x + 1 || x == lo_x,
                    cells@.len() == rows,
                    forall|iy: int| 0 <= iy < rows ==> (#[trigger] cells@[iy])@.len() == cols,
                    forall|ix: int, iy: int| 0 <= ix < cols && 0 <= iy < rows
                        ==> (#[trigger] cells@[iy]@[ix])@ == partly_bucketed(boxes@, i as int, ix, iy, x as int, y as int),
                decreases hi_x + 1 - x,
            {
                cells[y][x].push(i as u32);
                x = x + 1;
            }
            y = y + 1;
        }
        i = i + 1;
    }
    cells
}

} // verus!
