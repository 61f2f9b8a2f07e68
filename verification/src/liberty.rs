//! The liberty search: a depth-first walk over one group of stones that
//! stops at the first empty cell it finds beside the group.

use vstd::prelude::*;
use vstd::set_lib::lemma_int_range;
use vstd::set_lib::lemma_len_subset;
use vstd::set_lib::set_int_range;
use crate::text::rows_of;
use crate::group::{
    adjacent, grid_wf, group_has_liberty, in_grid, is_chain, is_stone, lemma_group_extends,
    lemma_group_reflexive, links, neighbor, same_group, touches_empty, Grid, EMPTY,
};

verus! {

/// The place of a cell in a row-by-row numbering of a grid `w` cells wide.
spec fn cell_index(r: int, c: int, w: int) -> int {
    r * w + c
}

/// The number of a cell of an `h` by `w` grid lies below `h * w`.
proof fn lemma_cell_index_range(r: int, c: int, h: int, w: int)
    requires
        0 <= r < h,
        0 <= c < w,
    ensures
        0 <= cell_index(r, c, w) < h * w,
        cell_index(r, c, w) == r * w + c,
{
    assert(0 <= r * w && r * w + w <= h * w) by (nonlinear_arith)
        requires
            0 <= r < h,
            0 < w,
    ;
}

/// Two cells with one number are one cell.
proof fn lemma_cell_index_injective(r1: int, c1: int, r2: int, c2: int, w: int)
    requires
        0 <= c1 < w,
        0 <= c2 < w,
        cell_index(r1, c1, w) == cell_index(r2, c2, w),
    ensures
        r1 == r2,
        c1 == c2,
{
    assert(r1 == r2) by (nonlinear_arith)
        requires
            0 <= c1 < w,
            0 <= c2 < w,
            r1 * w + c1 == r2 * w + c2,
    ;
}

/// One stone on the way from the start, and the next direction to look in:
/// 0 is left, 1 is top, 2 is right, 3 is bottom, 4 means all were seen.
struct Frame {
    row: usize,
    col: usize,
    dir: u8,
}

/// Direction `d` around `(r, c)` holds nothing more to find: the neighbour
/// there, if the grid has one, is not empty, and is already marked if it
/// holds `owner`.
spec fn looked(g: Grid, marked: Set<int>, w: int, owner: char, r: int, c: int, d: int) -> bool {
    let n = neighbor(r, c, d);
    in_grid(g, n.0, n.1) ==> g[n.0][n.1] != EMPTY && (g[n.0][n.1] == owner ==> marked.contains(
        cell_index(n.0, n.1, w),
    ))
}

/// All four directions around `(r, c)` were looked in.
spec fn done(g: Grid, marked: Set<int>, w: int, owner: char, r: int, c: int) -> bool {
    &&& looked(g, marked, w, owner, r, c, 0)
    &&& looked(g, marked, w, owner, r, c, 1)
    &&& looked(g, marked, w, owner, r, c, 2)
    &&& looked(g, marked, w, owner, r, c, 3)
}

/// A frame names a marked cell of the grid, and every direction before its
/// own was looked in.
spec fn frame_ok(g: Grid, marked: Set<int>, w: int, owner: char, f: Frame) -> bool {
    &&& in_grid(g, f.row as int, f.col as int)
    &&& marked.contains(cell_index(f.row as int, f.col as int, w))
    &&& f.dir <= 4
    &&& (f.dir > 0 ==> looked(g, marked, w, owner, f.row as int, f.col as int, 0))
    &&& (f.dir > 1 ==> looked(g, marked, w, owner, f.row as int, f.col as int, 1))
    &&& (f.dir > 2 ==> looked(g, marked, w, owner, f.row as int, f.col as int, 2))
    &&& (f.dir > 3 ==> looked(g, marked, w, owner, f.row as int, f.col as int, 3))
}

/// The directions that the frame on top of the stack has yet to look in.
spec fn left_on_top(stack: Seq<Frame>) -> int {
    if stack.len() > 0 {
        4 - stack[stack.len() - 1].dir
    } else {
        0
    }
}

/// Whether some frame of the stack names the cell `(r, c)`.
spec fn on_stack(stack: Seq<Frame>, r: int, c: int) -> bool {
    exists|i: int| 0 <= i < stack.len() && (#[trigger] stack[i]).row == r && stack[i].col == c
}

/// What the search knows at every step. The marked cells all belong to the
/// group of the start, and each of them either waits on the stack or has
/// nothing left to find around it.
#[verifier::opaque]
spec fn search_inv(
    g: Grid,
    h: int,
    w: int,
    r0: int,
    c0: int,
    marked: Set<int>,
    stack: Seq<Frame>,
) -> bool {
    let owner = g[r0][c0];
    &&& forall|i: int| marked.contains(i) ==> 0 <= i < h * w
    &&& marked.contains(cell_index(r0, c0, w))
    &&& forall|r: int, c: int|
        in_grid(g, r, c) && marked.contains(#[trigger] cell_index(r, c, w)) ==> g[r][c] == owner
            && same_group(g, r0, c0, r, c)
    &&& forall|i: int| 0 <= i < stack.len() ==> frame_ok(g, marked, w, owner, #[trigger] stack[i])
    &&& forall|r: int, c: int|
        in_grid(g, r, c) && marked.contains(#[trigger] cell_index(r, c, w)) ==> on_stack(
            stack,
            r,
            c,
        ) || done(g, marked, w, owner, r, c)
}

/// An adjacent cell is the neighbour in one of the four directions.
proof fn lemma_adjacent_direction(r: int, c: int, r2: int, c2: int) -> (d: int)
    requires
        adjacent(r, c, r2, c2),
    ensures
        0 <= d < 4,
        neighbor(r, c, d) == (r2, c2),
{
    if r == r2 && c == c2 + 1 {
        0
    } else if r == r2 + 1 && c == c2 {
        1
    } else if r == r2 && c + 1 == c2 {
        2
    } else {
        3
    }
}

/// Once the stack is empty, every cell on a chain from the start is marked.
proof fn lemma_chain_marked(
    g: Grid,
    h: int,
    w: int,
    r0: int,
    c0: int,
    marked: Set<int>,
    p: Seq<(int, int)>,
    i: int,
)
    requires
        search_inv(g, h, w, r0, c0, marked, Seq::<Frame>::empty()),
        in_grid(g, r0, c0),
        is_chain(g, p, g[r0][c0]),
        p[0] == (r0, c0),
        0 <= i < p.len(),
    ensures
        marked.contains(cell_index(p[i].0, p[i].1, w)),
    decreases i,
{
    reveal(search_inv);
    if i > 0 {
        lemma_chain_marked(g, h, w, r0, c0, marked, p, i - 1);
        let a = p[i - 1];
        let b = p[i];
        assert(in_grid(g, a.0, a.1));
        assert(in_grid(g, b.0, b.1));
        assert(adjacent(a.0, a.1, b.0, b.1));
        let d = lemma_adjacent_direction(a.0, a.1, b.0, b.1);
        assert(!on_stack(Seq::<Frame>::empty(), a.0, a.1));
        assert(done(g, marked, w, g[r0][c0], a.0, a.1));
        assert(looked(g, marked, w, g[r0][c0], a.0, a.1, d));
    }
}

/// Once the stack is empty, the group of the start has no liberty.
proof fn lemma_search_exhausted(g: Grid, h: int, w: int, r0: int, c0: int, marked: Set<int>)
    requires
        search_inv(g, h, w, r0, c0, marked, Seq::<Frame>::empty()),
        in_grid(g, r0, c0),
        is_stone(g[r0][c0]),
    ensures
        !group_has_liberty(g, r0, c0),
{
    reveal(search_inv);
    assert forall|r: int, c: int| #[trigger]
        same_group(g, r0, c0, r, c) implies !touches_empty(g, r, c) by {
        let p = choose|p: Seq<(int, int)>| #[trigger] links(g, p, r0, c0, r, c);
        lemma_chain_marked(g, h, w, r0, c0, marked, p, p.len() - 1);
        assert(in_grid(g, p[p.len() - 1].0, p[p.len() - 1].1));
        assert(!on_stack(Seq::<Frame>::empty(), r, c));
        assert(done(g, marked, w, g[r0][c0], r, c));
        assert forall|r2: int, c2: int|
            in_grid(g, r2, c2) && adjacent(r, c, r2, c2) implies #[trigger] g[r2][c2]
            != EMPTY by {
            let d = lemma_adjacent_direction(r, c, r2, c2);
            assert(looked(g, marked, w, g[r0][c0], r, c, d));
        }
    }
}

/// The frame `f` with its direction moved on by one.
spec fn advanced(f: Frame) -> Frame {
    Frame { row: f.row, col: f.col, dir: (f.dir + 1) as u8 }
}

/// A frame that has looked in all four directions leaves the stack.
proof fn lemma_step_pop(g: Grid, h: int, w: int, r0: int, c0: int, marked: Set<int>, stack: Seq<Frame>)
    requires
        search_inv(g, h, w, r0, c0, marked, stack),
        stack.len() > 0,
        stack[stack.len() - 1].dir == 4,
    ensures
        search_inv(g, h, w, r0, c0, marked, stack.drop_last()),
{
    reveal(search_inv);
    let owner = g[r0][c0];
    let rest = stack.drop_last();
    let top = stack[stack.len() - 1];
    assert forall|i: int| 0 <= i < rest.len() implies frame_ok(g, marked, w, owner, #[trigger] rest[i]) by {
        assert(rest[i] == stack[i]);
    }
    assert forall|r: int, c: int|
        in_grid(g, r, c) && marked.contains(#[trigger] cell_index(r, c, w)) implies on_stack(rest, r, c)
        || done(g, marked, w, owner, r, c) by {
        if on_stack(stack, r, c) {
            let i = choose|i: int| 0 <= i < stack.len() && (#[trigger] stack[i]).row == r && stack[i].col == c;
            if i < rest.len() {
                assert(rest[i] == stack[i]);
            } else {
                assert(frame_ok(g, marked, w, owner, top));
            }
        }
    }
}

/// The frame on top moves on to its next direction when the one it looked
/// in held nothing to find.
proof fn lemma_step_advance(g: Grid, h: int, w: int, r0: int, c0: int, marked: Set<int>, stack: Seq<Frame>)
    requires
        search_inv(g, h, w, r0, c0, marked, stack),
        stack.len() > 0,
        stack[stack.len() - 1].dir < 4,
        looked(
            g,
            marked,
            w,
            g[r0][c0],
            stack[stack.len() - 1].row as int,
            stack[stack.len() - 1].col as int,
            stack[stack.len() - 1].dir as int,
        ),
    ensures
        search_inv(g, h, w, r0, c0, marked, stack.drop_last().push(advanced(stack[stack.len() - 1]))),
{
    reveal(search_inv);
    let owner = g[r0][c0];
    let top = stack[stack.len() - 1];
    let next = stack.drop_last().push(advanced(top));
    assert(frame_ok(g, marked, w, owner, top));
    assert forall|i: int| 0 <= i < next.len() implies frame_ok(g, marked, w, owner, #[trigger] next[i]) by {
        if i < next.len() - 1 {
            assert(next[i] == stack[i]);
        }
    }
    assert forall|r: int, c: int|
        in_grid(g, r, c) && marked.contains(#[trigger] cell_index(r, c, w)) implies on_stack(next, r, c)
        || done(g, marked, w, owner, r, c) by {
        if on_stack(stack, r, c) {
            let i = choose|i: int| 0 <= i < stack.len() && (#[trigger] stack[i]).row == r && stack[i].col == c;
            if i < next.len() - 1 {
                assert(next[i] == stack[i]);
            } else {
                assert(next[i].row == r && next[i].col == c);
            }
        }
    }
}

/// The frame on top finds an unmarked stone of its group: the stone is
/// marked and a frame for it goes on the stack.
proof fn lemma_step_push(
    g: Grid,
    h: int,
    w: int,
    r0: int,
    c0: int,
    marked: Set<int>,
    stack: Seq<Frame>,
    nr: usize,
    nc: usize,
)
    requires
        grid_wf(g, h, w),
        in_grid(g, r0, c0),
        is_stone(g[r0][c0]),
        search_inv(g, h, w, r0, c0, marked, stack),
        stack.len() > 0,
        stack[stack.len() - 1].dir < 4,
        neighbor(
            stack[stack.len() - 1].row as int,
            stack[stack.len() - 1].col as int,
            stack[stack.len() - 1].dir as int,
        ) == (nr as int, nc as int),
        in_grid(g, nr as int, nc as int),
        g[nr as int][nc as int] == g[r0][c0],
        !marked.contains(cell_index(nr as int, nc as int, w)),
    ensures
        search_inv(
            g,
            h,
            w,
            r0,
            c0,
            marked.insert(cell_index(nr as int, nc as int, w)),
            stack.drop_last().push(advanced(stack[stack.len() - 1])).push(
                Frame { row: nr, col: nc, dir: 0 },
            ),
        ),
        marked.insert(cell_index(nr as int, nc as int, w)).subset_of(set_int_range(0, h * w)),
        cell_index(nr as int, nc as int, w) == nr * w + nc,
{
    reveal(search_inv);
    let owner = g[r0][c0];
    let top = stack[stack.len() - 1];
    let x = cell_index(nr as int, nc as int, w);
    let more = marked.insert(x);
    let fresh = Frame { row: nr, col: nc, dir: 0 };
    let next = stack.drop_last().push(advanced(top)).push(fresh);
    lemma_cell_index_range(nr as int, nc as int, h, w);
    assert(frame_ok(g, marked, w, owner, top));
    assert(same_group(g, r0, c0, top.row as int, top.col as int));
    assert(adjacent(top.row as int, top.col as int, nr as int, nc as int));
    lemma_group_extends(g, r0, c0, top.row as int, top.col as int, nr as int, nc as int);
    assert forall|r: int, c: int|
        in_grid(g, r, c) && more.contains(#[trigger] cell_index(r, c, w)) implies g[r][c] == owner
        && same_group(g, r0, c0, r, c) by {
        if cell_index(r, c, w) == x {
            lemma_cell_index_injective(r, c, nr as int, nc as int, w);
        }
    }
    assert forall|i: int| 0 <= i < next.len() implies frame_ok(g, more, w, owner, #[trigger] next[i]) by {
        if i < stack.len() - 1 {
            assert(next[i] == stack[i]);
            assert(frame_ok(g, marked, w, owner, stack[i]));
        } else if i == stack.len() - 1 {
            assert(next[i] == advanced(top));
            assert(looked(g, more, w, owner, top.row as int, top.col as int, top.dir as int));
        } else {
            assert(next[i] == fresh);
        }
    }
    assert forall|r: int, c: int|
        in_grid(g, r, c) && more.contains(#[trigger] cell_index(r, c, w)) implies on_stack(next, r, c)
        || done(g, more, w, owner, r, c) by {
        if cell_index(r, c, w) == x {
            lemma_cell_index_injective(r, c, nr as int, nc as int, w);
            assert(next[next.len() - 1] == fresh);
        } else if on_stack(stack, r, c) {
            let i = choose|i: int| 0 <= i < stack.len() && (#[trigger] stack[i]).row == r && stack[i].col == c;
            if i < stack.len() - 1 {
                assert(next[i] == stack[i]);
            } else {
                assert(next[i] == advanced(top));
            }
        } else {
            assert(done(g, marked, w, owner, r, c));
        }
    }
}

/// The search starts with the first stone marked and alone on the stack.
proof fn lemma_search_start(g: Grid, h: int, w: int, r0: usize, c0: usize)
    requires
        grid_wf(g, h, w),
        in_grid(g, r0 as int, c0 as int),
    ensures
        search_inv(
            g,
            h,
            w,
            r0 as int,
            c0 as int,
            Set::<int>::empty().insert(r0 * w + c0),
            Seq::<Frame>::empty().push(Frame { row: r0, col: c0, dir: 0 }),
        ),
        0 <= r0 * w + c0 < h * w,
{
    reveal(search_inv);
    let marked = Set::<int>::empty().insert(r0 * w + c0);
    let stack = Seq::<Frame>::empty().push(Frame { row: r0, col: c0, dir: 0 });
    lemma_cell_index_range(r0 as int, c0 as int, h, w);
    lemma_group_reflexive(g, r0 as int, c0 as int);
    assert forall|r: int, c: int|
        in_grid(g, r, c) && marked.contains(#[trigger] cell_index(r, c, w)) implies g[r][c]
        == g[r0 as int][c0 as int] && same_group(g, r0 as int, c0 as int, r, c) && on_stack(
        stack,
        r,
        c,
    ) by {
        lemma_cell_index_injective(r, c, r0 as int, c0 as int, w);
        assert(stack[0].row == r && stack[0].col == c);
    }
}

/// What the search knows of the frame on top of its stack.
proof fn lemma_top_frame(g: Grid, h: int, w: int, r0: int, c0: int, marked: Set<int>, stack: Seq<Frame>)
    requires
        search_inv(g, h, w, r0, c0, marked, stack),
        stack.len() > 0,
    ensures
        frame_ok(g, marked, w, g[r0][c0], stack[stack.len() - 1]),
        same_group(g, r0, c0, stack[stack.len() - 1].row as int, stack[stack.len() - 1].col as int),
{
    reveal(search_inv);
}

/// Whether `marks` can serve a search that marks with `stamp`: it has a
/// place for every cell of an `h` by `w` grid, and none holds `stamp` or
/// more.
pub open spec fn marks_below(marks: Seq<usize>, h: int, w: int, stamp: int) -> bool {
    &&& marks.len() == h * w
    &&& forall|i: int| 0 <= i < marks.len() ==> #[trigger] marks[i] < stamp
}

/// Marks for a grid of the given height and width, all of them zero.
pub(crate) fn fresh_marks(height: usize, width: usize) -> (marks: Vec<usize>)
    requires
        height <= 1000,
        width <= 1000,
    ensures
        marks_below(marks@, height as int, width as int, 1),
{
    assert(height * width <= 1_000_000) by (nonlinear_arith)
        requires
            height <= 1000,
            width <= 1000,
    ;
    let total: usize = height * width;
    let mut marks: Vec<usize> = Vec::new();
    let mut k: usize = 0;
    while k < total
        invariant
            k <= total,
            marks@.len() == k,
            forall|i: int| 0 <= i < k ==> #[trigger] marks@[i] == 0,
        decreases total - k,
    {
        marks.push(0);
        k += 1;
    }
    marks
}

/// Whether the group of the stone at row `r0`, column `c0` has a liberty.
///
/// The search walks the group depth first, looking left, top, right and
/// bottom of each stone in that order, and stops at the first empty cell.
/// It keeps its own stack and marks the stones it has seen with `stamp` in
/// `marks`, so the board is only read. The marks can serve a later search
/// with a greater stamp.
pub(crate) fn search_liberty(
    board: &Vec<Vec<char>>,
    height: usize,
    width: usize,
    r0: usize,
    c0: usize,
    marks: &mut Vec<usize>,
    stamp: usize,
) -> (found: bool)
    requires
        grid_wf(rows_of(*board), height as int, width as int),
        r0 < height,
        c0 < width,
        is_stone(rows_of(*board)[r0 as int][c0 as int]),
        marks_below(old(marks)@, height as int, width as int, stamp as int),
    ensures
        found == group_has_liberty(rows_of(*board), r0 as int, c0 as int),
        marks_below(final(marks)@, height as int, width as int, stamp + 1),
{
    let ghost g = rows_of(*board);
    let ghost h = height as int;
    let ghost w = width as int;
    let ghost total = h * w;
    assert(h * w <= 1_000_000) by (nonlinear_arith)
        requires
            0 <= h <= 1000,
            0 <= w <= 1000,
    ;
    assert(g[r0 as int] == board@[r0 as int]@);
    let owner: char = board[r0][c0];
    proof {
        lemma_search_start(g, h, w, r0, c0);
    }
    let start: usize = r0 * width + c0;
    marks.set(start, stamp);
    let ghost mut marked: Set<int> = Set::<int>::empty().insert(start as int);
    let mut stack: Vec<Frame> = Vec::new();
    stack.push(Frame { row: r0, col: c0, dir: 0 });
    assert(stack@ =~= Seq::<Frame>::empty().push(Frame { row: r0, col: c0, dir: 0 }));
    while stack.len() > 0
        invariant
            g == rows_of(*board),
            h == height,
            w == width,
            total == h * w,
            total <= 1_000_000,
            grid_wf(g, h, w),
            r0 < height,
            c0 < width,
            owner == g[r0 as int][c0 as int],
            is_stone(owner),
            marks_below(marks@, h, w, stamp + 1),
            marked.finite(),
            marked.len() <= total,
            forall|i: int| 0 <= i < total ==> (#[trigger] marks@[i] == stamp <==> marked.contains(i)),
            search_inv(g, h, w, r0 as int, c0 as int, marked, stack@),
        ensures
            stack@.len() == 0,
            marks_below(marks@, h, w, stamp + 1),
            search_inv(g, h, w, r0 as int, c0 as int, marked, stack@),
        decreases total - marked.len(), stack@.len(), left_on_top(stack@),
    {
        let ghost before = stack@;
        let top = stack.pop().unwrap();
        assert(top == before[before.len() - 1]);
        proof {
            lemma_top_frame(g, h, w, r0 as int, c0 as int, marked, before);
        }
        if top.dir >= 4 {
            proof {
                lemma_step_pop(g, h, w, r0 as int, c0 as int, marked, before);
            }
        } else {
            let d: u8 = top.dir;
            stack.push(Frame { row: top.row, col: top.col, dir: d + 1 });
            assert(stack@ == before.drop_last().push(advanced(top)));
            let has: bool = if d == 0 {
                top.col > 0
            } else if d == 1 {
                top.row > 0
            } else if d == 2 {
                top.col + 1 < width
            } else {
                top.row + 1 < height
            };
            let ghost n = neighbor(top.row as int, top.col as int, d as int);
            assert(has == in_grid(g, n.0, n.1));
            if has {
                let nr: usize = if d == 1 {
                    top.row - 1
                } else if d == 3 {
                    top.row + 1
                } else {
                    top.row
                };
                let nc: usize = if d == 0 {
                    top.col - 1
                } else if d == 2 {
                    top.col + 1
                } else {
                    top.col
                };
                assert(n == (nr as int, nc as int));
                assert(g[nr as int] == board@[nr as int]@);
                let here: char = board[nr][nc];
                if here == EMPTY {
                    proof {
                        assert(adjacent(top.row as int, top.col as int, nr as int, nc as int));
                        assert(touches_empty(g, top.row as int, top.col as int));
                    }
                    return true;
                }
                proof {
                    lemma_cell_index_range(nr as int, nc as int, h, w);
                }
                let at: usize = nr * width + nc;
                if here == owner && marks[at] != stamp {
                    proof {
                        lemma_step_push(g, h, w, r0 as int, c0 as int, marked, before, nr, nc);
                        lemma_int_range(0, total);
                        lemma_len_subset(marked.insert(at as int), set_int_range(0, total));
                        marked = marked.insert(at as int);
                    }
                    marks.set(at, stamp);
                    stack.push(Frame { row: nr, col: nc, dir: 0 });
                } else {
                    proof {
                        lemma_step_advance(g, h, w, r0 as int, c0 as int, marked, before);
                    }
                }
            } else {
                proof {
                    lemma_step_advance(g, h, w, r0 as int, c0 as int, marked, before);
                }
            }
        }
    }
    proof {
        assert(stack@ =~= Seq::<Frame>::empty());
        lemma_search_exhausted(g, h, w, r0 as int, c0 as int, marked);
    }
    false
}

} // verus!
