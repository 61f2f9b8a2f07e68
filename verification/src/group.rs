//! The mathematical model of a board: a grid of characters, the groups of
//! stones on it, and their liberties.

use vstd::prelude::*;
use crate::nogo::Player;

verus! {

/// A grid is a sequence of rows, each a sequence of cells.
pub type Grid = Seq<Seq<char>>;

/// The smallest accepted height or width.
pub const MIN_DIMENSION: usize = 4;

/// The largest accepted height or width.
pub const MAX_DIMENSION: usize = 1000;

/// The character of an empty cell.
pub const EMPTY: char = '.';

/// Whether `n` is an accepted height or width.
pub open spec fn valid_dimension(n: int) -> bool {
    MIN_DIMENSION <= n <= MAX_DIMENSION
}

/// Whether `c` marks a stone of either player.
pub open spec fn is_stone(c: char) -> bool {
    c == 'O' || c == 'X'
}

/// Whether `c` may stand in a cell: empty, or a stone.
pub open spec fn is_cell(c: char) -> bool {
    c == EMPTY || is_stone(c)
}

/// Whether row `r`, column `c` names a cell of `g`.
pub open spec fn in_grid(g: Grid, r: int, c: int) -> bool {
    0 <= r < g.len() && 0 <= c < g[r].len()
}

/// A grid as a board holds it: `h` rows of `w` cells each, both within the
/// accepted range, and nothing in a cell but a stone or the empty mark.
pub open spec fn grid_wf(g: Grid, h: int, w: int) -> bool {
    &&& valid_dimension(h)
    &&& valid_dimension(w)
    &&& g.len() == h
    &&& forall|r: int| 0 <= r < h ==> (#[trigger] g[r]).len() == w
    &&& forall|r: int, c: int| 0 <= r < h && 0 <= c < w ==> is_cell(#[trigger] g[r][c])
}

/// Whether `g` can be a board: its first row gives the width, every row has
/// that width, and height, width and cells are as a board needs them.
pub open spec fn is_board_grid(g: Grid) -> bool {
    g.len() > 0 && grid_wf(g, g.len() as int, g[0].len() as int)
}

/// The text of a grid: its rows from top to bottom, each followed by a line
/// feed.
pub open spec fn grid_text(g: Grid) -> Seq<char>
    decreases g.len(),
{
    if g.len() == 0 {
        Seq::empty()
    } else {
        grid_text(g.drop_last()) + g.last().push('\n')
    }
}

/// The upper or the lower border of a picture `w` cells wide: a corner,
/// `w` dashes, and the other corner.
pub open spec fn border(w: nat, left: char, right: char) -> Seq<char> {
    seq![left] + Seq::new(w, |i: int| '-') + seq![right, '\n']
}

/// The rows of a grid as a picture shows them: each between two bars and
/// followed by a line feed.
pub open spec fn framed_rows(g: Grid) -> Seq<char>
    decreases g.len(),
{
    if g.len() == 0 {
        Seq::empty()
    } else {
        framed_rows(g.drop_last()) + seq!['|'] + g.last() + seq!['|', '\n']
    }
}

/// The picture of a grid: its rows between borders. The borders are as
/// wide as the first row.
pub open spec fn grid_picture(g: Grid) -> Seq<char> {
    let w = if g.len() > 0 {
        g[0].len()
    } else {
        0
    };
    border(w, '/', '\\') + framed_rows(g) + border(w, '\\', '/')
}

/// The grid of `h` rows and `w` columns with every cell empty.
pub open spec fn empty_grid(h: int, w: int) -> Grid {
    Seq::new(h as nat, |r: int| Seq::new(w as nat, |c: int| EMPTY))
}

/// The grid `g` with the cell at row `r`, column `c` set to `v`.
pub open spec fn place(g: Grid, r: int, c: int, v: char) -> Grid {
    g.update(r, g[r].update(c, v))
}

/// Two cells are adjacent when they share an edge: left, top, right or
/// bottom. Diagonals do not count.
pub open spec fn adjacent(r1: int, c1: int, r2: int, c2: int) -> bool {
    ||| (r1 == r2 && c1 == c2 + 1)
    ||| (r1 == r2 + 1 && c1 == c2)
    ||| (r1 == r2 && c1 + 1 == c2)
    ||| (r1 + 1 == r2 && c1 == c2)
}

/// The neighbour of a cell in direction `d`: 0 is left, 1 is top, 2 is
/// right, 3 is bottom. This is the order in which a search looks around.
pub open spec fn neighbor(r: int, c: int, d: int) -> (int, int) {
    if d == 0 {
        (r, c - 1)
    } else if d == 1 {
        (r - 1, c)
    } else if d == 2 {
        (r, c + 1)
    } else {
        (r + 1, c)
    }
}

/// Whether the cell at row `r`, column `c` has an empty cell beside it.
pub open spec fn touches_empty(g: Grid, r: int, c: int) -> bool {
    exists|r2: int, c2: int|
        in_grid(g, r2, c2) && adjacent(r, c, r2, c2) && #[trigger] g[r2][c2] == EMPTY
}

/// A chain is a walk over the grid, from cell to adjacent cell, on which
/// every cell holds `owner`.
pub open spec fn is_chain(g: Grid, p: Seq<(int, int)>, owner: char) -> bool {
    &&& p.len() > 0
    &&& forall|i: int|
        0 <= i < p.len() ==> in_grid(g, (#[trigger] p[i]).0, p[i].1) && g[p[i].0][p[i].1] == owner
    &&& forall|i: int|
        0 <= i < p.len() - 1 ==> adjacent(
            (#[trigger] p[i]).0,
            p[i].1,
            p[i + 1].0,
            p[i + 1].1,
        )
}

/// Whether `p` is a chain of the stones that the cell `(r1, c1)` holds,
/// leading from `(r1, c1)` to `(r2, c2)`.
pub open spec fn links(g: Grid, p: Seq<(int, int)>, r1: int, c1: int, r2: int, c2: int) -> bool {
    &&& in_grid(g, r1, c1)
    &&& is_chain(g, p, g[r1][c1])
    &&& p[0] == (r1, c1)
    &&& p[p.len() - 1] == (r2, c2)
}

/// Two cells are in one group when a chain of same-owner stones joins them.
pub open spec fn same_group(g: Grid, r1: int, c1: int, r2: int, c2: int) -> bool {
    exists|p: Seq<(int, int)>| #[trigger] links(g, p, r1, c1, r2, c2)
}

/// The group of the stone at row `r`, column `c` has a liberty when some
/// member of the group has an empty cell beside it.
pub open spec fn group_has_liberty(g: Grid, r: int, c: int) -> bool {
    exists|r2: int, c2: int| #[trigger] same_group(g, r, c, r2, c2) && touches_empty(g, r2, c2)
}

/// Whether `(r1, c1)` comes before `(r2, c2)` when the cells are read row by
/// row, each row from left to right.
pub open spec fn scans_before(r1: int, c1: int, r2: int, c2: int) -> bool {
    r1 < r2 || (r1 == r2 && c1 < c2)
}

/// A stone whose group has no liberty: the player who owns it has lost.
pub open spec fn is_dead_stone(g: Grid, r: int, c: int) -> bool {
    in_grid(g, r, c) && is_stone(g[r][c]) && !group_has_liberty(g, r, c)
}

/// The first dead stone in reading order: where a game is found lost.
pub open spec fn is_first_dead_stone(g: Grid, r: int, c: int) -> bool {
    &&& is_dead_stone(g, r, c)
    &&& forall|r2: int, c2: int| scans_before(r2, c2, r, c) ==> !#[trigger] is_dead_stone(g, r2, c2)
}

/// A stone is in its own group.
pub proof fn lemma_group_reflexive(g: Grid, r: int, c: int)
    requires
        in_grid(g, r, c),
    ensures
        same_group(g, r, c, r, c),
{
    let p = seq![(r, c)];
    assert(links(g, p, r, c, r, c));
}

/// A group grows along an edge: a cell beside a member, holding the same
/// stone, is a member too.
pub proof fn lemma_group_extends(g: Grid, r0: int, c0: int, r1: int, c1: int, r2: int, c2: int)
    requires
        same_group(g, r0, c0, r1, c1),
        in_grid(g, r2, c2),
        adjacent(r1, c1, r2, c2),
        g[r2][c2] == g[r0][c0],
    ensures
        same_group(g, r0, c0, r2, c2),
{
    let p = choose|p: Seq<(int, int)>| #[trigger] links(g, p, r0, c0, r1, c1);
    let q = p.push((r2, c2));
    assert forall|i: int| 0 <= i < q.len() implies in_grid(g, (#[trigger] q[i]).0, q[i].1)
        && g[q[i].0][q[i].1] == g[r0][c0] by {
        if i < p.len() {
            assert(q[i] == p[i]);
        }
    }
    assert forall|i: int| 0 <= i < q.len() - 1 implies adjacent(
        (#[trigger] q[i]).0,
        q[i].1,
        q[i + 1].0,
        q[i + 1].1,
    ) by {
        if i < p.len() - 1 {
            assert(q[i] == p[i]);
            assert(q[i + 1] == p[i + 1]);
        } else {
            assert(q[i] == p[p.len() - 1]);
        }
    }
    assert(links(g, q, r0, c0, r2, c2));
}

/// Members of one group hold the same stone.
pub proof fn lemma_group_same_owner(g: Grid, r1: int, c1: int, r2: int, c2: int)
    requires
        same_group(g, r1, c1, r2, c2),
    ensures
        in_grid(g, r1, c1),
        in_grid(g, r2, c2),
        g[r1][c1] == g[r2][c2],
{
    let p = choose|p: Seq<(int, int)>| #[trigger] links(g, p, r1, c1, r2, c2);
    assert(p[p.len() - 1] == (r2, c2));
    assert(in_grid(g, p[p.len() - 1].0, p[p.len() - 1].1));
}

/// Being in one group goes both ways.
pub proof fn lemma_group_symmetric(g: Grid, r1: int, c1: int, r2: int, c2: int)
    requires
        same_group(g, r1, c1, r2, c2),
    ensures
        same_group(g, r2, c2, r1, c1),
{
    lemma_group_same_owner(g, r1, c1, r2, c2);
    let p = choose|p: Seq<(int, int)>| #[trigger] links(g, p, r1, c1, r2, c2);
    let n = p.len() as int;
    let q = Seq::new(p.len(), |i: int| p[n - 1 - i]);
    assert forall|i: int| 0 <= i < q.len() implies in_grid(g, (#[trigger] q[i]).0, q[i].1)
        && g[q[i].0][q[i].1] == g[r2][c2] by {
        assert(q[i] == p[n - 1 - i]);
    }
    assert forall|i: int| 0 <= i < q.len() - 1 implies adjacent(
        (#[trigger] q[i]).0,
        q[i].1,
        q[i + 1].0,
        q[i + 1].1,
    ) by {
        let j = n - 2 - i;
        assert(q[i] == p[j + 1]);
        assert(q[i + 1] == p[j]);
        assert(adjacent(p[j].0, p[j].1, p[j + 1].0, p[j + 1].1));
    }
    assert(links(g, q, r2, c2, r1, c1));
}

/// Being in one group carries over: two chains that meet make one.
pub proof fn lemma_group_transitive(g: Grid, r1: int, c1: int, r2: int, c2: int, r3: int, c3: int)
    requires
        same_group(g, r1, c1, r2, c2),
        same_group(g, r2, c2, r3, c3),
    ensures
        same_group(g, r1, c1, r3, c3),
{
    lemma_group_same_owner(g, r1, c1, r2, c2);
    let p = choose|p: Seq<(int, int)>| #[trigger] links(g, p, r1, c1, r2, c2);
    let q = choose|q: Seq<(int, int)>| #[trigger] links(g, q, r2, c2, r3, c3);
    let n = p.len() as int;
    let t = p + q.drop_first();
    assert forall|i: int| 0 <= i < t.len() implies in_grid(g, (#[trigger] t[i]).0, t[i].1)
        && g[t[i].0][t[i].1] == g[r1][c1] by {
        if i < n {
            assert(t[i] == p[i]);
        } else {
            assert(t[i] == q[i - n + 1]);
        }
    }
    assert forall|i: int| 0 <= i < t.len() - 1 implies adjacent(
        (#[trigger] t[i]).0,
        t[i].1,
        t[i + 1].0,
        t[i + 1].1,
    ) by {
        if i < n - 1 {
            assert(t[i] == p[i]);
            assert(t[i + 1] == p[i + 1]);
        } else if i == n - 1 {
            assert(t[i] == q[0]);
            assert(t[i + 1] == q[1]);
        } else {
            assert(t[i] == q[i - n + 1]);
            assert(t[i + 1] == q[i - n + 2]);
        }
    }
    if q.len() == 1 {
        assert(t =~= p);
    } else {
        assert(t[t.len() - 1] == q[q.len() - 1]);
    }
    assert(links(g, t, r1, c1, r3, c3));
}

/// A stone with an empty cell beside it has a liberty, whatever else
/// surrounds it.
pub proof fn lemma_stone_beside_empty(g: Grid, r: int, c: int)
    requires
        in_grid(g, r, c),
        touches_empty(g, r, c),
    ensures
        group_has_liberty(g, r, c),
{
    lemma_group_reflexive(g, r, c);
}

/// A lone stone has no liberty when each neighbour that the grid has is a
/// stone of the other player.
pub proof fn lemma_lone_stone_enclosed(g: Grid, r: int, c: int)
    requires
        in_grid(g, r, c),
        is_stone(g[r][c]),
        forall|r2: int, c2: int|
            in_grid(g, r2, c2) && adjacent(r, c, r2, c2) ==> is_stone(#[trigger] g[r2][c2])
                && g[r2][c2] != g[r][c],
    ensures
        !group_has_liberty(g, r, c),
{
    assert forall|r2: int, c2: int| #[trigger] same_group(g, r, c, r2, c2) implies !touches_empty(
        g,
        r2,
        c2,
    ) by {
        let p = choose|p: Seq<(int, int)>| #[trigger] links(g, p, r, c, r2, c2);
        if p.len() > 1 {
            assert(adjacent(p[0].0, p[0].1, p[1].0, p[1].1));
            assert(in_grid(g, p[1].0, p[1].1));
            assert(g[p[1].0][p[1].1] == g[r][c]);
            assert(false);
        }
        assert(r2 == r && c2 == c);
    }
}

/// Liberties are shared: two stones of one group have a liberty together
/// or not at all.
pub proof fn lemma_liberty_shared(g: Grid, r1: int, c1: int, r2: int, c2: int)
    requires
        same_group(g, r1, c1, r2, c2),
    ensures
        group_has_liberty(g, r1, c1) == group_has_liberty(g, r2, c2),
{
    lemma_group_symmetric(g, r1, c1, r2, c2);
    if group_has_liberty(g, r1, c1) {
        let (r3, c3) = choose|r3: int, c3: int| #[trigger]
            same_group(g, r1, c1, r3, c3) && touches_empty(g, r3, c3);
        lemma_group_transitive(g, r2, c2, r1, c1, r3, c3);
    }
    if group_has_liberty(g, r2, c2) {
        let (r3, c3) = choose|r3: int, c3: int| #[trigger]
            same_group(g, r2, c2, r3, c3) && touches_empty(g, r3, c3);
        lemma_group_transitive(g, r1, c1, r2, c2, r3, c3);
    }
}

/// If any member of a group has an empty cell beside it, every member of
/// the group has a liberty.
pub proof fn lemma_liberty_of_every_member(g: Grid, r1: int, c1: int, r2: int, c2: int)
    requires
        same_group(g, r1, c1, r2, c2),
        touches_empty(g, r1, c1),
    ensures
        group_has_liberty(g, r2, c2),
{
    lemma_group_same_owner(g, r1, c1, r2, c2);
    lemma_stone_beside_empty(g, r1, c1);
    lemma_liberty_shared(g, r1, c1, r2, c2);
}

/// When one group alone is without a liberty, the game is found lost at
/// the member of that group that comes first in reading order.
pub proof fn lemma_single_dead_group(g: Grid, r0: int, c0: int, r: int, c: int)
    requires
        is_dead_stone(g, r0, c0),
        forall|r2: int, c2: int| #[trigger]
            is_dead_stone(g, r2, c2) ==> same_group(g, r0, c0, r2, c2),
        is_first_dead_stone(g, r, c),
    ensures
        same_group(g, r0, c0, r, c),
        g[r][c] == g[r0][c0],
        forall|r2: int, c2: int| #[trigger]
            same_group(g, r0, c0, r2, c2) ==> !scans_before(r2, c2, r, c),
{
    assert(is_dead_stone(g, r, c));
    lemma_group_same_owner(g, r0, c0, r, c);
    assert forall|r2: int, c2: int| #[trigger] same_group(g, r0, c0, r2, c2) implies !scans_before(
        r2,
        c2,
        r,
        c,
    ) by {
        lemma_group_same_owner(g, r0, c0, r2, c2);
        lemma_liberty_shared(g, r0, c0, r2, c2);
        assert(is_dead_stone(g, r2, c2));
    }
}

/// A lost game is always found: where some stone is dead, one is the first.
pub proof fn lemma_dead_stone_found(g: Grid, h: int, w: int, r0: int, c0: int)
    requires
        grid_wf(g, h, w),
        is_dead_stone(g, r0, c0),
    ensures
        exists|r: int, c: int| #[trigger] is_first_dead_stone(g, r, c),
    decreases r0 * w + c0,
{
    if exists|r2: int, c2: int| scans_before(r2, c2, r0, c0) && #[trigger] is_dead_stone(g, r2, c2) {
        let (r2, c2) = choose|r2: int, c2: int|
            scans_before(r2, c2, r0, c0) && #[trigger] is_dead_stone(g, r2, c2);
        assert(0 <= r2 * w + c2 < r0 * w + c0) by (nonlinear_arith)
            requires
                0 <= r2,
                0 <= c2 < w,
                0 <= c0 < w,
                r2 < r0 || (r2 == r0 && c2 < c0),
        ;
        lemma_dead_stone_found(g, h, w, r2, c2);
    } else {
        assert(is_first_dead_stone(g, r0, c0));
    }
}

/// Only one stone can be the first dead stone of a grid.
pub proof fn lemma_first_dead_stone_unique(g: Grid, r1: int, c1: int, r2: int, c2: int)
    requires
        is_first_dead_stone(g, r1, c1),
        is_first_dead_stone(g, r2, c2),
    ensures
        r1 == r2,
        c1 == c2,
{
    if scans_before(r1, c1, r2, c2) {
        assert(!is_dead_stone(g, r1, c1));
    }
    if scans_before(r2, c2, r1, c1) {
        assert(!is_dead_stone(g, r2, c2));
    }
}

/// The player whose stone the character `c` is.
pub open spec fn owner_of(c: char) -> Player {
    if c == 'X' {
        Player::X
    } else {
        Player::O
    }
}

/// Whether a game on the grid `g` is lost: some stone on it is dead.
pub open spec fn is_lost(g: Grid) -> bool {
    exists|r: int, c: int| #[trigger] is_first_dead_stone(g, r, c)
}

/// The first dead stone of a lost game.
pub open spec fn first_dead_stone(g: Grid) -> (int, int) {
    choose|p: (int, int)| is_first_dead_stone(g, p.0, p.1)
}

/// The winner of a game on the grid `g`, if it is lost: the opponent of the
/// player who owns the first dead stone.
pub open spec fn winner_of(g: Grid) -> Option<Player> {
    if is_lost(g) {
        let p = first_dead_stone(g);
        Some(owner_of(g[p.0][p.1]).opponent())
    } else {
        None
    }
}

/// Where the first dead stone is found, the winner is the opponent of its
/// owner.
pub proof fn lemma_winner_at(g: Grid, r: int, c: int)
    requires
        is_first_dead_stone(g, r, c),
    ensures
        winner_of(g) == Some(owner_of(g[r][c]).opponent()),
{
    let p = first_dead_stone(g);
    assert(is_first_dead_stone(g, (r, c).0, (r, c).1));
    lemma_first_dead_stone_unique(g, r, c, p.0, p.1);
}

/// Where no stone is dead, nobody has won.
pub proof fn lemma_no_winner(g: Grid)
    requires
        forall|r: int, c: int| !#[trigger] is_dead_stone(g, r, c),
    ensures
        winner_of(g) is None,
{
    assert forall|r: int, c: int| !#[trigger] is_first_dead_stone(g, r, c) by {
        assert(!is_dead_stone(g, r, c));
    }
}

} // verus!
