//! The movement rule: sliding the snake one command in a cardinal direction.
//!
//! The snake slides continuously in the chosen direction, consuming one
//! cherry per cell, until the next cell is off-grid, a rock, or its own
//! body.  A command issued against an immediate obstacle returns the board
//! unchanged.

use vstd::prelude::*;
use crate::board::{
    Board, Tile, in_bounds, head_at, has_head, at_most_one_head, snake_placed, cherries,
    total_cells, grid_wf, lemma_row_cherries_update, lemma_cherries_update,
    lemma_total_cells_update,
};

verus! {

/// A cardinal direction the snake can be told to slide in.
#[derive(Clone, Copy, Debug, PartialEq, Eq, Structural)]
pub enum Dir {
    Up,
    Down,
    Right,
    Left,
}

/// The column one cell along `d` from column `x`.
pub open spec fn next_x(x: int, d: Dir) -> int {
    match d {
        Dir::Right => x + 1,
        Dir::Left => x - 1,
        _ => x,
    }
}

/// The row one cell along `d` from row `y`.
pub open spec fn next_y(y: int, d: Dir) -> int {
    match d {
        Dir::Down => y + 1,
        Dir::Up => y - 1,
        _ => y,
    }
}

/// Whether a head at `(x, y)` can advance one cell along `d`: the next cell
/// is on the grid and holds a cherry.
pub open spec fn can_step(g: Seq<Seq<Tile>>, x: int, y: int, d: Dir) -> bool {
    in_bounds(g, next_x(x, d), next_y(y, d)) && g[next_y(y, d)][next_x(x, d)] == Tile::Cherry
}

/// One cell of sliding: the head cell becomes body, the next cell becomes
/// the head.
pub open spec fn step(g: Seq<Seq<Tile>>, x: int, y: int, d: Dir) -> Seq<Seq<Tile>> {
    let g1 = g.update(y, g[y].update(x, Tile::SnakeBody));
    g1.update(next_y(y, d), g1[next_y(y, d)].update(next_x(x, d), Tile::SnakeHead))
}

/// The board after sliding a head at `(x, y)` along `d` until blocked.
/// Each step consumes a cherry, so the chain terminates.
pub open spec fn slide_from(g: Seq<Seq<Tile>>, x: int, y: int, d: Dir) -> Seq<Seq<Tile>>
    decreases cherries(g),
    via slide_from_decreases
{
    if head_at(g, x, y) && can_step(g, x, y, d) {
        slide_from(step(g, x, y, d), next_x(x, d), next_y(y, d), d)
    } else {
        g
    }
}

#[via_fn]
proof fn slide_from_decreases(g: Seq<Seq<Tile>>, x: int, y: int, d: Dir) {
    if head_at(g, x, y) && can_step(g, x, y, d) {
        lemma_step_cherries(g, x, y, d);
    }
}

/// The board after one directional command: the snake slides from its head
/// until blocked.  A board without a head is returned unchanged.
pub open spec fn slide(g: Seq<Seq<Tile>>, d: Dir) -> Seq<Seq<Tile>> {
    if has_head(g) {
        let (hx, hy) = choose|hx: int, hy: int| head_at(g, hx, hy);
        slide_from(g, hx, hy, d)
    } else {
        g
    }
}

/// `(x2, y2)` lies strictly along `d` from `(x, y)` on the same axis.
pub open spec fn dir_consistent(x: int, y: int, x2: int, y2: int, d: Dir) -> bool {
    match d {
        Dir::Up => x2 == x && y2 < y,
        Dir::Down => x2 == x && y2 > y,
        Dir::Left => y2 == y && x2 < x,
        Dir::Right => y2 == y && x2 > x,
    }
}

proof fn lemma_step_cherries(g: Seq<Seq<Tile>>, x: int, y: int, d: Dir)
    requires
        head_at(g, x, y),
        can_step(g, x, y, d),
    ensures
        cherries(step(g, x, y, d)) < cherries(g),
        total_cells(step(g, x, y, d)) == total_cells(g),
        step(g, x, y, d).len() == g.len(),
        forall|i: int| 0 <= i < g.len() ==> step(g, x, y, d)[i].len() == g[i].len(),
{
    let nx = next_x(x, d);
    let ny = next_y(y, d);
    let r1 = g[y].update(x, Tile::SnakeBody);
    let g1 = g.update(y, r1);
    lemma_row_cherries_update(g[y], x, Tile::SnakeBody);
    lemma_cherries_update(g, y, r1);
    lemma_total_cells_update(g, y, r1);
    let r2 = g1[ny].update(nx, Tile::SnakeHead);
    lemma_row_cherries_update(g1[ny], nx, Tile::SnakeHead);
    lemma_cherries_update(g1, ny, r2);
    lemma_total_cells_update(g1, ny, r2);
    if ny == y {
        assert(g1[ny][nx] == Tile::Cherry);
    } else {
        assert(g1[ny] == g[ny]);
    }
}

/// The single-cell step preserves the one-head invariant and moves the head
/// one cell along `d`.
proof fn lemma_step_props(g: Seq<Seq<Tile>>, x: int, y: int, d: Dir)
    requires
        head_at(g, x, y),
        at_most_one_head(g),
        can_step(g, x, y, d),
    ensures
        cherries(step(g, x, y, d)) < cherries(g),
        total_cells(step(g, x, y, d)) == total_cells(g),
        step(g, x, y, d).len() == g.len(),
        forall|i: int| 0 <= i < g.len() ==> step(g, x, y, d)[i].len() == g[i].len(),
        head_at(step(g, x, y, d), next_x(x, d), next_y(y, d)),
        at_most_one_head(step(g, x, y, d)),
{
    lemma_step_cherries(g, x, y, d);
    let nx = next_x(x, d);
    let ny = next_y(y, d);
    let s = step(g, x, y, d);
    assert(!(nx == x && ny == y));
    assert(s[ny][nx] == Tile::SnakeHead);
    assert forall|a: int, b: int| head_at(s, a, b) implies a == nx && b == ny by {
        if !(a == nx && b == ny) {
            if a == x && b == y {
                assert(s[y][x] == Tile::SnakeBody);
            } else {
                assert(s[b][a] == g[b][a]);
                assert(head_at(g, a, b));
            }
        }
    }
}

/// Sliding preserves the board's shape and the one-head invariant, only
/// consumes cherries, and moves the head strictly along the commanded
/// direction whenever the board changes at all.  The returned pair is the
/// head position of the resulting board.
pub proof fn lemma_slide_from_props(g: Seq<Seq<Tile>>, x: int, y: int, d: Dir) -> (r: (int, int))
    requires
        head_at(g, x, y),
        at_most_one_head(g),
    ensures
        slide_from(g, x, y, d).len() == g.len(),
        forall|i: int| 0 <= i < g.len() ==> slide_from(g, x, y, d)[i].len() == g[i].len(),
        total_cells(slide_from(g, x, y, d)) == total_cells(g),
        cherries(slide_from(g, x, y, d)) <= cherries(g),
        slide_from(g, x, y, d) != g ==> cherries(slide_from(g, x, y, d)) < cherries(g),
        at_most_one_head(slide_from(g, x, y, d)),
        head_at(slide_from(g, x, y, d), r.0, r.1),
        slide_from(g, x, y, d) != g ==> dir_consistent(x, y, r.0, r.1, d),
    decreases cherries(g),
{
    let s = slide_from(g, x, y, d);
    if head_at(g, x, y) && can_step(g, x, y, d) {
        lemma_step_props(g, x, y, d);
        let nx = next_x(x, d);
        let ny = next_y(y, d);
        let g2 = step(g, x, y, d);
        let p = lemma_slide_from_props(g2, nx, ny, d);
        assert(s == slide_from(g2, nx, ny, d));
        assert(cherries(s) < cherries(g));
        assert(s != g);
        if s == g2 {
            assert(head_at(g2, nx, ny));
            assert(p.0 == nx && p.1 == ny);
            assert(dir_consistent(x, y, p.0, p.1, d));
        } else {
            assert(dir_consistent(nx, ny, p.0, p.1, d));
            assert(dir_consistent(x, y, p.0, p.1, d));
        }
        p
    } else {
        assert(s == g);
        (x, y)
    }
}

/// On a board with exactly one head at `(x, y)`, the command's result is the
/// slide from that head.
pub proof fn lemma_slide_from_head(g: Seq<Seq<Tile>>, x: int, y: int, d: Dir)
    requires
        head_at(g, x, y),
        at_most_one_head(g),
    ensures
        slide(g, d) == slide_from(g, x, y, d),
{
    assert(has_head(g));
    let (hx0, hy0) = choose|hx: int, hy: int| head_at(g, hx, hy);
    assert(head_at(g, hx0, hy0));
    assert(hx0 == x && hy0 == y);
}

/// A command that is blocked immediately (off-grid, rock, or body on the
/// very first cell) is a no-op: the resulting board is the input board.
pub proof fn lemma_blocked_move_is_noop(g: Seq<Seq<Tile>>, x: int, y: int, d: Dir)
    requires
        head_at(g, x, y),
        at_most_one_head(g),
        !can_step(g, x, y, d),
    ensures
        slide(g, d) == g,
{
    lemma_slide_from_head(g, x, y, d);
}

impl Board {
    /// Issue one directional command: the snake slides along `dir`,
    /// consuming one cherry per cell, until it is blocked by the grid edge,
    /// a rock, or its own body.  A snake must have been placed first.
    pub fn move_snake(&self, dir: Dir) -> (b: Board)
        requires
            snake_placed(self@),
            grid_wf(self@),
        ensures
            b@ == slide(self@, dir),
            snake_placed(b@),
            grid_wf(b@),
            b@.len() == self@.len(),
            forall|i: int| 0 <= i < b@.len() ==> b@[i].len() == self@[i].len(),
            cherries(b@) <= cherries(self@),
    {
        let head = self.get_snake_head();
        proof {
            if head is None {
                assert(false);
            }
        }
        let (mut hx, mut hy) = head.unwrap();
        let mut cur = self.duplicate();
        proof {
            lemma_slide_from_head(self@, hx as int, hy as int, dir);
        }
        loop
            invariant
                grid_wf(self@),
                head_at(cur@, hx as int, hy as int),
                at_most_one_head(cur@),
                cur@.len() == self@.len(),
                forall|i: int| 0 <= i < cur@.len() ==> cur@[i].len() == self@[i].len(),
                total_cells(cur@) == total_cells(self@),
                cherries(cur@) <= cherries(self@),
                slide_from(cur@, hx as int, hy as int, dir) == slide(self@, dir),
            ensures
                cur@ == slide(self@, dir),
                snake_placed(cur@),
                grid_wf(cur@),
                cur@.len() == self@.len(),
                forall|i: int| 0 <= i < cur@.len() ==> cur@[i].len() == self@[i].len(),
                cherries(cur@) <= cherries(self@),
            decreases cherries(cur@),
        {
            let n_rows = cur.tiles.len();
            let row_len = cur.tiles[hy].len();
            proof {
                assert(cur@.len() == cur.tiles@.len());
                assert(cur@[hy as int].len() == cur.tiles@[hy as int]@.len());
            }
            let nx: usize;
            let ny: usize;
            match dir {
                Dir::Up => {
                    if hy == 0 {
                        break ;
                    }
                    nx = hx;
                    ny = hy - 1;
                },
                Dir::Down => {
                    if hy + 1 >= n_rows {
                        break ;
                    }
                    nx = hx;
                    ny = hy + 1;
                },
                Dir::Right => {
                    if hx + 1 >= row_len {
                        break ;
                    }
                    nx = hx + 1;
                    ny = hy;
                },
                Dir::Left => {
                    if hx == 0 {
                        break ;
                    }
                    nx = hx - 1;
                    ny = hy;
                },
            }
            proof {
                assert(nx as int == next_x(hx as int, dir));
                assert(ny as int == next_y(hy as int, dir));
            }
            if ny >= cur.tiles.len() || nx >= cur.tiles[ny].len() {
                proof {
                    assert(!can_step(cur@, hx as int, hy as int, dir));
                }
                break ;
            }
            let t = cur.tiles[ny][nx];
            proof {
                assert(t == cur@[ny as int][nx as int]);
            }
            match t {
                Tile::Cherry => {
                    proof {
                        assert(can_step(cur@, hx as int, hy as int, dir));
                        lemma_step_props(cur@, hx as int, hy as int, dir);
                    }
                    let ghost before = cur@;
                    cur.set_tile(hx, hy, Tile::SnakeBody);
                    cur.set_tile(nx, ny, Tile::SnakeHead);
                    proof {
                        assert(cur@ == step(before, hx as int, hy as int, dir));
                    }
                    hx = nx;
                    hy = ny;
                },
                _ => {
                    proof {
                        assert(!can_step(cur@, hx as int, hy as int, dir));
                    }
                    break ;
                },
            }
        }
        cur
    }

    /// The boards reachable by one command, for the four directions in the
    /// fixed order Up, Down, Right, Left.  A blocked command yields the
    /// board itself; the search's deduplication discards it as already seen.
    pub fn moves(&self) -> (ms: Vec<Board>)
        requires
            snake_placed(self@),
            grid_wf(self@),
        ensures
            ms@.len() == 4,
            ms@[0]@ == slide(self@, Dir::Up),
            ms@[1]@ == slide(self@, Dir::Down),
            ms@[2]@ == slide(self@, Dir::Right),
            ms@[3]@ == slide(self@, Dir::Left),
            forall|i: int| 0 <= i < 4 ==> snake_placed(#[trigger] ms@[i]@) && grid_wf(ms@[i]@),
    {
        let mut ms: Vec<Board> = Vec::new();
        ms.push(self.move_snake(Dir::Up));
        ms.push(self.move_snake(Dir::Down));
        ms.push(self.move_snake(Dir::Right));
        ms.push(self.move_snake(Dir::Left));
        ms
    }
}

} // verus!
