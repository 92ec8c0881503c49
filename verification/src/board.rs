//! The board model: tiles, the grid, parsing, and cell bookkeeping.

use vstd::prelude::*;

verus! {

/// One cell of the puzzle grid.  There is no "empty floor" tile: every
/// non-rock cell starts as a cherry and, once visited by the snake, becomes
/// body or head, so the snake can never re-enter a cell it has occupied.
#[derive(Clone, Copy, Debug, PartialEq, Eq, Structural)]
pub enum Tile {
    Rock,
    Cherry,
    SnakeBody,
    SnakeHead,
}

/// Whether `(x, y)` (column `x`, row `y`) is a valid cell of `g`.
/// Rows may have different lengths; each row is indexed independently.
pub open spec fn in_bounds(g: Seq<Seq<Tile>>, x: int, y: int) -> bool {
    0 <= y < g.len() && 0 <= x < g[y].len()
}

/// Whether the cell `(x, y)` holds the snake's head.
pub open spec fn head_at(g: Seq<Seq<Tile>>, x: int, y: int) -> bool {
    in_bounds(g, x, y) && g[y][x] == Tile::SnakeHead
}

/// Whether some cell of `g` holds the snake's head.
pub open spec fn has_head(g: Seq<Seq<Tile>>) -> bool {
    exists|x: int, y: int| head_at(g, x, y)
}

/// At most one cell of `g` holds the snake's head.
pub open spec fn at_most_one_head(g: Seq<Seq<Tile>>) -> bool {
    forall|x1: int, y1: int, x2: int, y2: int|
        head_at(g, x1, y1) && head_at(g, x2, y2) ==> x1 == x2 && y1 == y2
}

/// A board the movement rule and the search can work on: exactly one head.
pub open spec fn snake_placed(g: Seq<Seq<Tile>>) -> bool {
    has_head(g) && at_most_one_head(g)
}

/// Number of cherries in one row.
pub open spec fn row_cherries(row: Seq<Tile>) -> nat
    decreases row.len(),
{
    if row.len() == 0 {
        0
    } else {
        row_cherries(row.drop_last()) + if row.last() == Tile::Cherry {
            1nat
        } else {
            0nat
        }
    }
}

/// Number of cherries on the whole board.
pub open spec fn cherries(g: Seq<Seq<Tile>>) -> nat
    decreases g.len(),
{
    if g.len() == 0 {
        0
    } else {
        cherries(g.drop_last()) + row_cherries(g.last())
    }
}

/// Number of cells on the whole board.
pub open spec fn total_cells(g: Seq<Seq<Tile>>) -> nat
    decreases g.len(),
{
    if g.len() == 0 {
        0
    } else {
        total_cells(g.drop_last()) + g.last().len()
    }
}

/// The cell count fits in a machine word, so counting loops cannot overflow.
pub open spec fn grid_wf(g: Seq<Seq<Tile>>) -> bool {
    total_cells(g) <= usize::MAX
}

/// `g` with the cell `(x, y)` overwritten by a snake head.
pub open spec fn place_head(g: Seq<Seq<Tile>>, x: int, y: int) -> Seq<Seq<Tile>> {
    g.update(y, g[y].update(x, Tile::SnakeHead))
}

/// The views of a sequence of tile rows.
pub open spec fn views_of(rows: Seq<Vec<Tile>>) -> Seq<Seq<Tile>> {
    rows.map(|i: int, row: Vec<Tile>| row@)
}

pub proof fn lemma_row_cherries_update(row: Seq<Tile>, i: int, t: Tile)
    requires
        0 <= i < row.len(),
    ensures
        row_cherries(row.update(i, t)) + (if row[i] == Tile::Cherry {
            1nat
        } else {
            0nat
        }) == row_cherries(row) + (if t == Tile::Cherry {
            1nat
        } else {
            0nat
        }),
    decreases row.len(),
{
    let r2 = row.update(i, t);
    if i == row.len() - 1 {
        assert(r2.drop_last() =~= row.drop_last());
        assert(r2.last() == t);
    } else {
        assert(r2.drop_last() =~= row.drop_last().update(i, t));
        assert(r2.last() == row.last());
        lemma_row_cherries_update(row.drop_last(), i, t);
    }
}

pub proof fn lemma_cherries_update(g: Seq<Seq<Tile>>, y: int, row2: Seq<Tile>)
    requires
        0 <= y < g.len(),
    ensures
        cherries(g.update(y, row2)) + row_cherries(g[y]) == cherries(g) + row_cherries(row2),
    decreases g.len(),
{
    let g2 = g.update(y, row2);
    if y == g.len() - 1 {
        assert(g2.drop_last() =~= g.drop_last());
        assert(g2.last() == row2);
    } else {
        assert(g2.drop_last() =~= g.drop_last().update(y, row2));
        assert(g2.last() == g.last());
        lemma_cherries_update(g.drop_last(), y, row2);
    }
}

pub proof fn lemma_total_cells_update(g: Seq<Seq<Tile>>, y: int, row2: Seq<Tile>)
    requires
        0 <= y < g.len(),
    ensures
        total_cells(g.update(y, row2)) + g[y].len() == total_cells(g) + row2.len(),
    decreases g.len(),
{
    let g2 = g.update(y, row2);
    if y == g.len() - 1 {
        assert(g2.drop_last() =~= g.drop_last());
        assert(g2.last() == row2);
    } else {
        assert(g2.drop_last() =~= g.drop_last().update(y, row2));
        assert(g2.last() == g.last());
        lemma_total_cells_update(g.drop_last(), y, row2);
    }
}

pub proof fn lemma_row_cherries_le(row: Seq<Tile>)
    ensures
        row_cherries(row) <= row.len(),
    decreases row.len(),
{
    if row.len() > 0 {
        lemma_row_cherries_le(row.drop_last());
    }
}

pub proof fn lemma_cherries_le(g: Seq<Seq<Tile>>)
    ensures
        cherries(g) <= total_cells(g),
    decreases g.len(),
{
    if g.len() > 0 {
        lemma_cherries_le(g.drop_last());
        lemma_row_cherries_le(g.last());
    }
}

pub proof fn lemma_total_cells_push(g: Seq<Seq<Tile>>, r: Seq<Tile>)
    ensures
        total_cells(g.push(r)) == total_cells(g) + r.len(),
{
    assert(g.push(r).drop_last() =~= g);
    assert(g.push(r).last() == r);
}

pub proof fn lemma_total_cells_prefix(g: Seq<Seq<Tile>>, i: int)
    requires
        0 <= i <= g.len(),
    ensures
        total_cells(g.subrange(0, i)) <= total_cells(g),
    decreases g.len() - i,
{
    if i == g.len() {
        assert(g.subrange(0, i) =~= g);
    } else {
        assert(g.subrange(0, i + 1).drop_last() =~= g.subrange(0, i));
        assert(g.subrange(0, i + 1).last() == g[i]);
        lemma_total_cells_prefix(g, i + 1);
    }
}

/// The tile denoted by one input character: `r` is a rock, everything else
/// (including the conventional empty marker) is a cherry.
pub open spec fn tile_of(c: char) -> Tile {
    if c == 'r' {
        Tile::Rock
    } else {
        Tile::Cherry
    }
}

/// A line terminated by a newline may end in a carriage return (a CRLF
/// line ending); the carriage return belongs to the terminator, not to the
/// line.
pub open spec fn strip_cr(line: Seq<char>) -> Seq<char> {
    if line.len() > 0 && line.last() == '\r' {
        line.drop_last()
    } else {
        line
    }
}

/// The row of tiles denoted by one input line: one tile per character.
pub open spec fn row_of_line(line: Seq<char>) -> Seq<Tile> {
    line.map(|i: int, c: char| tile_of(c))
}

/// The rows denoted by `s`: lines are split at newlines, the final line
/// ending is optional, and every character of a line becomes one tile.
/// `cur` holds the characters of the line read so far.
pub open spec fn rows_of(s: Seq<char>, cur: Seq<char>) -> Seq<Seq<Tile>>
    decreases s.len(),
{
    if s.len() == 0 {
        if cur.len() == 0 {
            Seq::empty()
        } else {
            seq![row_of_line(cur)]
        }
    } else if s[0] == '\n' {
        seq![row_of_line(strip_cr(cur))] + rows_of(s.drop_first(), Seq::empty())
    } else {
        rows_of(s.drop_first(), cur.push(s[0]))
    }
}

/// The grid denoted by a block of text: one row per line, one tile per
/// character of the line.
pub open spec fn parse_grid(s: Seq<char>) -> Seq<Seq<Tile>> {
    rows_of(s, Seq::empty())
}

/// The row of tiles denoted by one input line.
fn convert_line(line: &Vec<char>) -> (r: Vec<Tile>)
    ensures
        r@ == row_of_line(line@),
        r@.len() == line@.len(),
        forall|k: int|
            0 <= k < r@.len() ==> (r@[k] == Tile::Rock || r@[k] == Tile::Cherry),
{
    let mut r: Vec<Tile> = Vec::new();
    let mut i: usize = 0;
    #[verifier::loop_isolation(false)]
    while i < line.len()
        invariant
            i <= line@.len(),
            r@.len() == i,
            forall|m: int| 0 <= m < r@.len() ==> r@[m] == tile_of(line@[m]),
        decreases line@.len() - i,
    {
        let c = line[i];
        if c == 'r' {
            r.push(Tile::Rock);
        } else {
            r.push(Tile::Cherry);
        }
        i = i + 1;
    }
    proof {
        assert(r@ =~= row_of_line(line@));
        assert forall|k: int| 0 <= k < r@.len() implies (r@[k] == Tile::Rock || r@[k]
            == Tile::Cherry) by {
            assert(r@[k] == tile_of(line@[k]));
        }
    }
    r
}

/// An immutable grid of tiles.  Equality is structural over the full tile
/// grid: two boards with identical tiles in place are the same search state,
/// independent of the moves that produced them.
pub struct Board {
    pub tiles: Vec<Vec<Tile>>,
}

impl View for Board {
    type V = Seq<Seq<Tile>>;

    open spec fn view(&self) -> Seq<Seq<Tile>> {
        views_of(self.tiles@)
    }
}

impl Board {
    /// Parse a block of text into a board: one row of tiles per input line,
    /// one tile per character of the line; `r` denotes a rock, any other
    /// character a cherry.  The fresh board holds no snake tile.
    pub fn new(input: &str) -> (b: Board)
        ensures
            b@ == parse_grid(input@),
            total_cells(b@) <= input@.len(),
            grid_wf(b@),
            forall|x: int, y: int|
                in_bounds(b@, x, y) ==> (b@[y][x] == Tile::Rock || b@[y][x] == Tile::Cherry),
    {
        let n = input.unicode_len();
        let mut chars: Vec<char> = Vec::new();
        let mut i: usize = 0;
        #[verifier::loop_isolation(false)]
        while i < n
            invariant
                i <= n,
                chars@.len() == i,
                forall|j: int| 0 <= j < i ==> chars@[j] == input@[j],
            decreases n - i,
        {
            chars.push(input.get_char(i));
            i = i + 1;
        }
        proof {
            assert(chars@ =~= input@);
        }
        let mut rows: Vec<Vec<Tile>> = Vec::new();
        let mut cur: Vec<char> = Vec::new();
        let mut i: usize = 0;
        proof {
            assert(views_of(rows@) =~= Seq::<Seq<Tile>>::empty());
            assert(input@.subrange(0, n as int) =~= input@);
            assert(views_of(rows@) + rows_of(input@.subrange(0, n as int), cur@)
                =~= rows_of(input@, Seq::empty()));
        }
        #[verifier::loop_isolation(false)]
        while i < n
            invariant
                i <= n,
                rows_of(input@, Seq::empty()) == views_of(rows@) + rows_of(
                    input@.subrange(i as int, n as int),
                    cur@,
                ),
                total_cells(views_of(rows@)) + cur@.len() <= i,
                forall|x: int, y: int|
                    in_bounds(views_of(rows@), x, y) ==> (views_of(rows@)[y][x] == Tile::Rock
                        || views_of(rows@)[y][x] == Tile::Cherry),
            decreases n - i,
        {
            let c = chars[i];
            proof {
                let rem = input@.subrange(i as int, n as int);
                assert(rem[0] == input@[i as int]);
                assert(rem.drop_first() =~= input@.subrange(i + 1, n as int));
            }
            if c == '\n' {
                let ghost cur0 = cur@;
                if cur.len() > 0 && cur[cur.len() - 1] == '\r' {
                    let _ = cur.pop();
                }
                proof {
                    assert(cur@ =~= strip_cr(cur0));
                }
                let row = convert_line(&cur);
                proof {
                    let old_views = views_of(rows@);
                    assert(views_of(rows@.push(row)) =~= old_views.push(row@));
                    lemma_total_cells_push(old_views, row@);
                    assert(old_views.push(row@) =~= old_views + seq![row@]);
                    assert((old_views + seq![row_of_line(strip_cr(cur0))]) + rows_of(
                        input@.subrange(i + 1, n as int),
                        Seq::empty(),
                    ) =~= old_views + (seq![row_of_line(strip_cr(cur0))] + rows_of(
                        input@.subrange(i + 1, n as int),
                        Seq::empty(),
                    )));
                    assert forall|x: int, y: int|
                        in_bounds(old_views.push(row@), x, y) implies (old_views.push(row@)[y][x]
                        == Tile::Rock || old_views.push(row@)[y][x] == Tile::Cherry) by {
                        if y < old_views.len() {
                            assert(in_bounds(old_views, x, y));
                        }
                    }
                }
                rows.push(row);
                cur = Vec::new();
            } else {
                proof {
                    let rem = input@.subrange(i as int, n as int);
                    assert(rows_of(rem, cur@) == rows_of(rem.drop_first(), cur@.push(c)));
                }
                cur.push(c);
            }
            i = i + 1;
        }
        proof {
            assert(input@.subrange(n as int, n as int) =~= Seq::<char>::empty());
        }
        if cur.len() > 0 {
            let row = convert_line(&cur);
            proof {
                let old_views = views_of(rows@);
                assert(rows_of(Seq::empty(), cur@) == seq![row_of_line(cur@)]);
                assert(views_of(rows@.push(row)) =~= old_views.push(row@));
                lemma_total_cells_push(old_views, row@);
                assert(old_views.push(row@) =~= old_views + seq![row@]);
                assert forall|x: int, y: int|
                    in_bounds(old_views.push(row@), x, y) implies (old_views.push(row@)[y][x]
                    == Tile::Rock || old_views.push(row@)[y][x] == Tile::Cherry) by {
                    if y < old_views.len() {
                        assert(in_bounds(old_views, x, y));
                    }
                }
            }
            rows.push(row);
        } else {
            proof {
                assert(rows_of(Seq::empty(), cur@) =~= Seq::<Seq<Tile>>::empty());
                assert(views_of(rows@) + Seq::<Seq<Tile>>::empty() =~= views_of(rows@));
            }
        }
        Board { tiles: rows }
    }

    /// A deep copy of the board.
    pub fn duplicate(&self) -> (b: Board)
        ensures
            b@ == self@,
    {
        let mut rows: Vec<Vec<Tile>> = Vec::new();
        let mut y: usize = 0;
        #[verifier::loop_isolation(false)]
        while y < self.tiles.len()
            invariant
                y <= self.tiles@.len(),
                rows@.len() == y,
                forall|i: int| 0 <= i < y ==> views_of(rows@)[i] == self@[i],
            decreases self.tiles@.len() - y,
        {
            let src = &self.tiles[y];
            let mut row: Vec<Tile> = Vec::new();
            let mut x: usize = 0;
            #[verifier::loop_isolation(false)]
            while x < src.len()
                invariant
                    x <= src@.len(),
                    row@.len() == x,
                    forall|j: int| 0 <= j < x ==> row@[j] == src@[j],
                decreases src@.len() - x,
            {
                row.push(src[x]);
                x = x + 1;
            }
            proof {
                assert(row@ =~= src@);
                assert(src@ == self@[y as int]);
            }
            rows.push(row);
            y = y + 1;
        }
        let b = Board { tiles: rows };
        proof {
            assert(b@ =~= self@);
        }
        b
    }

    /// Structural equality of two boards: same rows, same tiles in place.
    pub fn equals(&self, other: &Board) -> (r: bool)
        ensures
            r == (self@ == other@),
    {
        if self.tiles.len() != other.tiles.len() {
            proof {
                assert(self@.len() != other@.len());
            }
            return false;
        }
        let mut y: usize = 0;
        #[verifier::loop_isolation(false)]
        while y < self.tiles.len()
            invariant
                y <= self.tiles@.len(),
                forall|i: int| 0 <= i < y ==> self@[i] == other@[i],
            decreases self.tiles@.len() - y,
        {
            let a = &self.tiles[y];
            let b = &other.tiles[y];
            if a.len() != b.len() {
                proof {
                    assert(self@[y as int].len() != other@[y as int].len());
                }
                return false;
            }
            let mut x: usize = 0;
            #[verifier::loop_isolation(false)]
            while x < a.len()
                invariant
                    x <= a@.len(),
                    forall|j: int| 0 <= j < x ==> a@[j] == b@[j],
                decreases a@.len() - x,
            {
                if a[x] != b[x] {
                    proof {
                        assert(self@[y as int][x as int] != other@[y as int][x as int]);
                    }
                    return false;
                }
                x = x + 1;
            }
            proof {
                assert(self@[y as int] =~= other@[y as int]);
            }
            y = y + 1;
        }
        proof {
            assert(self@ =~= other@);
        }
        true
    }

    /// Count of remaining cherry tiles.
    pub fn cherry_count(&self) -> (n: usize)
        requires
            grid_wf(self@),
        ensures
            n as nat == cherries(self@),
    {
        let mut n: usize = 0;
        let mut y: usize = 0;
        #[verifier::loop_isolation(false)]
        while y < self.tiles.len()
            invariant
                y <= self.tiles@.len(),
                n as nat == cherries(self@.subrange(0, y as int)),
            decreases self.tiles@.len() - y,
        {
            let row = &self.tiles[y];
            proof {
                assert(row@ == self@[y as int]);
            }
            let mut x: usize = 0;
            let mut rc: usize = 0;
            #[verifier::loop_isolation(false)]
            while x < row.len()
                invariant
                    x <= row@.len(),
                    rc <= x,
                    rc as nat == row_cherries(row@.subrange(0, x as int)),
                decreases row@.len() - x,
            {
                proof {
                    assert(row@.subrange(0, x + 1).drop_last() =~= row@.subrange(0, x as int));
                    assert(row@.subrange(0, x + 1).last() == row@[x as int]);
                }
                if row[x] == Tile::Cherry {
                    rc = rc + 1;
                }
                x = x + 1;
            }
            proof {
                assert(row@.subrange(0, row@.len() as int) =~= row@);
                assert(self@.subrange(0, y + 1).drop_last() =~= self@.subrange(0, y as int));
                assert(self@.subrange(0, y + 1).last() == self@[y as int]);
                lemma_cherries_le(self@.subrange(0, y + 1));
                lemma_total_cells_prefix(self@, y + 1);
            }
            n = n + rc;
            y = y + 1;
        }
        proof {
            assert(self@.subrange(0, self@.len() as int) =~= self@);
        }
        n
    }

    /// Overwrite the cell `(x, y)` with `t`.
    pub(crate) fn set_tile(&mut self, x: usize, y: usize, t: Tile)
        requires
            in_bounds(old(self)@, x as int, y as int),
        ensures
            final(self)@ == old(self)@.update(y as int, old(self)@[y as int].update(x as int, t)),
    {
        let ghost g0 = self@;
        let mut row = self.tiles.remove(y);
        row.set(x, t);
        self.tiles.insert(y, row);
        proof {
            assert forall|i: int| 0 <= i < self.tiles@.len() implies self@[i] == g0.update(
                y as int,
                g0[y as int].update(x as int, t),
            )[i] by {
                assert(self@[i] == self.tiles@[i]@);
            }
            assert(self@ =~= g0.update(y as int, g0[y as int].update(x as int, t)));
        }
    }

    /// A new board with the tile at `p` overwritten by the snake's head.
    /// The caller must hand a cell that currently holds a cherry.
    pub fn place_snake(&self, p: (usize, usize)) -> (b: Board)
        requires
            in_bounds(self@, p.0 as int, p.1 as int),
            self@[p.1 as int][p.0 as int] == Tile::Cherry,
        ensures
            b@ == place_head(self@, p.0 as int, p.1 as int),
            b@.len() == self@.len(),
            forall|i: int| 0 <= i < b@.len() ==> b@[i].len() == self@[i].len(),
            head_at(b@, p.0 as int, p.1 as int),
            forall|x: int, y: int|
                in_bounds(self@, x, y) && !(x == p.0 as int && y == p.1 as int) ==> b@[y][x]
                    == self@[y][x],
    {
        let mut b = self.duplicate();
        b.set_tile(p.0, p.1, Tile::SnakeHead);
        b
    }

    /// The position of the snake's head, scanning rows top to bottom and each
    /// row left to right; absent when no head has been placed.
    pub fn get_snake_head(&self) -> (r: Option<(usize, usize)>)
        ensures
            match r {
                Some(p) => head_at(self@, p.0 as int, p.1 as int) && forall|x: int, y: int|
                    head_at(self@, x, y) ==> (p.1 < y || (p.1 == y && p.0 <= x)),
                None => !has_head(self@),
            },
    {
        let mut y: usize = 0;
        #[verifier::loop_isolation(false)]
        while y < self.tiles.len()
            invariant
                y <= self.tiles@.len(),
                forall|a: int, b: int| head_at(self@, a, b) ==> b >= y,
            decreases self.tiles@.len() - y,
        {
            let row = &self.tiles[y];
            proof {
                assert(row@ == self@[y as int]);
            }
            let mut x: usize = 0;
            #[verifier::loop_isolation(false)]
            while x < row.len()
                invariant
                    x <= row@.len(),
                    forall|a: int| head_at(self@, a, y as int) ==> a >= x,
                decreases row@.len() - x,
            {
                if row[x] == Tile::SnakeHead {
                    return Some((x, y));
                }
                proof {
                    assert(!head_at(self@, x as int, y as int));
                }
                x = x + 1;
            }
            proof {
                assert forall|a: int, b: int| head_at(self@, a, b) implies b >= y + 1 by {
                    if b == y {
                        assert(head_at(self@, a, y as int));
                    }
                }
            }
            y = y + 1;
        }
        proof {
            assert forall|a: int, b: int| !head_at(self@, a, b) by {
                if head_at(self@, a, b) {
                    assert(b < self@.len());
                }
            }
        }
        None
    }

    /// Every cell currently holding a cherry, in row-major order (top to
    /// bottom, left to right).  This ordering fixes the priority of the
    /// independent start-position search runs.
    pub fn starting_positions(&self) -> (ps: Vec<(usize, usize)>)
        ensures
            forall|k: int|
                0 <= k < ps@.len() ==> in_bounds(self@, #[trigger] ps@[k].0 as int, ps@[k].1 as int)
                    && self@[ps@[k].1 as int][ps@[k].0 as int] == Tile::Cherry,
            forall|x: usize, y: usize|
                in_bounds(self@, x as int, y as int) && self@[y as int][x as int] == Tile::Cherry
                    ==> exists|k: int| 0 <= k < ps@.len() && ps@[k] == (x, y),
            forall|k1: int, k2: int|
                0 <= k1 < k2 < ps@.len() ==> (ps@[k1].1 < ps@[k2].1 || (ps@[k1].1 == ps@[k2].1
                    && ps@[k1].0 < ps@[k2].0)),
    {
        let mut ps: Vec<(usize, usize)> = Vec::new();
        let mut y: usize = 0;
        #[verifier::loop_isolation(false)]
        while y < self.tiles.len()
            invariant
                y <= self.tiles@.len(),
                forall|k: int|
                    0 <= k < ps@.len() ==> in_bounds(
                        self@,
                        #[trigger] ps@[k].0 as int,
                        ps@[k].1 as int,
                    ) && self@[ps@[k].1 as int][ps@[k].0 as int] == Tile::Cherry,
                forall|a: usize, b: usize|
                    in_bounds(self@, a as int, b as int) && self@[b as int][a as int]
                        == Tile::Cherry && b < y ==> exists|k: int|
                        0 <= k < ps@.len() && ps@[k] == (a, b),
                forall|k: int| 0 <= k < ps@.len() ==> #[trigger] ps@[k].1 < y,
                forall|k1: int, k2: int|
                    0 <= k1 < k2 < ps@.len() ==> (ps@[k1].1 < ps@[k2].1 || (ps@[k1].1 == ps@[k2].1
                        && ps@[k1].0 < ps@[k2].0)),
            decreases self.tiles@.len() - y,
        {
            let row = &self.tiles[y];
            proof {
                assert(row@ == self@[y as int]);
            }
            let mut x: usize = 0;
            #[verifier::loop_isolation(false)]
            while x < row.len()
                invariant
                    x <= row@.len(),
                    forall|k: int|
                        0 <= k < ps@.len() ==> in_bounds(
                            self@,
                            #[trigger] ps@[k].0 as int,
                            ps@[k].1 as int,
                        ) && self@[ps@[k].1 as int][ps@[k].0 as int] == Tile::Cherry,
                    forall|a: usize, b: usize|
                        in_bounds(self@, a as int, b as int) && self@[b as int][a as int]
                            == Tile::Cherry && (b < y || (b == y && a < x)) ==> exists|k: int|
                            0 <= k < ps@.len() && ps@[k] == (a, b),
                    forall|k: int|
                        #[trigger] ps@[k].1 < y || (ps@[k].1 == y && ps@[k].0 < x) || !(0 <= k
                            < ps@.len()),
                    forall|k1: int, k2: int|
                        0 <= k1 < k2 < ps@.len() ==> (ps@[k1].1 < ps@[k2].1 || (ps@[k1].1
                            == ps@[k2].1 && ps@[k1].0 < ps@[k2].0)),
                decreases row@.len() - x,
            {
                if row[x] == Tile::Cherry {
                    let ghost old_ps = ps@;
                    ps.push((x, y));
                    proof {
                        assert(ps@[old_ps.len() as int] == (x, y));
                        assert forall|a: usize, b: usize|
                            in_bounds(self@, a as int, b as int) && self@[b as int][a as int]
                                == Tile::Cherry && (b < y || (b == y && a < x + 1)) implies exists|
                            k: int,
                        |
                            0 <= k < ps@.len() && ps@[k] == (a, b) by {
                            if b < y || (b == y && a < x) {
                                let k = choose|k: int|
                                    0 <= k < old_ps.len() && old_ps[k] == (a, b);
                                assert(ps@[k] == (a, b));
                            } else {
                                assert(ps@[old_ps.len() as int] == (a, b));
                            }
                        }
                    }
                }
                x = x + 1;
            }
            y = y + 1;
        }
        ps
    }

    /// A board is complete when no cherry tile remains.
    pub fn is_complete(&self) -> (r: bool)
        requires
            grid_wf(self@),
        ensures
            r == (cherries(self@) == 0),
    {
        self.cherry_count() == 0
    }
}

} // verus!
