//! The search engine and path reconstructor.
//!
//! For every cherry cell, in row-major order, an independent breadth-first
//! search runs from the board with the snake placed on that cell.  Visited
//! boards are recorded with their predecessor; the first complete board
//! dequeued is handed to the path reconstructor, which walks the parent
//! links back to the start and re-derives the command sequence.

use vstd::prelude::*;
use crate::board::{
    Board, Tile, in_bounds, head_at, snake_placed, cherries, grid_wf, place_head, parse_grid,
    lemma_total_cells_update,
};
use crate::movement::{
    Dir, slide, slide_from, dir_consistent, lemma_slide_from_head, lemma_slide_from_props,
};

verus! {

/// The board reached by replaying `dirs`, one command after the other,
/// starting from `g`.
pub open spec fn replay(g: Seq<Seq<Tile>>, dirs: Seq<Dir>) -> Seq<Seq<Tile>>
    decreases dirs.len(),
{
    if dirs.len() == 0 {
        g
    } else {
        replay(slide(g, dirs[0]), dirs.drop_first())
    }
}

pub proof fn lemma_replay_push(g: Seq<Seq<Tile>>, dirs: Seq<Dir>, d: Dir)
    ensures
        replay(g, dirs.push(d)) == slide(replay(g, dirs), d),
    decreases dirs.len(),
{
    let e = dirs.push(d).drop_first();
    if dirs.len() == 0 {
        assert(e =~= Seq::<Dir>::empty());
        assert(dirs.push(d)[0] == d);
        assert(replay(g, dirs.push(d)) == replay(slide(g, d), e));
        assert(replay(slide(g, d), e) == slide(g, d));
        assert(replay(g, dirs) == g);
    } else {
        assert(dirs.push(d)[0] == dirs[0]);
        assert(e =~= dirs.drop_first().push(d));
        lemma_replay_push(slide(g, dirs[0]), dirs.drop_first(), d);
        assert(replay(g, dirs.push(d)) == replay(slide(g, dirs[0]), e));
        assert(replay(slide(g, dirs[0]), dirs.drop_first().push(d)) == slide(
            replay(slide(g, dirs[0]), dirs.drop_first()),
            d,
        ));
        assert(replay(g, dirs) == replay(slide(g, dirs[0]), dirs.drop_first()));
    }
}

/// The predecessor of a visited board: either the board it was reached
/// from by one command, or the root marker carrying the start position of
/// this search run.
pub enum Parent {
    Root((usize, usize)),
    Move(Board),
}

/// The grid a `Move` predecessor holds; irrelevant for the root marker.
pub open spec fn parent_view(p: Parent) -> Seq<Seq<Tile>> {
    match p {
        Parent::Move(b) => b@,
        Parent::Root(_) => Seq::empty(),
    }
}

/// The search record of one run: every visited board, mapped to its
/// predecessor.  A board is inserted exactly once, so the record also
/// serves as the visited set that stops duplicate expansion.
pub struct Record {
    pub entries: Vec<(Board, Parent)>,
}

impl Record {
    /// The grid of the `i`-th visited board.
    pub open spec fn key(self, i: int) -> Seq<Seq<Tile>> {
        self.entries@[i].0@
    }

    /// How many boards have been visited.
    pub open spec fn size(self) -> nat {
        self.entries@.len()
    }

    /// Whether `g` has been visited.
    pub open spec fn contains_key(self, g: Seq<Seq<Tile>>) -> bool {
        exists|i: int| 0 <= i < self.size() && self.key(i) == g
    }

    /// The start position this run was rooted at.
    pub open spec fn root_pos(self) -> (usize, usize) {
        match self.entries@[0].1 {
            Parent::Root(p) => p,
            Parent::Move(_) => (0, 0),
        }
    }

    /// The start board of this run: the parsed grid with the snake placed
    /// on the root position.
    pub open spec fn root_board(self) -> Seq<Seq<Tile>> {
        self.key(0)
    }

    /// Entry `i` was reached from an earlier entry by one command that
    /// changed the board.
    pub open spec fn entry_ok(self, i: int) -> bool {
        &&& self.entries@[i].1 is Move
        &&& exists|j: int| 0 <= j < i && self.key(j) == parent_view(self.entries@[i].1)
        &&& exists|d: Dir| self.key(i) == slide(parent_view(self.entries@[i].1), d)
        &&& self.key(i) != parent_view(self.entries@[i].1)
    }

    /// Entry `ci` was reached from entry `pi` by one command that changed
    /// the board.
    pub open spec fn linked(self, pi: int, ci: int) -> bool {
        &&& exists|d: Dir| self.key(ci) == #[trigger] slide(self.key(pi), d)
        &&& self.key(ci) != self.key(pi)
    }

    /// The record index of a visited board; meaningful because no board is
    /// recorded twice.
    pub open spec fn index_of(self, g: Seq<Seq<Tile>>) -> int {
        choose|i: int| 0 <= i < self.size() && self.key(i) == g
    }

    /// The index of the entry that entry `i` was reached from.
    pub open spec fn parent_index(self, i: int) -> int {
        choose|j: int| 0 <= j < i && self.key(j) == parent_view(self.entries@[i].1)
    }

    /// The number of parent-link hops from entry `i` back to the root: the
    /// move count the path reconstructor reports for that entry.
    pub open spec fn hops(self, i: int) -> nat
        decreases i,
    {
        if 0 < i && self.entries@[i].1 is Move && (exists|j: int|
            0 <= j < i && self.key(j) == parent_view(self.entries@[i].1)) {
            1 + self.hops(self.parent_index(i))
        } else {
            0
        }
    }

    /// `s` is a backward chain of entry indices: each one was reached from
    /// the next by one command.
    pub open spec fn chain_ok(self, s: Seq<usize>) -> bool {
        &&& forall|k: int| 0 <= k < s.len() ==> (#[trigger] s[k]) < self.size()
        &&& forall|k: int|
            0 <= k < s.len() - 1 ==> #[trigger] self.linked(s[k + 1] as int, s[k] as int)
    }

    /// Walking one parent link extends a backward chain: the parent stands
    /// earlier in the record and is linked to the chain's last entry.
    pub proof fn lemma_chain_extend(self, s: Seq<usize>, i: usize, j: usize)
        requires
            self.wf(),
            s.len() >= 1,
            s[s.len() - 1] == i,
            i < self.size(),
            self.chain_ok(s),
            self.entries@[i as int].1 is Move,
            j < self.size(),
            self.key(j as int) == parent_view(self.entries@[i as int].1),
        ensures
            self.chain_ok(s.push(j)),
            j < i,
            self.hops(i as int) == self.hops(j as int) + 1,
    {
        if i == 0 {
            assert(self.entries@[0].1 is Root);
            assert(false);
        }
        assert(self.entry_ok(i as int));
        let jj = choose|jj: int|
            0 <= jj < i && self.key(jj) == parent_view(self.entries@[i as int].1);
        if j as int != jj {
            if (j as int) < jj {
                assert(self.key(j as int) != self.key(jj));
            } else {
                assert(self.key(jj) != self.key(j as int));
            }
            assert(false);
        }
        assert(j < i);
        let d = choose|d: Dir|
            self.key(i as int) == slide(parent_view(self.entries@[i as int].1), d);
        assert(self.key(i as int) == slide(self.key(j as int), d));
        assert(self.linked(j as int, i as int));
        let pj = self.parent_index(i as int);
        assert(0 <= pj < i && self.key(pj) == parent_view(self.entries@[i as int].1));
        if pj != j as int {
            if pj < j as int {
                assert(self.key(pj) != self.key(j as int));
            } else {
                assert(self.key(j as int) != self.key(pj));
            }
            assert(false);
        }
        assert(self.hops(i as int) == self.hops(j as int) + 1);
        let s2 = s.push(j);
        assert forall|k: int| 0 <= k < s2.len() implies (#[trigger] s2[k]) < self.size() by {
            if k < s.len() {
                assert(s2[k] == s[k]);
            } else {
                assert(s2[k] == j);
            }
        }
        assert forall|k: int|
            0 <= k < s2.len() - 1 implies #[trigger] self.linked(s2[k + 1] as int, s2[k] as int) by {
            if k < s.len() - 1 {
                assert(s2[k] == s[k]);
                assert(s2[k + 1] == s[k + 1]);
                assert(self.linked(s[k + 1] as int, s[k] as int));
            } else {
                assert(s2[k] == i);
                assert(s2[k + 1] == j);
            }
        }
    }

    /// Well-formedness of a record: one root entry, in front; every visited
    /// board carries exactly one head; no board is recorded twice; and every
    /// later entry is linked to an earlier one by one command.
    pub open spec fn wf(self) -> bool {
        &&& self.size() >= 1
        &&& self.entries@[0].1 is Root
        &&& head_at(self.root_board(), self.root_pos().0 as int, self.root_pos().1 as int)
        &&& forall|i: int|
            0 <= i < self.size() ==> snake_placed(#[trigger] self.key(i)) && grid_wf(self.key(i))
        &&& forall|i: int, j: int| 0 <= i < j < self.size() ==> self.key(i) != self.key(j)
        &&& forall|i: int| 1 <= i < self.size() ==> #[trigger] self.entry_ok(i)
    }

    /// Every visited board still holds a cherry, and all four one-command
    /// successors of every visited board are themselves visited: the run is
    /// exhausted.
    pub open spec fn closed(self) -> bool {
        forall|i: int|
            0 <= i < self.size() ==> cherries(#[trigger] self.key(i)) != 0 && forall|d: Dir|
                self.contains_key(#[trigger] slide(self.key(i), d))
    }

    /// In an exhausted run, replaying any command sequence from a visited
    /// board stays among the visited boards, so it never clears the
    /// cherries.
    pub proof fn lemma_closed_replay(self, g: Seq<Seq<Tile>>, ds: Seq<Dir>)
        requires
            self.closed(),
            self.contains_key(g),
        ensures
            self.contains_key(replay(g, ds)),
            cherries(replay(g, ds)) != 0,
        decreases ds.len(),
    {
        let i = choose|i: int| 0 <= i < self.size() && self.key(i) == g;
        assert(cherries(self.key(i)) != 0);
        if ds.len() == 0 {
            assert(replay(g, ds) == g);
        } else {
            assert(self.contains_key(slide(self.key(i), ds[0])));
            self.lemma_closed_replay(slide(g, ds[0]), ds.drop_first());
            assert(replay(g, ds) == replay(slide(g, ds[0]), ds.drop_first()));
        }
    }

    /// Open a record for one search run rooted at `start`, whose head sits
    /// at `p`.
    pub fn new_root(start: Board, p: (usize, usize)) -> (rec: Record)
        requires
            snake_placed(start@),
            grid_wf(start@),
            head_at(start@, p.0 as int, p.1 as int),
        ensures
            rec.wf(),
            rec.size() == 1,
            rec.key(0) == start@,
            rec.root_board() == start@,
            rec.root_pos() == p,
            rec.contains_key(start@),
            forall|g: Seq<Seq<Tile>>| rec.contains_key(g) ==> g == start@,
    {
        let mut entries: Vec<(Board, Parent)> = Vec::new();
        entries.push((start, Parent::Root(p)));
        let rec = Record { entries };
        proof {
            assert(rec.key(0) == start@);
            assert forall|g: Seq<Seq<Tile>>| rec.contains_key(g) implies g == start@ by {
                let i = choose|i: int| 0 <= i < rec.size() && rec.key(i) == g;
                assert(i == 0);
            }
        }
        rec
    }

    /// The index of the entry holding `b`, when `b` has been visited.
    pub fn find(&self, b: &Board) -> (r: Option<usize>)
        ensures
            match r {
                Some(i) => i < self.size() && self.key(i as int) == b@,
                None => !self.contains_key(b@),
            },
    {
        let mut i: usize = 0;
        #[verifier::loop_isolation(false)]
        while i < self.entries.len()
            invariant
                i <= self.entries@.len(),
                forall|k: int| 0 <= k < i ==> self.key(k) != b@,
            decreases self.entries@.len() - i,
        {
            let e = &self.entries[i];
            if e.0.equals(b) {
                return Some(i);
            }
            i = i + 1;
        }
        proof {
            if self.contains_key(b@) {
                let k = choose|k: int| 0 <= k < self.size() && self.key(k) == b@;
                assert(self.key(k) != b@);
            }
        }
        None
    }

    /// Whether `b` has been visited in this run.
    pub fn contains(&self, b: &Board) -> (r: bool)
        ensures
            r == self.contains_key(b@),
    {
        match self.find(b) {
            Some(i) => {
                proof {
                    assert(0 <= i < self.size() && self.key(i as int) == b@);
                }
                true
            },
            None => false,
        }
    }

    /// Record that `child` was reached from the already-visited `parent` by
    /// one command.  A board is never recorded twice: the caller must have
    /// checked that `child` is new.
    pub fn insert(&mut self, child: Board, parent: &Board)
        requires
            old(self).wf(),
            old(self).contains_key(parent@),
            !old(self).contains_key(child@),
            snake_placed(child@),
            grid_wf(child@),
            exists|d: Dir| child@ == slide(parent@, d),
        ensures
            final(self).wf(),
            final(self).size() == old(self).size() + 1,
            final(self).root_board() == old(self).root_board(),
            final(self).root_pos() == old(self).root_pos(),
            final(self).contains_key(child@),
            final(self).key(old(self).size() as int) == child@,
            forall|i: int| 0 <= i < old(self).size() ==> final(self).key(i) == old(self).key(i),
            forall|g: Seq<Seq<Tile>>|
                old(self).contains_key(g) ==> final(self).contains_key(g),
    {
        let ghost old_rec = *self;
        let p = parent.duplicate();
        let n = self.entries.len();
        self.entries.push((child, Parent::Move(p)));
        proof {
            assert(forall|i: int| 0 <= i < old_rec.size() ==> self.key(i) == old_rec.key(i));
            assert(self.entries@[0] == old_rec.entries@[0]);
            assert(self.key(n as int) == child@);
            assert forall|i: int|
                0 <= i < self.size() implies snake_placed(#[trigger] self.key(i)) && grid_wf(
                self.key(i),
            ) by {
                if i < n {
                    assert(self.key(i) == old_rec.key(i));
                    assert(snake_placed(old_rec.key(i)) && grid_wf(old_rec.key(i)));
                } else {
                    assert(self.key(i) == child@);
                }
            }
            assert(child@ != parent@);
            let j = choose|j: int| 0 <= j < old_rec.size() && old_rec.key(j) == parent@;
            assert(parent_view(self.entries@[n as int].1) == parent@);
            assert(0 <= j < n && self.key(j) == parent_view(self.entries@[n as int].1));
            let d = choose|d: Dir| child@ == slide(parent@, d);
            assert(self.key(n as int) == slide(parent_view(self.entries@[n as int].1), d));
            assert(self.entry_ok(n as int));
            assert forall|i: int| 1 <= i < self.size() implies #[trigger] self.entry_ok(i) by {
                if i < n {
                    assert(old_rec.entry_ok(i));
                    assert(self.entries@[i] == old_rec.entries@[i]);
                    let jj = choose|jj: int|
                        0 <= jj < i && old_rec.key(jj) == parent_view(old_rec.entries@[i].1);
                    assert(self.key(jj) == parent_view(self.entries@[i].1));
                }
            }
            assert forall|i: int, j2: int|
                0 <= i < j2 < self.size() implies self.key(i) != self.key(j2) by {
                if j2 == n {
                    if self.key(i) == self.key(j2) {
                        assert(old_rec.key(i) == child@);
                        assert(old_rec.contains_key(child@));
                    }
                } else {
                    assert(old_rec.key(i) == self.key(i));
                    assert(old_rec.key(j2) == self.key(j2));
                }
            }
            assert forall|g: Seq<Seq<Tile>>|
                old_rec.contains_key(g) implies self.contains_key(g) by {
                let i = choose|i: int| 0 <= i < old_rec.size() && old_rec.key(i) == g;
                assert(self.key(i) == g);
            }
            assert(self.contains_key(child@));
        }
    }
}

/// The direction that leads from the parent head position to the child
/// head position, compared coordinate by coordinate.
fn derive_dir(px: usize, py: usize, cx: usize, cy: usize) -> (d: Dir)
    ensures
        px > cx ==> d == Dir::Left,
        px < cx ==> d == Dir::Right,
        (px == cx && py > cy) ==> d == Dir::Up,
        (px == cx && py < cy) ==> d == Dir::Down,
{
    if px > cx {
        Dir::Left
    } else if px < cx {
        Dir::Right
    } else if py > cy {
        Dir::Up
    } else {
        Dir::Down
    }
}

/// Reconstruct the solution for a visited `board`: walk the parent links of
/// `history` back to the root, then re-derive each command by comparing the
/// head positions of consecutive boards.  Replaying the returned direction
/// list from the run's start board reproduces `board`.
#[verifier::rlimit(100)]
pub fn solution(board: Board, history: &Record) -> (r: ((usize, usize), Vec<Dir>))
    requires
        history.wf(),
        history.contains_key(board@),
    ensures
        r.0 == history.root_pos(),
        replay(history.root_board(), r.1@) == board@,
        r.1@.len() == history.hops(history.index_of(board@)),
        forall|m: int|
            0 <= m < r.1@.len() ==> replay(history.root_board(), r.1@.take(m + 1)) != replay(
                history.root_board(),
                #[trigger] r.1@.take(m),
            ),
{
    let found = history.find(&board);
    proof {
        if found is None {
            assert(false);
        }
    }
    let mut i = found.unwrap();
    proof {
        let i0 = history.index_of(board@);
        assert(0 <= i0 < history.size() && history.key(i0) == board@);
        if i0 != i as int {
            if i0 < i as int {
                assert(history.key(i0) != history.key(i as int));
            } else {
                assert(history.key(i as int) != history.key(i0));
            }
            assert(false);
        }
    }
    let mut idxs: Vec<usize> = Vec::new();
    idxs.push(i);
    loop
        invariant
            history.wf(),
            idxs@.len() >= 1,
            idxs@[idxs@.len() - 1] == i,
            i < history.size(),
            history.key(idxs@[0] as int) == board@,
            history.chain_ok(idxs@),
            history.hops(history.index_of(board@)) == history.hops(i as int) + idxs@.len() - 1,
        ensures
            history.entries@[i as int].1 is Root,
        decreases i,
    {
        let e = &history.entries[i];
        match &e.1 {
            Parent::Root(_) => {
                break ;
            },
            Parent::Move(pb) => {
                proof {
                    if i == 0 {
                        assert(history.entries@[0].1 is Root);
                        assert(false);
                    }
                    assert(history.entry_ok(i as int));
                    assert(parent_view(history.entries@[i as int].1) == pb@);
                }
                let found_j = history.find(pb);
                proof {
                    let jj = choose|jj: int| 0 <= jj < i && history.key(jj) == pb@;
                    if found_j is None {
                        assert(history.contains_key(pb@));
                        assert(false);
                    }
                }
                let j = found_j.unwrap();
                let ghost old_idxs = idxs@;
                idxs.push(j);
                proof {
                    history.lemma_chain_extend(old_idxs, i, j);
                }
                i = j;
            },
        }
    }
    proof {
        if i != 0 {
            assert(history.entry_ok(i as int));
            assert(false);
        }
    }
    let pos = match &history.entries[0].1 {
        Parent::Root(p) => *p,
        Parent::Move(_) => {
            proof {
                assert(false);
            }
            (0, 0)
        },
    };
    let n = idxs.len();
    proof {
        assert(idxs@[n - 1] == 0);
        assert(history.key(idxs@[n - 1] as int) == history.root_board());
        assert(history.hops(0) == 0);
        assert(history.hops(history.index_of(board@)) == n - 1);
    }
    let mut dirs: Vec<Dir> = Vec::new();
    let mut k: usize = n - 1;
    #[verifier::loop_isolation(false)]
    while k > 0
        invariant
            k <= n - 1,
            dirs@.len() == n - 1 - k,
            replay(history.root_board(), dirs@) == history.key(idxs@[k as int] as int),
            forall|m: int|
                0 <= m < dirs@.len() ==> replay(history.root_board(), dirs@.take(m + 1))
                    != replay(history.root_board(), #[trigger] dirs@.take(m)),
        decreases k,
    {
        let pi = idxs[k];
        let ci = idxs[k - 1];
        let pb = &history.entries[pi].0;
        let cb = &history.entries[ci].0;
        proof {
            assert(snake_placed(history.key(pi as int)));
            assert(snake_placed(history.key(ci as int)));
        }
        let ph_opt = pb.get_snake_head();
        let ch_opt = cb.get_snake_head();
        proof {
            if ph_opt is None || ch_opt is None {
                assert(false);
            }
        }
        let ph = ph_opt.unwrap();
        let ch = ch_opt.unwrap();
        let d = derive_dir(ph.0, ph.1, ch.0, ch.1);
        proof {
            let kk: int = k as int - 1;
            assert(history.linked(idxs@[kk + 1] as int, idxs@[kk] as int));
            assert(history.linked(pi as int, ci as int));
            let gp = history.key(pi as int);
            let gc = history.key(ci as int);
            let d0 = choose|d0: Dir| gc == slide(gp, d0);
            lemma_slide_from_head(gp, ph.0 as int, ph.1 as int, d0);
            let w = lemma_slide_from_props(gp, ph.0 as int, ph.1 as int, d0);
            assert(slide_from(gp, ph.0 as int, ph.1 as int, d0) == gc);
            assert(head_at(gc, w.0, w.1));
            assert(gc != gp);
            assert(dir_consistent(ph.0 as int, ph.1 as int, w.0, w.1, d0));
            assert(head_at(gc, ch.0 as int, ch.1 as int));
            assert(w.0 == ch.0 as int && w.1 == ch.1 as int);
            assert(d == d0);
            assert(gc == slide(gp, d));
            lemma_replay_push(history.root_board(), dirs@, d);
        }
        let ghost old_dirs = dirs@;
        dirs.push(d);
        proof {
            assert forall|m: int|
                0 <= m < dirs@.len() implies replay(history.root_board(), dirs@.take(m + 1))
                != replay(history.root_board(), #[trigger] dirs@.take(m)) by {
                if m < old_dirs.len() {
                    assert(dirs@.take(m + 1) =~= old_dirs.take(m + 1));
                    assert(dirs@.take(m) =~= old_dirs.take(m));
                } else {
                    assert(dirs@.take(m + 1) =~= dirs@);
                    assert(dirs@.take(m) =~= old_dirs);
                    assert(replay(history.root_board(), old_dirs) == history.key(pi as int));
                    assert(replay(history.root_board(), dirs@) == history.key(ci as int));
                    assert(history.key(ci as int) != history.key(pi as int));
                }
            }
        }
        k = k - 1;
    }
    (pos, dirs)
}

/// What a solve run reports: a solution, a search-backed "no solution for
/// any start position", or an aborted run whose node budget ran out.
#[derive(Debug, PartialEq, Eq)]
pub enum Outcome {
    Solved(((usize, usize), Vec<Dir>)),
    NoSolution,
    OutOfBudget,
}

/// The direction a board's `j`-th generated move uses, in the fixed
/// expansion order Up, Down, Right, Left.
pub open spec fn dir_order(j: int) -> Dir {
    if j == 0 {
        Dir::Up
    } else if j == 1 {
        Dir::Down
    } else if j == 2 {
        Dir::Right
    } else {
        Dir::Left
    }
}

/// Entry `i` of `rec` is either still pending in the queue or fully
/// expanded: incomplete, with all four of its successors recorded.
pub open spec fn pending_or_expanded(rec: Record, q: Seq<Board>, i: int) -> bool {
    ||| exists|qi: int| 0 <= qi < q.len() && q[qi]@ == rec.key(i)
    ||| cherries(rec.key(i)) != 0 && forall|d: Dir|
        rec.contains_key(#[trigger] slide(rec.key(i), d))
}

/// Solve a puzzle given as a block of text: for each cherry cell in
/// row-major order, search breadth-first from the board with the snake
/// placed there; the first complete board found wins.  `Solved` carries
/// the chosen start position and the command sequence; replaying the
/// commands from a fresh parse of `input` with the snake placed on that
/// position clears every cherry, and no earlier start position (in
/// row-major order) admits any clearing sequence.  `NoSolution` means the
/// search exhausted every start position: no placement admits a clearing
/// sequence.  Each run carries a node budget so the traversal is bounded;
/// a run that uses it up is reported as `OutOfBudget`, never as
/// `NoSolution`.
pub fn solve(input: &str) -> (r: Outcome)
    ensures
        r matches Outcome::Solved(sol) ==> {
            let g0 = parse_grid(input@);
            &&& in_bounds(g0, sol.0.0 as int, sol.0.1 as int)
            &&& g0[sol.0.1 as int][sol.0.0 as int] == Tile::Cherry
            &&& cherries(replay(place_head(g0, sol.0.0 as int, sol.0.1 as int), sol.1@)) == 0
            &&& forall|x: usize, y: usize, ds: Seq<Dir>|
                in_bounds(g0, x as int, y as int) && g0[y as int][x as int] == Tile::Cherry && (y
                    < sol.0.1 || (y == sol.0.1 && x < sol.0.0)) ==> cherries(
                    #[trigger] replay(place_head(g0, x as int, y as int), ds),
                ) != 0
        },
        r is NoSolution ==> forall|x: usize, y: usize, ds: Seq<Dir>|
            in_bounds(parse_grid(input@), x as int, y as int) && parse_grid(input@)[y as int][x
                as int] == Tile::Cherry ==> cherries(
                #[trigger] replay(place_head(parse_grid(input@), x as int, y as int), ds),
            ) != 0,
        (forall|x: int, y: int|
            in_bounds(parse_grid(input@), x, y) ==> parse_grid(input@)[y][x] != Tile::Cherry)
            ==> r is NoSolution,
{
    let board = Board::new(input);
    let starts = board.starting_positions();
    let mut si: usize = 0;
    #[verifier::loop_isolation(false)]
    while si < starts.len()
        invariant
            si <= starts@.len(),
            forall|k: int, ds: Seq<Dir>|
                0 <= k < si ==> cherries(
                    #[trigger] replay(
                        place_head(board@, starts@[k].0 as int, starts@[k].1 as int),
                        ds,
                    ),
                ) != 0,
        decreases starts@.len() - si,
    {
        let p = starts[si];
        proof {
            assert(in_bounds(board@, starts@[si as int].0 as int, starts@[si as int].1 as int)
                && board@[starts@[si as int].1 as int][starts@[si as int].0 as int]
                == Tile::Cherry);
        }
        let start_b = board.place_snake(p);
        proof {
            assert forall|a: int, b: int|
                head_at(start_b@, a, b) implies a == p.0 as int && b == p.1 as int by {
                if !(a == p.0 as int && b == p.1 as int) {
                    assert(in_bounds(board@, a, b));
                    assert(start_b@[b][a] == board@[b][a]);
                }
            }
            lemma_total_cells_update(
                board@,
                p.1 as int,
                board@[p.1 as int].update(p.0 as int, Tile::SnakeHead),
            );
        }
        let mut rec = Record::new_root(start_b.duplicate(), p);
        let mut queue: Vec<Board> = Vec::new();
        queue.push(start_b);
        let mut budget: usize = usize::MAX;
        proof {
            assert(queue@[0]@ == rec.key(0));
        }
        #[verifier::loop_isolation(false)]
        while queue.len() > 0 && budget > 0
            invariant
                rec.wf(),
                rec.root_board() == place_head(board@, p.0 as int, p.1 as int),
                rec.root_pos() == p,
                forall|qi: int|
                    0 <= qi < queue@.len() ==> rec.contains_key(#[trigger] queue@[qi]@),
                forall|i: int|
                    0 <= i < rec.size() ==> #[trigger] pending_or_expanded(rec, queue@, i),
            decreases budget,
        {
            budget = budget - 1;
            let ghost rec0 = rec;
            let ghost q0 = queue@;
            let b = queue.remove(0);
            proof {
                assert(rec.contains_key(b@));
                let bi = choose|bi: int| 0 <= bi < rec.size() && rec.key(bi) == b@;
                assert(snake_placed(rec.key(bi)) && grid_wf(rec.key(bi)));
            }
            if b.is_complete() {
                let sol = solution(b, &rec);
                proof {
                    assert forall|x: usize, y: usize, ds: Seq<Dir>|
                        in_bounds(board@, x as int, y as int) && board@[y as int][x as int]
                        == Tile::Cherry && (y < p.1 || (y == p.1 && x < p.0)) implies cherries(
                        #[trigger] replay(place_head(board@, x as int, y as int), ds),
                    ) != 0 by {
                        let k = choose|k: int| 0 <= k < starts@.len() && starts@[k] == (x, y);
                        if k > si {
                            assert(starts@[si as int].1 < starts@[k].1 || (starts@[si as int].1
                                == starts@[k].1 && starts@[si as int].0 < starts@[k].0));
                            assert(false);
                        }
                        if k == si {
                            assert(false);
                        }
                        assert(cherries(replay(
                            place_head(board@, starts@[k].0 as int, starts@[k].1 as int),
                            ds,
                        )) != 0);
                        assert(starts@[k] == (x, y));
                    }
                }
                return Outcome::Solved(sol);
            }
            proof {
                assert forall|i: int|
                    0 <= i < rec.size() implies pending_or_expanded(rec, queue@, i) || rec.key(i)
                    == b@ by {
                    assert(pending_or_expanded(rec0, q0, i));
                    if exists|qi: int| 0 <= qi < q0.len() && q0[qi]@ == rec0.key(i) {
                        let qi = choose|qi: int| 0 <= qi < q0.len() && q0[qi]@ == rec0.key(i);
                        if qi == 0 {
                            assert(rec.key(i) == b@);
                        } else {
                            assert(queue@[qi - 1] == q0[qi]);
                        }
                    }
                }
            }
            let ms = b.moves();
            let mut mi: usize = 0;
            #[verifier::loop_isolation(false)]
            while mi < ms.len()
                invariant
                    mi <= 4,
                    rec.wf(),
                    rec.root_board() == place_head(board@, p.0 as int, p.1 as int),
                    rec.root_pos() == p,
                    rec.contains_key(b@),
                    forall|qi: int|
                        0 <= qi < queue@.len() ==> rec.contains_key(#[trigger] queue@[qi]@),
                    forall|j: int|
                        0 <= j < mi ==> rec.contains_key(#[trigger] slide(b@, dir_order(j))),
                    forall|i: int|
                        0 <= i < rec.size() ==> #[trigger] pending_or_expanded(rec, queue@, i)
                            || rec.key(i) == b@,
                decreases ms@.len() - mi,
            {
                let m = &ms[mi];
                proof {
                    if mi == 0 {
                        assert(ms@[0]@ == slide(b@, Dir::Up));
                    } else if mi == 1 {
                        assert(ms@[1]@ == slide(b@, Dir::Down));
                    } else if mi == 2 {
                        assert(ms@[2]@ == slide(b@, Dir::Right));
                    } else {
                        assert(ms@[3]@ == slide(b@, Dir::Left));
                    }
                    assert(m@ == slide(b@, dir_order(mi as int)));
                }
                let ghost rec1 = rec;
                let ghost q1 = queue@;
                if !rec.contains(m) {
                    proof {
                        assert(exists|d: Dir| m@ == slide(b@, d));
                    }
                    queue.push(m.duplicate());
                    rec.insert(m.duplicate(), &b);
                    proof {
                        assert forall|i: int|
                            0 <= i < rec.size() implies #[trigger] pending_or_expanded(
                            rec,
                            queue@,
                            i,
                        ) || rec.key(i) == b@ by {
                            if i < rec1.size() {
                                assert(rec.key(i) == rec1.key(i));
                                assert(pending_or_expanded(rec1, q1, i) || rec1.key(i) == b@);
                                if exists|qi: int|
                                    0 <= qi < q1.len() && q1[qi]@ == rec1.key(i) {
                                    let qi = choose|qi: int|
                                        0 <= qi < q1.len() && q1[qi]@ == rec1.key(i);
                                    assert(queue@[qi] == q1[qi]);
                                } else if pending_or_expanded(rec1, q1, i) {
                                    assert forall|d: Dir|
                                        rec.contains_key(
                                            #[trigger] slide(rec.key(i), d),
                                        ) by {
                                        assert(rec1.contains_key(slide(rec1.key(i), d)));
                                    }
                                }
                            } else {
                                assert(rec.key(i) == m@);
                                assert(queue@[queue@.len() - 1]@ == rec.key(i));
                            }
                        }
                    }
                }
                mi = mi + 1;
            }
            proof {
                assert forall|i: int|
                    0 <= i < rec.size() implies #[trigger] pending_or_expanded(rec, queue@, i) by {
                    if rec.key(i) == b@ {
                        assert(cherries(b@) != 0);
                        assert forall|d: Dir|
                            rec.contains_key(#[trigger] slide(rec.key(i), d)) by {
                            if d == Dir::Up {
                                assert(rec.contains_key(slide(b@, dir_order(0))));
                            } else if d == Dir::Down {
                                assert(rec.contains_key(slide(b@, dir_order(1))));
                            } else if d == Dir::Right {
                                assert(rec.contains_key(slide(b@, dir_order(2))));
                            } else {
                                assert(rec.contains_key(slide(b@, dir_order(3))));
                            }
                        }
                    }
                }
            }
        }
        if queue.len() > 0 {
            return Outcome::OutOfBudget;
        }
        proof {
            assert forall|i: int|
                0 <= i < rec.size() implies cherries(#[trigger] rec.key(i)) != 0 && forall|d: Dir|
                rec.contains_key(#[trigger] slide(rec.key(i), d)) by {
                assert(pending_or_expanded(rec, queue@, i));
            }
            assert(rec.closed());
            assert(rec.contains_key(rec.root_board()));
            assert forall|k: int, ds: Seq<Dir>|
                0 <= k < si + 1 implies cherries(
                #[trigger] replay(place_head(board@, starts@[k].0 as int, starts@[k].1 as int), ds),
            ) != 0 by {
                if k == si {
                    rec.lemma_closed_replay(rec.root_board(), ds);
                    assert(starts@[k] == p);
                }
            }
        }
        si = si + 1;
    }
    proof {
        assert forall|x: usize, y: usize, ds: Seq<Dir>|
            in_bounds(board@, x as int, y as int) && board@[y as int][x as int]
            == Tile::Cherry implies cherries(
            #[trigger] replay(place_head(board@, x as int, y as int), ds),
        ) != 0 by {
            let k = choose|k: int| 0 <= k < starts@.len() && starts@[k] == (x, y);
            assert(cherries(replay(
                place_head(board@, starts@[k].0 as int, starts@[k].1 as int),
                ds,
            )) != 0);
            assert(starts@[k] == (x, y));
        }
    }
    Outcome::NoSolution
}

} // verus!
