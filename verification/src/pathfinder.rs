//! Shortest routes to a food on a board with barriers.
//!
//! The search walks over states, not cells: a state is the cell of the head
//! together with the cell that the head has just left. The snake may not turn
//! back into the cell that it has just left, so the same cell can be worth a
//! second visit when it is entered from another side.

use std::collections::VecDeque;
use vstd::prelude::*;
use crate::grid::{cells, Cell, Direction, Point};

verus! {

/// A search state: the cell of the head and the cell that it came from.
pub struct State {
    pub pos: Point,
    pub prev: Point,
}

/// A board with its barriers.
pub struct Maze {
    /// Side of the board.
    pub board: int,
    /// The cells that can never be entered.
    pub walls: Seq<Point>,
}

impl State {
    /// The state after one move in direction `d`.
    pub open spec fn advance(self, d: Direction) -> State {
        State { pos: self.pos.step(d), prev: self.pos }
    }

    /// Both cells of the state lie on the board of side `n`.
    pub open spec fn placed(self, n: int) -> bool {
        self.pos.on_board(n) && self.prev.on_board(n)
    }
}

impl Maze {
    /// A barrier fills the cell.
    pub open spec fn blocked(self, p: Point) -> bool {
        exists|k: int| 0 <= k < self.walls.len() && self.walls[k] == p
    }

    /// The move `d` is allowed in state `s`: it stays on the board, enters no
    /// barrier and does not turn back into the cell that was just left.
    pub open spec fn may_enter(self, s: State, d: Direction) -> bool {
        &&& s.pos.step(d).on_board(self.board)
        &&& !self.blocked(s.pos.step(d))
        &&& s.pos.step(d) != s.prev
    }

    /// Every move of `w`, made in turn from state `s`, is allowed.
    pub open spec fn valid_walk(self, s: State, w: Seq<Direction>) -> bool
        decreases w.len(),
    {
        w.len() == 0 || (self.valid_walk(s, w.drop_last()) && self.may_enter(
            walk_end(s, w.drop_last()),
            w.last(),
        ))
    }

    /// The walk `w` is allowed from state `s` and ends on `food`.
    pub open spec fn reaches(self, s: State, w: Seq<Direction>, food: Point) -> bool {
        self.valid_walk(s, w) && walk_end(s, w).pos == food
    }

    /// The walk `w` reaches `food` from `s`, no walk that does so is shorter,
    /// and among those of the same length `w` comes first, where walks are
    /// ordered by their first differing move.
    pub open spec fn best_walk(self, s: State, w: Seq<Direction>, food: Point) -> bool {
        &&& self.reaches(s, w, food)
        &&& forall|v: Seq<Direction>| #[trigger]
            self.reaches(s, v, food) ==> w.len() <= v.len() && (v.len() == w.len() ==> v == w
                || walk_before(w, v))
    }
}

/// The state in which the walk `w` ends when it starts in state `s`.
pub open spec fn walk_end(s: State, w: Seq<Direction>) -> State
    decreases w.len(),
{
    if w.len() == 0 {
        s
    } else {
        walk_end(s, w.drop_last()).advance(w.last())
    }
}

/// At the first place where the walks differ, `a` makes the move that is
/// tried earlier.
pub open spec fn walk_before(a: Seq<Direction>, b: Seq<Direction>) -> bool {
    exists|k: int| differ_at(a, b, k)
}

/// The walks agree before place `k`, where `a` makes the move that is tried
/// earlier.
pub open spec fn differ_at(a: Seq<Direction>, b: Seq<Direction>, k: int) -> bool {
    &&& 0 <= k < a.len()
    &&& k < b.len()
    &&& a[k].rank() < b[k].rank()
    &&& forall|j: int| 0 <= j < k ==> a[j] == b[j]
}

/// Number of the cell `p` among the cells of the board of side `n`.
spec fn cell_id(n: int, p: Point) -> int {
    (p.x - 1) * n + (p.y - 1)
}

/// Number of the state `s` among the states of the board of side `n`.
spec fn slot(n: int, s: State) -> int {
    cell_id(n, s.pos) * (n * n) + cell_id(n, s.prev)
}

proof fn lemma_pack_range(a: int, b: int, k: int, m: int)
    requires
        0 <= a < k,
        0 <= b < m,
    ensures
        0 <= a * m <= a * m + b < k * m,
{
    assert(0 <= a * m) by (nonlinear_arith)
        requires
            0 <= a,
            0 < m,
    ;
    assert(a * m + m <= k * m) by (nonlinear_arith)
        requires
            a + 1 <= k,
            0 < m,
    ;
}

proof fn lemma_pack_unique(a1: int, b1: int, a2: int, b2: int, m: int)
    requires
        0 <= b1 < m,
        0 <= b2 < m,
        a1 * m + b1 == a2 * m + b2,
    ensures
        a1 == a2,
        b1 == b2,
{
    if a1 < a2 {
        assert(a1 * m + m <= a2 * m) by (nonlinear_arith)
            requires
                a1 + 1 <= a2,
                0 < m,
        ;
    } else if a2 < a1 {
        assert(a2 * m + m <= a1 * m) by (nonlinear_arith)
            requires
                a2 + 1 <= a1,
                0 < m,
        ;
    }
}

/// The cells of a board are numbered from 0, each with a number of its own.
proof fn lemma_cell_id(n: int, p: Point, q: Point)
    requires
        p.on_board(n),
        q.on_board(n),
    ensures
        0 <= cell_id(n, p) < n * n,
        cell_id(n, p) == cell_id(n, q) ==> p == q,
{
    lemma_pack_range(p.x - 1, p.y - 1, n, n);
    if cell_id(n, p) == cell_id(n, q) {
        lemma_pack_unique(p.x - 1, p.y - 1, q.x - 1, q.y - 1, n);
    }
}

/// The states of a board are numbered from 0, each with a number of its own.
proof fn lemma_slot(n: int, s: State, t: State)
    requires
        s.placed(n),
        t.placed(n),
    ensures
        0 <= slot(n, s) < (n * n) * (n * n),
        slot(n, s) == slot(n, t) ==> s == t,
{
    lemma_cell_id(n, s.pos, t.pos);
    lemma_cell_id(n, s.prev, t.prev);
    lemma_cell_id(n, t.pos, s.pos);
    lemma_cell_id(n, t.prev, s.prev);
    lemma_pack_range(cell_id(n, s.pos), cell_id(n, s.prev), n * n, n * n);
    if slot(n, s) == slot(n, t) {
        lemma_pack_unique(cell_id(n, s.pos), cell_id(n, s.prev), cell_id(n, t.pos), cell_id(n, t.prev), n * n);
    }
}

/// Number of the cell `c` on the board of side `side`.
fn cell_index(side: usize, c: Cell) -> (id: usize)
    requires
        c@.on_board(side as int),
        side * side <= usize::MAX,
    ensures
        id == cell_id(side as int, c@),
        id < side * side,
{
    proof {
        lemma_pack_range(c.x - 1, c.y - 1, side as int, side as int);
    }
    ((c.x - 1) as usize) * side + ((c.y - 1) as usize)
}

/// A table of `len` entries, none of them set.
fn blank(len: usize) -> (table: Vec<bool>)
    ensures
        table@.len() == len,
        forall|i: int| 0 <= i < len ==> !table@[i],
{
    let mut table: Vec<bool> = Vec::new();
    let mut i: usize = 0;
    while i < len
        invariant
            i <= len,
            table@.len() == i,
            forall|j: int| 0 <= j < i ==> !table@[j],
        decreases len - i,
    {
        table.push(false);
        i = i + 1;
    }
    table
}

/// One of the first `k` barriers fills the cell.
spec fn blocked_among(walls: Seq<Point>, p: Point, k: int) -> bool {
    exists|j: int| 0 <= j < k && walls[j] == p
}

/// Marks the barriers that lie on the board in a table of its cells.
fn wall_grid(side: usize, barriers: &[i32], Ghost(m): Ghost<Maze>) -> (grid: Vec<bool>)
    requires
        1 <= side <= i32::MAX,
        side * side <= usize::MAX,
        m.board == side,
        m.walls == cells(barriers@),
    ensures
        grid@.len() == side * side,
        forall|p: Point| #[trigger] p.on_board(side as int) ==> grid@[cell_id(side as int, p)] == m.blocked(p),
{
    let mut grid: Vec<bool> = blank(side * side);
    let total: usize = barriers.len() / 2;
    let mut k: usize = 0;
    proof {
        assert forall|p: Point| #[trigger] p.on_board(side as int) implies grid@[cell_id(side as int, p)]
            == blocked_among(m.walls, p, 0) by {
            lemma_cell_id(side as int, p, p);
        }
    }
    while k < total
        invariant
            total == barriers@.len() / 2,
            2 * total <= usize::MAX,
            k <= total,
            1 <= side <= i32::MAX,
            side * side <= usize::MAX,
            m.walls == cells(barriers@),
            grid@.len() == side * side,
            forall|p: Point| #[trigger] p.on_board(side as int) ==> grid@[cell_id(side as int, p)] == blocked_among(m.walls, p, k as int),
        decreases total - k,
    {
        let c: Cell = Cell { x: barriers[2 * k], y: barriers[2 * k + 1] };
        assert(c@ == m.walls[k as int]);
        let ghost before = grid@;
        if 1 <= c.x && c.x as usize <= side && 1 <= c.y && c.y as usize <= side {
            let id: usize = cell_index(side, c);
            grid.set(id, true);
        }
        proof {
            assert forall|p: Point| #[trigger] p.on_board(side as int) implies grid@[cell_id(side as int, p)]
                == blocked_among(m.walls, p, k + 1) by {
                lemma_cell_id(side as int, p, p);
                if c@.on_board(side as int) {
                    lemma_cell_id(side as int, p, c@);
                }
                if p == c@ {
                    assert(m.walls[k as int] == p);
                } else {
                    assert(before[cell_id(side as int, p)] == blocked_among(m.walls, p, k as int));
                    if blocked_among(m.walls, p, k + 1) {
                        let j = choose|j: int| 0 <= j < k + 1 && m.walls[j] == p;
                        assert(j < k);
                    }
                }
            }
        }
        k = k + 1;
    }
    proof {
        assert forall|p: Point| #[trigger] p.on_board(side as int) implies grid@[cell_id(side as int, p)]
            == m.blocked(p) by {
            if m.blocked(p) {
                let j = choose|j: int| 0 <= j < m.walls.len() && m.walls[j] == p;
                assert(blocked_among(m.walls, p, k as int));
            }
        }
    }
    grid
}

/// The board of side `n` with the barriers that a flat list spells out.
pub open spec fn maze(n: int, barriers: Seq<i32>) -> Maze {
    Maze { board: n, walls: cells(barriers) }
}

/// A state that the search has found, with the move that first led to it.
#[derive(Clone, Copy)]
struct Node {
    pos: Cell,
    prev: Cell,
    dir: Direction,
    parent: usize,
}

impl Node {
    spec fn state(self) -> State {
        State { pos: self.pos@, prev: self.prev@ }
    }
}

/// How far a search has come. The nodes stand in the order in which they were
/// found; those before `front` have all their moves tried, the node at
/// `front` has the first `tried` of them tried.
struct Search {
    maze: Maze,
    start: State,
    food: Point,
    nodes: Seq<Node>,
    /// For each node the walk by which it was found.
    paths: Seq<Seq<Direction>>,
    /// For each state whether a node holds it, by the state's number.
    seen: Seq<bool>,
    front: int,
    tried: int,
}

impl Search {
    spec fn st(self, i: int) -> State {
        self.nodes[i].state()
    }

    spec fn dep(self, i: int) -> int {
        self.paths[i].len() as int
    }

    /// Node `i` hangs on an earlier node by one allowed move.
    spec fn linked(self, i: int) -> bool {
        let p = self.nodes[i].parent as int;
        let d = self.nodes[i].dir;
        &&& 0 <= p < i
        &&& p <= self.front
        &&& self.paths[i] == self.paths[p].push(d)
        &&& self.st(i) == self.st(p).advance(d)
        &&& self.maze.may_enter(self.st(p), d)
        &&& (p == self.front ==> d.rank() < self.tried)
    }

    spec fn shape(self) -> bool {
        &&& self.nodes.len() == self.paths.len()
        &&& 0 <= self.front <= self.nodes.len()
        &&& 1 <= self.nodes.len()
        &&& 0 <= self.tried <= 4
        &&& self.st(0) == self.start
        &&& self.paths[0].len() == 0
        &&& forall|i: int| 0 <= i < self.nodes.len() ==> (#[trigger] self.st(i)).placed(self.maze.board)
        &&& forall|i: int| 1 <= i < self.nodes.len() ==> #[trigger] self.linked(i)
    }

    spec fn seen_ok(self) -> bool {
        &&& self.seen.len() == (self.maze.board * self.maze.board) * (self.maze.board * self.maze.board)
        &&& forall|i: int| 0 <= i < self.nodes.len() ==> self.seen[slot(self.maze.board, #[trigger] self.st(i))]
        &&& forall|t: int|
            0 <= t < self.seen.len() && #[trigger] self.seen[t] ==> exists|i: int|
                0 <= i < self.nodes.len() && slot(self.maze.board, #[trigger] self.st(i)) == t
    }

    /// Later nodes are not nearer to the start, no node is more than one move
    /// farther than the node at the front, and nodes that are equally far
    /// stand in the order of their walks.
    spec fn layered(self) -> bool {
        &&& forall|i: int, j: int| 0 <= i <= j < self.nodes.len() ==> #[trigger] self.dep(i) <= #[trigger] self.dep(j)
        &&& forall|j: int|
            0 <= j < self.nodes.len() && self.front < self.nodes.len() ==> #[trigger] self.dep(j) <= self.dep(
                self.front,
            ) + 1
        &&& forall|i: int, j: int|
            0 <= i < j < self.nodes.len() && #[trigger] self.dep(i) == #[trigger] self.dep(j) ==> walk_before(
                self.paths[i],
                self.paths[j],
            )
    }

    /// Where the move `d` is allowed at node `i`, a node holds the state that
    /// it leads to, and that node was found from node `i` or earlier.
    spec fn found(self, i: int, d: Direction) -> bool {
        self.maze.may_enter(self.st(i), d) ==> exists|j: int|
            0 <= j < self.nodes.len() && #[trigger] self.st(j) == self.st(i).advance(d) && (j == 0
                || self.nodes[j].parent <= i)
    }

    spec fn complete(self) -> bool {
        &&& forall|i: int, d: Direction| 0 <= i < self.front ==> #[trigger] self.found(i, d)
        &&& forall|d: Direction| d.rank() < self.tried ==> #[trigger] self.found(self.front, d)
    }

    spec fn hungry(self) -> bool {
        forall|i: int| 0 <= i < self.front ==> (#[trigger] self.st(i)).pos != self.food
    }

    spec fn inv(self) -> bool {
        &&& self.shape()
        &&& self.seen_ok()
        &&& self.layered()
        &&& self.complete()
        &&& self.hungry()
    }

    /// The search after one more move of the front node was tried and found
    /// nothing new.
    spec fn skipped(self) -> Search {
        Search { tried: self.tried + 1, ..self }
    }

    /// The search after the move `d` of the front node led to a new node.
    spec fn grown(self, node: Node) -> Search {
        Search {
            nodes: self.nodes.push(node),
            paths: self.paths.push(self.paths[self.front].push(node.dir)),
            seen: self.seen.update(slot(self.maze.board, node.state()), true),
            tried: self.tried + 1,
            ..self
        }
    }

    /// The search after the front node is done.
    spec fn moved_on(self) -> Search {
        Search { front: self.front + 1, tried: 0, ..self }
    }
}

proof fn lemma_before_push(a: Seq<Direction>, b: Seq<Direction>, x: Direction, y: Direction)
    requires
        walk_before(a, b),
    ensures
        walk_before(a.push(x), b.push(y)),
{
    let k = choose|k: int| differ_at(a, b, k);
    assert(differ_at(a.push(x), b.push(y), k));
}

proof fn lemma_before_last(a: Seq<Direction>, x: Direction, y: Direction)
    requires
        x.rank() < y.rank(),
    ensures
        walk_before(a.push(x), a.push(y)),
{
    assert(differ_at(a.push(x), a.push(y), a.len() as int));
}

proof fn lemma_before_chain(a: Seq<Direction>, b: Seq<Direction>, c: Seq<Direction>)
    requires
        walk_before(a, b),
        walk_before(b, c),
    ensures
        walk_before(a, c),
{
    let k1 = choose|k: int| differ_at(a, b, k);
    let k2 = choose|k: int| differ_at(b, c, k);
    if k1 <= k2 {
        assert(differ_at(a, c, k1));
    } else {
        assert(differ_at(a, c, k2));
    }
}

/// Two moves that lead from one cell to one cell are the same move.
proof fn lemma_same_step(p: Point, d: Direction, e: Direction)
    requires
        p.step(d) == p.step(e),
    ensures
        d == e,
{
}

proof fn lemma_start(g: Search)
    requires
        g.nodes.len() == 1,
        g.paths.len() == 1,
        g.paths[0].len() == 0,
        g.st(0) == g.start,
        g.start.placed(g.maze.board),
        g.front == 0,
        g.tried == 0,
        g.seen.len() == (g.maze.board * g.maze.board) * (g.maze.board * g.maze.board),
        forall|t: int| 0 <= t < g.seen.len() ==> (g.seen[t] <==> t == slot(g.maze.board, g.start)),
    ensures
        g.inv(),
{
    lemma_slot(g.maze.board, g.start, g.start);
    assert forall|t: int| 0 <= t < g.seen.len() && #[trigger] g.seen[t] implies exists|i: int|
        0 <= i < g.nodes.len() && slot(g.maze.board, #[trigger] g.st(i)) == t by {
        assert(slot(g.maze.board, g.st(0)) == t);
    }
}

proof fn lemma_skip(g: Search, d: Direction)
    requires
        g.inv(),
        g.front < g.nodes.len(),
        d.rank() == g.tried,
        g.tried < 4,
        g.maze.may_enter(g.st(g.front), d) ==> g.seen[slot(g.maze.board, g.st(g.front).advance(d))],
    ensures
        g.skipped().inv(),
{
    let h = g.skipped();
    let n = g.maze.board;
    assert(h.shape()) by {
        assert forall|i: int| 0 <= i < h.nodes.len() implies (#[trigger] h.st(i)).placed(n) by {
            assert(g.st(i).placed(n));
        }
        assert forall|i: int| 1 <= i < h.nodes.len() implies #[trigger] h.linked(i) by {
            assert(g.linked(i));
        }
    }
    assert(h.seen_ok()) by {
        assert forall|i: int| 0 <= i < h.nodes.len() implies h.seen[slot(n, #[trigger] h.st(i))] by {
            assert(g.seen[slot(n, g.st(i))]);
        }
        assert forall|t: int| 0 <= t < h.seen.len() && #[trigger] h.seen[t] implies exists|i: int|
            0 <= i < h.nodes.len() && slot(n, #[trigger] h.st(i)) == t by {
            let i = choose|i: int| 0 <= i < g.nodes.len() && slot(n, #[trigger] g.st(i)) == t;
            assert(slot(n, h.st(i)) == t);
        }
    }
    assert(h.layered()) by {
        assert forall|i: int, j: int| 0 <= i <= j < h.nodes.len() implies #[trigger] h.dep(i) <= #[trigger] h.dep(j) by {
            assert(g.dep(i) <= g.dep(j));
        }
        assert forall|j: int| 0 <= j < h.nodes.len() && h.front < h.nodes.len() implies #[trigger] h.dep(j)
            <= h.dep(h.front) + 1 by {
            assert(g.dep(j) <= g.dep(g.front) + 1);
        }
        assert forall|i: int, j: int|
            0 <= i < j < h.nodes.len() && #[trigger] h.dep(i) == #[trigger] h.dep(j) implies walk_before(
            h.paths[i],
            h.paths[j],
        ) by {
            assert(g.dep(i) == g.dep(j));
        }
    }
    assert(h.complete()) by {
        assert forall|i: int, e: Direction| 0 <= i < h.front implies #[trigger] h.found(i, e) by {
            assert(g.found(i, e));
            if g.maze.may_enter(g.st(i), e) {
                let j = choose|j: int|
                    0 <= j < g.nodes.len() && #[trigger] g.st(j) == g.st(i).advance(e) && (j == 0
                        || g.nodes[j].parent <= i);
                assert(h.st(j) == h.st(i).advance(e));
            }
        }
        assert forall|e: Direction| e.rank() < h.tried implies #[trigger] h.found(h.front, e) by {
            if e.rank() < g.tried {
                assert(g.found(g.front, e));
                if g.maze.may_enter(g.st(g.front), e) {
                    let j = choose|j: int|
                        0 <= j < g.nodes.len() && #[trigger] g.st(j) == g.st(g.front).advance(e) && (j == 0
                            || g.nodes[j].parent <= g.front);
                    assert(h.st(j) == h.st(h.front).advance(e));
                }
            } else {
                assert(e == d);
                if g.maze.may_enter(g.st(g.front), d) {
                    let target = g.st(g.front).advance(d);
                    let t = slot(n, target);
                    assert(g.st(g.front).placed(n));
                    lemma_slot(n, target, target);
                    let j = choose|j: int| 0 <= j < g.nodes.len() && slot(n, #[trigger] g.st(j)) == t;
                    assert(g.st(j).placed(n));
                    lemma_slot(n, g.st(j), target);
                    if j != 0 {
                        assert(g.linked(j));
                    }
                    assert(h.st(j) == h.st(h.front).advance(d));
                }
            }
        }
    }
    assert(h.hungry()) by {
        assert forall|i: int| 0 <= i < h.front implies (#[trigger] h.st(i)).pos != h.food by {
            assert(g.st(i).pos != g.food);
        }
    }
}

proof fn lemma_grow(g: Search, node: Node)
    requires
        g.inv(),
        g.front < g.nodes.len(),
        node.dir.rank() == g.tried,
        g.tried < 4,
        node.parent == g.front,
        node.state() == g.st(g.front).advance(node.dir),
        g.maze.may_enter(g.st(g.front), node.dir),
        !g.seen[slot(g.maze.board, node.state())],
    ensures
        g.grown(node).inv(),
{
    let h = g.grown(node);
    let n = g.maze.board;
    let d = node.dir;
    let last = g.nodes.len() as int;
    let t = slot(n, node.state());
    assert(g.st(g.front).placed(n));
    lemma_slot(n, node.state(), node.state());
    assert(h.st(last) == node.state());
    assert forall|i: int| 0 <= i < last implies h.st(i) == g.st(i) && h.dep(i) == g.dep(i) && h.paths[i]
        == g.paths[i] && h.nodes[i] == g.nodes[i] by {}
    assert(h.dep(last) == g.dep(g.front) + 1);
    assert(h.shape()) by {
        assert forall|i: int| 0 <= i < h.nodes.len() implies (#[trigger] h.st(i)).placed(n) by {
            if i < last {
                assert(g.st(i).placed(n));
            }
        }
        assert forall|i: int| 1 <= i < h.nodes.len() implies #[trigger] h.linked(i) by {
            if i < last {
                assert(g.linked(i));
            }
        }
    }
    assert(h.seen_ok()) by {
        assert forall|i: int| 0 <= i < h.nodes.len() implies h.seen[slot(n, #[trigger] h.st(i))] by {
            if i < last {
                assert(g.seen[slot(n, g.st(i))]);
                assert(g.st(i).placed(n));
                lemma_slot(n, g.st(i), g.st(i));
            }
        }
        assert forall|u: int| 0 <= u < h.seen.len() && #[trigger] h.seen[u] implies exists|i: int|
            0 <= i < h.nodes.len() && slot(n, #[trigger] h.st(i)) == u by {
            if u == t {
                assert(slot(n, h.st(last)) == u);
            } else {
                assert(g.seen[u]);
                let i = choose|i: int| 0 <= i < g.nodes.len() && slot(n, #[trigger] g.st(i)) == u;
                assert(slot(n, h.st(i)) == u);
            }
        }
    }
    assert(h.layered()) by {
        assert forall|i: int, j: int| 0 <= i <= j < h.nodes.len() implies #[trigger] h.dep(i) <= #[trigger] h.dep(j) by {
            if j < last {
                assert(g.dep(i) <= g.dep(j));
            } else if i < last {
                assert(g.dep(i) <= g.dep(g.front) + 1);
            }
        }
        assert forall|j: int| 0 <= j < h.nodes.len() && h.front < h.nodes.len() implies #[trigger] h.dep(j)
            <= h.dep(h.front) + 1 by {
            if j < last {
                assert(g.dep(j) <= g.dep(g.front) + 1);
            }
        }
        assert forall|i: int, j: int|
            0 <= i < j < h.nodes.len() && #[trigger] h.dep(i) == #[trigger] h.dep(j) implies walk_before(
            h.paths[i],
            h.paths[j],
        ) by {
            if j < last {
                assert(g.dep(i) == g.dep(j));
            } else {
                assert(g.dep(i) == g.dep(g.front) + 1);
                assert(i != 0);
                assert(g.linked(i));
                let p = g.nodes[i].parent as int;
                assert(g.dep(p) == g.dep(g.front));
                if p < g.front {
                    lemma_before_push(g.paths[p], g.paths[g.front], g.nodes[i].dir, d);
                } else {
                    lemma_before_last(g.paths[g.front], g.nodes[i].dir, d);
                }
            }
        }
    }
    assert(h.complete()) by {
        assert forall|i: int, e: Direction| 0 <= i < h.front implies #[trigger] h.found(i, e) by {
            assert(g.found(i, e));
            if g.maze.may_enter(g.st(i), e) {
                let j = choose|j: int|
                    0 <= j < g.nodes.len() && #[trigger] g.st(j) == g.st(i).advance(e) && (j == 0
                        || g.nodes[j].parent <= i);
                assert(h.st(j) == h.st(i).advance(e));
            }
        }
        assert forall|e: Direction| e.rank() < h.tried implies #[trigger] h.found(h.front, e) by {
            if e.rank() < g.tried {
                assert(g.found(g.front, e));
                if g.maze.may_enter(g.st(g.front), e) {
                    let j = choose|j: int|
                        0 <= j < g.nodes.len() && #[trigger] g.st(j) == g.st(g.front).advance(e) && (j == 0
                            || g.nodes[j].parent <= g.front);
                    assert(h.st(j) == h.st(h.front).advance(e));
                }
            } else {
                assert(e == d);
                assert(h.st(last) == h.st(h.front).advance(d));
                assert(h.nodes[last].parent <= h.front);
            }
        }
    }
    assert(h.hungry()) by {
        assert forall|i: int| 0 <= i < h.front implies (#[trigger] h.st(i)).pos != h.food by {
            assert(g.st(i).pos != g.food);
        }
    }
}

proof fn lemma_move_on(g: Search)
    requires
        g.inv(),
        g.front < g.nodes.len(),
        g.tried == 4,
        g.st(g.front).pos != g.food,
    ensures
        g.moved_on().inv(),
{
    let h = g.moved_on();
    let n = g.maze.board;
    assert(h.shape()) by {
        assert forall|i: int| 0 <= i < h.nodes.len() implies (#[trigger] h.st(i)).placed(n) by {
            assert(g.st(i).placed(n));
        }
        assert forall|i: int| 1 <= i < h.nodes.len() implies #[trigger] h.linked(i) by {
            assert(g.linked(i));
        }
    }
    assert(h.seen_ok()) by {
        assert forall|i: int| 0 <= i < h.nodes.len() implies h.seen[slot(n, #[trigger] h.st(i))] by {
            assert(g.seen[slot(n, g.st(i))]);
        }
        assert forall|t: int| 0 <= t < h.seen.len() && #[trigger] h.seen[t] implies exists|i: int|
            0 <= i < h.nodes.len() && slot(n, #[trigger] h.st(i)) == t by {
            let i = choose|i: int| 0 <= i < g.nodes.len() && slot(n, #[trigger] g.st(i)) == t;
            assert(slot(n, h.st(i)) == t);
        }
    }
    assert(h.layered()) by {
        assert forall|i: int, j: int| 0 <= i <= j < h.nodes.len() implies #[trigger] h.dep(i) <= #[trigger] h.dep(j) by {
            assert(g.dep(i) <= g.dep(j));
        }
        assert forall|j: int| 0 <= j < h.nodes.len() && h.front < h.nodes.len() implies #[trigger] h.dep(j)
            <= h.dep(h.front) + 1 by {
            assert(g.dep(j) <= g.dep(g.front) + 1);
            assert(g.dep(g.front) <= g.dep(h.front));
        }
        assert forall|i: int, j: int|
            0 <= i < j < h.nodes.len() && #[trigger] h.dep(i) == #[trigger] h.dep(j) implies walk_before(
            h.paths[i],
            h.paths[j],
        ) by {
            assert(g.dep(i) == g.dep(j));
        }
    }
    assert(h.complete()) by {
        assert forall|i: int, e: Direction| 0 <= i < h.front implies #[trigger] h.found(i, e) by {
            if i < g.front {
                assert(g.found(i, e));
            } else {
                assert(e.rank() < g.tried);
                assert(g.found(g.front, e));
            }
            if g.maze.may_enter(g.st(i), e) {
                let j = choose|j: int|
                    0 <= j < g.nodes.len() && #[trigger] g.st(j) == g.st(i).advance(e) && (j == 0
                        || g.nodes[j].parent <= i);
                assert(h.st(j) == h.st(i).advance(e));
            }
        }
    }
    assert(h.hungry()) by {
        assert forall|i: int| 0 <= i < h.front implies (#[trigger] h.st(i)).pos != h.food by {
            if i < g.front {
                assert(g.st(i).pos != g.food);
            }
        }
    }
}

/// Each node is reached by its walk.
proof fn lemma_node_walk(g: Search, i: int)
    requires
        g.inv(),
        0 <= i < g.nodes.len(),
    ensures
        g.maze.valid_walk(g.start, g.paths[i]),
        walk_end(g.start, g.paths[i]) == g.st(i),
    decreases i,
{
    if i > 0 {
        assert(g.linked(i));
        let p = g.nodes[i].parent as int;
        lemma_node_walk(g, p);
        assert(g.paths[i].drop_last() =~= g.paths[p]);
        assert(g.paths[i].last() == g.nodes[i].dir);
    }
}

/// Every allowed walk, no longer than the walk of the front node, ends in a
/// node whose own walk is not longer and, where it is as long, not later in
/// the order of walks.
proof fn lemma_cover(g: Search, v: Seq<Direction>) -> (j: int)
    requires
        g.inv(),
        g.maze.valid_walk(g.start, v),
        g.front < g.nodes.len() ==> v.len() <= g.dep(g.front),
    ensures
        0 <= j < g.nodes.len(),
        g.st(j) == walk_end(g.start, v),
        g.dep(j) <= v.len(),
        g.dep(j) == v.len() ==> g.paths[j] == v || walk_before(g.paths[j], v),
    decreases v.len(),
{
    if v.len() == 0 {
        assert(g.paths[0] =~= v);
        0
    } else {
        let u = v.drop_last();
        let d = v.last();
        assert(v =~= u.push(d));
        let i = lemma_cover(g, u);
        if g.front < g.nodes.len() {
            if i >= g.front {
                assert(g.dep(g.front) <= g.dep(i));
            }
        }
        assert(i < g.front);
        assert(g.found(i, d));
        let j = choose|j: int|
            0 <= j < g.nodes.len() && #[trigger] g.st(j) == g.st(i).advance(d) && (j == 0
                || g.nodes[j].parent <= i);
        if j != 0 {
            assert(g.linked(j));
            let p = g.nodes[j].parent as int;
            assert(g.dep(p) <= g.dep(i));
            if g.dep(j) == v.len() {
                assert(g.dep(i) == u.len());
                assert(g.dep(p) == g.dep(i));
                lemma_same_step(g.st(i).pos, g.nodes[j].dir, d);
                if p < i {
                    if g.paths[i] != u {
                        lemma_before_chain(g.paths[p], g.paths[i], u);
                    }
                }
                if g.paths[p] != u {
                    lemma_before_push(g.paths[p], u, d, d);
                }
            }
        }
        j
    }
}

/// Once the front node stands on the food, its walk is the best one.
proof fn lemma_arrived(g: Search)
    requires
        g.inv(),
        g.front < g.nodes.len(),
        g.st(g.front).pos == g.food,
    ensures
        g.maze.best_walk(g.start, g.paths[g.front], g.food),
{
    let w = g.paths[g.front];
    lemma_node_walk(g, g.front);
    assert forall|v: Seq<Direction>| #[trigger] g.maze.reaches(g.start, v, g.food) implies w.len() <= v.len()
        && (v.len() == w.len() ==> v == w || walk_before(w, v)) by {
        if v.len() <= w.len() {
            let j = lemma_cover(g, v);
            assert(g.st(j).pos == g.food);
            assert(j >= g.front);
            assert(g.dep(g.front) <= g.dep(j));
            if j > g.front {
                if g.paths[j] != v {
                    lemma_before_chain(w, g.paths[j], v);
                }
            }
        }
    }
}

/// Once every node is done, no walk reaches the food.
proof fn lemma_exhausted(g: Search)
    requires
        g.inv(),
        g.front == g.nodes.len(),
    ensures
        forall|v: Seq<Direction>| !g.maze.reaches(g.start, v, g.food),
{
    assert forall|v: Seq<Direction>| !g.maze.reaches(g.start, v, g.food) by {
        if g.maze.valid_walk(g.start, v) {
            let j = lemma_cover(g, v);
            assert(g.st(j).pos != g.food);
        }
    }
}

/// How many of the first `k` states no node holds yet.
spec fn unseen(seen: Seq<bool>, k: int) -> int
    decreases k,
{
    if k <= 0 {
        0
    } else {
        unseen(seen, k - 1) + if seen[k - 1] {
            0int
        } else {
            1int
        }
    }
}

proof fn lemma_unseen_bounds(seen: Seq<bool>, k: int)
    requires
        0 <= k,
    ensures
        0 <= unseen(seen, k) <= k,
    decreases k,
{
    if k > 0 {
        lemma_unseen_bounds(seen, k - 1);
    }
}

proof fn lemma_unseen_drops(seen: Seq<bool>, t: int, k: int)
    requires
        0 <= t < seen.len(),
        !seen[t],
        0 <= k <= seen.len(),
    ensures
        unseen(seen, k) >= 0,
        unseen(seen.update(t, true), k) == unseen(seen, k) - if t < k {
            1int
        } else {
            0int
        },
    decreases k,
{
    if k > 0 {
        lemma_unseen_drops(seen, t, k - 1);
    }
}

/// The search state that the variables of `find_path` stand for.
spec fn search(
    m: Maze,
    start: State,
    food: Point,
    nodes: Seq<Node>,
    paths: Seq<Seq<Direction>>,
    seen: Seq<bool>,
    front: int,
    tried: int,
) -> Search {
    Search { maze: m, start, food, nodes, paths, seen, front, tried }
}

/// The queue holds the numbers of the nodes from `front` on, in their order.
spec fn waiting(queue: Seq<usize>, front: int, count: int) -> bool {
    &&& 0 <= front
    &&& queue.len() + front == count
    &&& forall|i: int| 0 <= i < queue.len() ==> #[trigger] queue[i] == front + i
}

/// Walks back from node `goal` to the start and lists the moves on the way:
/// the last move of the walk first, its first move last.
fn trace_back(nodes: &Vec<Node>, goal: usize, Ghost(g): Ghost<Search>) -> (steps: Vec<Direction>)
    requires
        g.inv(),
        g.nodes == nodes@,
        goal < nodes@.len(),
    ensures
        steps@.reverse() == g.paths[goal as int],
{
    let mut steps: Vec<Direction> = Vec::new();
    let mut cur: usize = goal;
    let ghost whole = g.paths[goal as int];
    while cur != 0
        invariant
            g.inv(),
            g.nodes == nodes@,
            cur < nodes@.len(),
            whole == g.paths[goal as int],
            steps@.len() + g.dep(cur as int) == whole.len(),
            g.paths[cur as int] == whole.take(g.dep(cur as int)),
            forall|k: int| 0 <= k < steps@.len() ==> steps@[k] == whole[whole.len() - 1 - k],
        decreases cur,
    {
        proof {
            assert(g.linked(cur as int));
            let p = g.nodes[cur as int].parent as int;
            assert(g.paths[p] =~= whole.take(g.dep(p)));
            assert(whole[g.dep(p)] == g.paths[cur as int][g.dep(p)]);
        }
        steps.push(nodes[cur].dir);
        cur = nodes[cur].parent;
    }
    proof {
        assert(steps@.reverse() =~= whole);
    }
    steps
}

/// Searches the shortest walk that leads the head of a snake to `food` on the
/// board of side `n`. The head is on `head` and has come from `second`, the
/// cell of the snake's second segment. A move may not leave the board, enter a
/// barrier or turn back into the cell that the head has just left.
///
/// The answer lists the moves of the best walk in the order in which they are
/// taken off a stack: the last move of the walk first, its first move last.
/// Where several walks are shortest, the answer is the one that makes the
/// earlier move of `Up`, `Down`, `Left`, `Right` at the first place where
/// they differ. Where no walk reaches the food, there is no answer.
pub fn find_path(n: i32, head: Cell, second: Cell, barriers: &[i32], food: Cell) -> (plan: Option<
    Vec<Direction>,
>)
    requires
        1 <= n,
        (n * n) * (n * n) <= usize::MAX,
        head@.on_board(n as int),
        second@.on_board(n as int),
    ensures
        match plan {
            Some(steps) => maze(n as int, barriers@).best_walk(
                State { pos: head@, prev: second@ },
                steps@.reverse(),
                food@,
            ),
            None => forall|w: Seq<Direction>|
                !maze(n as int, barriers@).reaches(State { pos: head@, prev: second@ }, w, food@),
        },
{
    let ghost m = maze(n as int, barriers@);
    let ghost start = State { pos: head@, prev: second@ };
    let side: usize = n as usize;
    proof {
        assert(side * side <= (side * side) * (side * side)) by (nonlinear_arith)
            requires
                1 <= side,
        ;
    }
    let area: usize = side * side;
    let walls: Vec<bool> = wall_grid(side, barriers, Ghost(m));
    let mut seen: Vec<bool> = blank(area * area);
    let head_id: usize = cell_index(side, head);
    let second_id: usize = cell_index(side, second);
    proof {
        lemma_pack_range(head_id as int, second_id as int, area as int, area as int);
    }
    seen.set(head_id * area + second_id, true);
    let mut nodes: Vec<Node> = Vec::new();
    nodes.push(Node { pos: head, prev: second, dir: Direction::Up, parent: 0 });
    let ghost mut paths: Seq<Seq<Direction>> = seq![Seq::<Direction>::empty()];
    let mut queue: VecDeque<usize> = VecDeque::new();
    queue.push_back(0);
    let ghost mut front: int = 0;
    proof {
        lemma_start(search(m, start, food@, nodes@, paths, seen@, 0, 0));
    }
    while queue.len() > 0
        invariant
            search(m, start, food@, nodes@, paths, seen@, front, 0).inv(),
            waiting(queue@, front, nodes@.len() as int),
            m == maze(n as int, barriers@),
            start == (State { pos: head@, prev: second@ }),
            1 <= n,
            side == n,
            area == side * side,
            area * area <= usize::MAX,
            walls@.len() == area,
            forall|p: Point| #[trigger] p.on_board(side as int) ==> walls@[cell_id(side as int, p)] == m.blocked(p),
        decreases unseen(seen@, seen@.len() as int) + nodes@.len() - front,
    {
        let cur: usize = queue.pop_front().unwrap();
        assert(cur == front);
        assert(waiting(queue@, front + 1, nodes@.len() as int));
        let pos: Cell = nodes[cur].pos;
        let prev: Cell = nodes[cur].prev;
        let ghost g0 = search(m, start, food@, nodes@, paths, seen@, front, 0);
        if pos.x == food.x && pos.y == food.y {
            proof {
                lemma_arrived(g0);
            }
            let steps: Vec<Direction> = trace_back(&nodes, cur, Ghost(g0));
            return Some(steps);
        }
        let ghost budget = unseen(seen@, seen@.len() as int) + nodes@.len();
        proof {
            lemma_unseen_bounds(seen@, seen@.len() as int);
        }
        let mut k: usize = 0;
        while k < 4
            invariant
                k <= 4,
                search(m, start, food@, nodes@, paths, seen@, front, k as int).inv(),
                waiting(queue@, front + 1, nodes@.len() as int),
                cur == front,
                nodes@[front].pos == pos,
                nodes@[front].prev == prev,
                pos@ != food@,
                m == maze(n as int, barriers@),
                1 <= n,
                side == n,
                area == side * side,
                area * area <= usize::MAX,
                walls@.len() == area,
                forall|p: Point| #[trigger] p.on_board(side as int) ==> walls@[cell_id(side as int, p)] == m.blocked(p),
                unseen(seen@, seen@.len() as int) + nodes@.len() == budget,
            decreases 4 - k,
        {
            let d: Direction = Direction::nth(k);
            let nx: i64 = pos.x as i64 + d.delta_x();
            let ny: i64 = pos.y as i64 + d.delta_y();
            let ghost g = search(m, start, food@, nodes@, paths, seen@, front, k as int);
            let ghost mut grown = false;
            proof {
                assert(g.st(front).placed(n as int));
                assert(g.st(front).pos.step(d) == crate::grid::at(nx as int, ny as int));
            }
            if !(nx == prev.x as i64 && ny == prev.y as i64) && 1 <= nx && nx <= n as i64 && 1 <= ny && ny
                <= n as i64 {
                let next: Cell = Cell { x: nx as i32, y: ny as i32 };
                let id: usize = cell_index(side, next);
                if !walls[id] {
                    let from: usize = cell_index(side, pos);
                    proof {
                        lemma_pack_range(id as int, from as int, area as int, area as int);
                    }
                    let t: usize = id * area + from;
                    if !seen[t] {
                        let node: Node = Node { pos: next, prev: pos, dir: d, parent: cur };
                        proof {
                            assert(next@.on_board(side as int));
                            assert(!m.blocked(next@));
                            assert(next@ == g.st(front).pos.step(d));
                            assert(g.st(front).prev == prev@);
                            assert(t == slot(n as int, node.state()));
                            assert(g.maze.may_enter(g.st(front), d));
                            lemma_unseen_drops(seen@, t as int, seen@.len() as int);
                            lemma_grow(g, node);
                            paths = paths.push(paths[front].push(d));
                            grown = true;
                        }
                        seen.set(t, true);
                        queue.push_back(nodes.len());
                        nodes.push(node);
                    } else {
                        proof {
                            assert(t == slot(n as int, g.st(front).advance(d)));
                        }
                    }
                }
            }
            proof {
                if !grown {
                    lemma_skip(g, d);
                }
            }
            k = k + 1;
        }
        proof {
            lemma_move_on(search(m, start, food@, nodes@, paths, seen@, front, 4));
            front = front + 1;
        }
    }
    proof {
        lemma_exhausted(search(m, start, food@, nodes@, paths, seen@, front, 0));
    }
    None
}

/// The best walk is a shortest one: no walk that reaches the food has fewer
/// moves.
pub proof fn lemma_best_walk_is_shortest(m: Maze, s: State, food: Point, w: Seq<Direction>, v: Seq<Direction>)
    requires
        m.best_walk(s, w, food),
        m.reaches(s, v, food),
    ensures
        w.len() <= v.len(),
{
}

/// No two walks are both the best one.
pub proof fn lemma_best_walk_unique(m: Maze, s: State, food: Point, v: Seq<Direction>, w: Seq<Direction>)
    requires
        m.best_walk(s, v, food),
        m.best_walk(s, w, food),
    ensures
        v == w,
{
    assert(m.reaches(s, v, food));
    assert(m.reaches(s, w, food));
    if v != w {
        let i = choose|k: int| differ_at(v, w, k);
        let j = choose|k: int| differ_at(w, v, k);
        assert(differ_at(v, w, i));
        assert(differ_at(w, v, j));
    }
}

} // verus!
