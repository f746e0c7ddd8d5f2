//! The plan of one game: a walk to the food, found once and followed move by
//! move.

use vstd::prelude::*;
use crate::greedy::{choose_direction, greedy_choice};
use crate::grid::{at, cells, Cell, Direction, Point};
use crate::pathfinder::{find_path, lemma_best_walk_unique, maze, State};

verus! {

/// The moves that are still to be made on the way to a food. The last entry
/// is the move to make next. A cache belongs to one game: clear it whenever
/// the barriers or the food change.
pub struct PlanCache {
    pub steps: Vec<Direction>,
}

impl View for PlanCache {
    type V = Seq<Direction>;

    open spec fn view(&self) -> Seq<Direction> {
        self.steps@
    }
}

impl PlanCache {
    /// A cache without a plan.
    pub fn new() -> (cache: PlanCache)
        ensures
            cache@.len() == 0,
    {
        PlanCache { steps: Vec::new() }
    }

    /// Throws the plan away.
    pub fn clear(&mut self)
        ensures
            final(self)@.len() == 0,
    {
        self.steps.clear();
    }

    /// The number of moves that are left of the plan.
    pub fn len(&self) -> (n: usize)
        ensures
            n == self@.len(),
    {
        self.steps.len()
    }

    /// Whether no move is left of the plan.
    pub fn is_empty(&self) -> (b: bool)
        ensures
            b == (self@.len() == 0),
    {
        self.steps.len() == 0
    }
}

/// The state of a snake whose flat body list is `body`: the head on the
/// first cell, come from the second.
pub open spec fn start_of(body: Seq<i32>) -> State {
    State { pos: at(body[0] as int, body[1] as int), prev: at(body[2] as int, body[3] as int) }
}

/// The cell of the first food that the flat list `food` names.
pub open spec fn target_of(food: Seq<i32>) -> Point {
    at(food[0] as int, food[1] as int)
}

/// The flat lists name a head and a second segment on the board of side `n`,
/// and a food.
pub open spec fn plannable(n: int, body: Seq<i32>, food: Seq<i32>) -> bool {
    &&& body.len() >= 4
    &&& food.len() >= 2
    &&& start_of(body).placed(n)
}

/// Some walk leads the snake to the food.
pub open spec fn reachable(n: int, body: Seq<i32>, food: Seq<i32>, barriers: Seq<i32>) -> bool {
    exists|w: Seq<Direction>| maze(n, barriers).reaches(start_of(body), w, target_of(food))
}

/// What one step of planning does to a cache that held `before`: it answers
/// `code` and leaves `after`.
///
/// A plan that is there gives its next move and loses it. Without a plan the
/// best walk to the food becomes the plan, gives its first move and loses it.
/// Where no walk reaches the food the answer is -1 and there is still no plan.
/// Where the head is on the food already, the best walk has no move to give:
/// the answer is the greedy move and there is still no plan.
pub open spec fn plan_step(
    n: int,
    body: Seq<i32>,
    food: Seq<i32>,
    barriers: Seq<i32>,
    before: Seq<Direction>,
    after: Seq<Direction>,
    code: int,
) -> bool {
    if before.len() > 0 {
        code == before.last().code_spec() && after == before.drop_last()
    } else if start_of(body).pos == target_of(food) {
        code == greedy_choice(n, cells(body), target_of(food)).code_spec() && after.len() == 0
    } else if !reachable(n, body, food, barriers) {
        code == -1 && after.len() == 0
    } else {
        exists|w: Seq<Direction>|
            {
                &&& maze(n, barriers).best_walk(start_of(body), w, target_of(food))
                &&& w.len() > 0
                &&& code == w[0].code_spec()
                &&& after == w.reverse().drop_last()
            }
    }
}

/// Searches the best walk from the snake's head, the first cell of `body`,
/// to the food on the board of side `n` and puts its moves on top of the
/// cache, the first move topmost. Tells whether the food can be reached;
/// where it cannot, the cache stays as it was.
pub fn search_plan(n: i32, body: &[i32], food: &[i32], barriers: &[i32], cache: &mut PlanCache) -> (found:
    bool)
    requires
        1 <= n,
        (n * n) * (n * n) <= usize::MAX,
        plannable(n as int, body@, food@),
    ensures
        found == reachable(n as int, body@, food@, barriers@),
        !found ==> final(cache)@ == old(cache)@,
        found ==> exists|w: Seq<Direction>|
            maze(n as int, barriers@).best_walk(start_of(body@), w, target_of(food@)) && final(cache)@
                == old(cache)@ + w.reverse(),
{
    let head: Cell = Cell { x: body[0], y: body[1] };
    let second: Cell = Cell { x: body[2], y: body[3] };
    let target: Cell = Cell { x: food[0], y: food[1] };
    assert(start_of(body@) == State { pos: head@, prev: second@ });
    assert(target_of(food@) == target@);
    match find_path(n, head, second, barriers, target) {
        Some(steps) => {
            let mut steps: Vec<Direction> = steps;
            let ghost w = steps@.reverse();
            proof {
                assert(w.reverse() =~= steps@);
                assert(maze(n as int, barriers@).reaches(start_of(body@), w, target_of(food@)));
            }
            cache.steps.append(&mut steps);
            true
        },
        None => false,
    }
}

/// Searches the best walk to the food on the board of side 8 and puts its
/// moves on top of the cache; see `search_plan`.
#[allow(non_snake_case)]
pub fn greedy_BFS(body: &[i32], food: &[i32], barriers: &[i32], cache: &mut PlanCache) -> (found: bool)
    requires
        plannable(8, body@, food@),
    ensures
        found == reachable(8, body@, food@, barriers@),
        !found ==> final(cache)@ == old(cache)@,
        found ==> exists|w: Seq<Direction>|
            maze(8, barriers@).best_walk(start_of(body@), w, target_of(food@)) && final(cache)@ == old(cache)@
                + w.reverse(),
{
    search_plan(8, body, food, barriers, cache)
}

/// Gives the next move of the snake towards the food on the board of side
/// `n`, by the number that stands for its direction, and takes that move off
/// the cache. An empty cache is filled first, as `search_plan` does it; where
/// the food cannot be reached the answer is -1 and the cache stays empty. A
/// snake whose head is on the food already has no walk to plan: it gets the
/// greedy move, and the cache stays empty.
///
/// Each call takes exactly one move off the plan: before the next call the
/// snake has to have made the move. While a plan is there neither the body
/// nor the barriers are looked at.
pub fn plan_move(n: i32, body: &[i32], food: &[i32], barriers: &[i32], cache: &mut PlanCache) -> (code: i32)
    requires
        old(cache)@.len() == 0 ==> {
            &&& 1 <= n
            &&& (n * n) * (n * n) <= usize::MAX
            &&& plannable(n as int, body@, food@)
        },
    ensures
        plan_step(n as int, body@, food@, barriers@, old(cache)@, final(cache)@, code as int),
{
    if cache.steps.len() == 0 {
        if body[0] == food[0] && body[1] == food[1] {
            return choose_direction(n, body, Cell { x: food[0], y: food[1] }).code();
        }
        if !search_plan(n, body, food, barriers, cache) {
            return -1;
        }
        proof {
            let w = choose|w: Seq<Direction>|
                maze(n as int, barriers@).best_walk(start_of(body@), w, target_of(food@)) && cache@ == old(cache)@
                    + w.reverse();
            assert(cache@ =~= w.reverse());
            assert(maze(n as int, barriers@).reaches(start_of(body@), w, target_of(food@)));
            assert(w.len() > 0);
            assert(w.reverse().last() == w[0]);
        }
    }
    match cache.steps.pop() {
        Some(d) => d.code(),
        None => -1,
    }
}

/// Gives the next move of the snake towards the food on the board of side 8
/// and takes it off the cache; see `plan_move`.
pub fn greedy_snake_move_barriers(body: &[i32], food: &[i32], barriers: &[i32], cache: &mut PlanCache) -> (code:
    i32)
    requires
        old(cache)@.len() == 0 ==> plannable(8, body@, food@),
    ensures
        plan_step(8, body@, food@, barriers@, old(cache)@, final(cache)@, code as int),
{
    plan_move(8, body, food, barriers, cache)
}

/// Two steps of planning in a row, on a plan of two moves or more, give the
/// next move and then the move after it: a step never gives the same entry of
/// the plan twice, whatever lists it is handed.
pub proof fn lemma_steps_follow_the_plan(
    n: int,
    first: (Seq<i32>, Seq<i32>, Seq<i32>),
    second: (Seq<i32>, Seq<i32>, Seq<i32>),
    plan: Seq<Direction>,
    rest: Seq<Direction>,
    left: Seq<Direction>,
    code: int,
    next: int,
)
    requires
        plan.len() >= 2,
        plan_step(n, first.0, first.1, first.2, plan, rest, code),
        plan_step(n, second.0, second.1, second.2, rest, left, next),
    ensures
        code == plan[plan.len() - 1].code_spec(),
        next == plan[plan.len() - 2].code_spec(),
        left == plan.take(plan.len() - 2),
{
    assert(rest == plan.drop_last());
    assert(left =~= plan.take(plan.len() - 2));
}

/// Step `i` of a run of steps that starts without a plan gives move `i` of
/// the best walk and leaves the moves after it.
proof fn lemma_run_step(
    n: int,
    bodies: Seq<Seq<i32>>,
    food: Seq<i32>,
    barriers: Seq<i32>,
    caches: Seq<Seq<Direction>>,
    codes: Seq<int>,
    w: Seq<Direction>,
    i: int,
)
    requires
        w.len() >= 1,
        maze(n, barriers).best_walk(start_of(bodies[0]), w, target_of(food)),
        bodies.len() == w.len(),
        codes.len() == w.len(),
        caches.len() == w.len() + 1,
        caches[0].len() == 0,
        forall|k: int|
            0 <= k < w.len() ==> plan_step(n, #[trigger] bodies[k], food, barriers, caches[k], caches[k + 1], codes[k]),
        0 <= i < w.len(),
    ensures
        codes[i] == w[i].code_spec(),
        caches[i + 1] == w.reverse().take(w.len() - 1 - i),
    decreases i,
{
    let m = maze(n, barriers);
    let s = start_of(bodies[0]);
    let t = target_of(food);
    assert(plan_step(n, bodies[i], food, barriers, caches[i], caches[i + 1], codes[i]));
    if i == 0 {
        assert(m.reaches(s, w, t));
        if s.pos == t {
            assert(m.reaches(s, Seq::<Direction>::empty(), t));
        }
        let v = choose|v: Seq<Direction>|
            {
                &&& m.best_walk(s, v, t)
                &&& v.len() > 0
                &&& codes[0] == v[0].code_spec()
                &&& caches[1] == v.reverse().drop_last()
            };
        lemma_best_walk_unique(m, s, t, v, w);
        assert(w.reverse().drop_last() =~= w.reverse().take(w.len() - 1));
    } else {
        lemma_run_step(n, bodies, food, barriers, caches, codes, w, i - 1);
        assert(caches[i].len() == w.len() - i);
        assert(caches[i].last() == w[i]);
        assert(caches[i].drop_last() =~= w.reverse().take(w.len() - 1 - i));
    }
}

/// A whole run follows the best walk. The run starts without a plan, where a
/// best walk `w` of one move or more leads to the food, and makes as many
/// steps as `w` has moves: step `k` is handed the lists `bodies[k]`, finds the
/// cache `caches[k]`, answers `codes[k]` and leaves `caches[k + 1]`.
///
/// Then the answers are the moves of `w` in turn, so that they lead the snake
/// to the food along a shortest walk, each step leaves one move less, and the
/// plan is used up by the last step and by none before it.
pub proof fn lemma_run_follows_the_best_walk(
    n: int,
    bodies: Seq<Seq<i32>>,
    food: Seq<i32>,
    barriers: Seq<i32>,
    caches: Seq<Seq<Direction>>,
    codes: Seq<int>,
    w: Seq<Direction>,
)
    requires
        w.len() >= 1,
        maze(n, barriers).best_walk(start_of(bodies[0]), w, target_of(food)),
        bodies.len() == w.len(),
        codes.len() == w.len(),
        caches.len() == w.len() + 1,
        caches[0].len() == 0,
        forall|k: int|
            0 <= k < w.len() ==> plan_step(n, #[trigger] bodies[k], food, barriers, caches[k], caches[k + 1], codes[k]),
    ensures
        maze(n, barriers).reaches(start_of(bodies[0]), w, target_of(food)),
        forall|i: int| 0 <= i < w.len() ==> #[trigger] codes[i] == w[i].code_spec(),
        forall|i: int| 0 <= i < w.len() ==> (#[trigger] caches[i + 1]).len() == w.len() - 1 - i,
        caches[w.len() as int].len() == 0,
{
    assert forall|i: int| 0 <= i < w.len() implies #[trigger] codes[i] == w[i].code_spec() by {
        lemma_run_step(n, bodies, food, barriers, caches, codes, w, i);
    }
    assert forall|i: int| 0 <= i < w.len() implies (#[trigger] caches[i + 1]).len() == w.len() - 1 - i by {
        lemma_run_step(n, bodies, food, barriers, caches, codes, w, i);
    }
    lemma_run_step(n, bodies, food, barriers, caches, codes, w, w.len() - 1);
}

} // verus!
