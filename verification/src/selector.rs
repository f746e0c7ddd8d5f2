//! The move of a snake on a board that it shares with rivals: the safe move
//! whose cell scores best.

use vstd::prelude::*;
use crate::evaluator::{arena, get_evaluated, lemma_ratio_chain, stays, Arena, Score};
use crate::greedy::{body_blocks, choose_direction, greedy_choice, hits_body};
use crate::grid::{at, cells, Cell, Direction, Point};
use crate::planner::{plan_move, plan_step, plannable, target_of, PlanCache};

verus! {

/// A rival segment that stays fills the cell.
pub open spec fn hits_rival(rivals: Seq<Point>, p: Point) -> bool {
    exists|k: int| 0 <= k < rivals.len() && stays(k) && #[trigger] rivals[k] == p
}

/// The move `d` of the head keeps the snake on the board and off every
/// segment, its own or a rival's, that stays where it is.
pub open spec fn safe_move(a: Arena, me: Seq<Point>, d: Direction) -> bool {
    &&& me[0].step(d).on_board(a.board)
    &&& !hits_body(me, me[0].step(d))
    &&& !hits_rival(a.rivals, me[0].step(d))
}

/// The score of the cell that the move `d` leads to.
pub open spec fn score_after(a: Arena, me: Seq<Point>, d: Direction) -> Score {
    a.score(me[0].step(d), me[0])
}

/// The move `d` is safe, no safe move scores better, and every safe move
/// that comes before `d` in the order of directions scores worse.
pub open spec fn is_selected(a: Arena, me: Seq<Point>, d: Direction) -> bool {
    &&& safe_move(a, me, d)
    &&& forall|e: Direction| #[trigger]
        safe_move(a, me, e) ==> !score_after(a, me, e).better_than(score_after(a, me, d))
    &&& forall|e: Direction| #[trigger]
        safe_move(a, me, e) && e.rank() < d.rank() ==> score_after(a, me, d).better_than(
            score_after(a, me, e),
        )
}

/// Some move is safe.
pub open spec fn has_safe_move(a: Arena, me: Seq<Point>) -> bool {
    exists|d: Direction| safe_move(a, me, d)
}

/// The number of the selected move, or 0 where no move is safe.
pub open spec fn decision(a: Arena, me: Seq<Point>) -> int {
    if has_safe_move(a, me) {
        (choose|d: Direction| is_selected(a, me, d)).code_spec()
    } else {
        0
    }
}

/// Only one move is the selected one.
pub proof fn lemma_selected_unique(a: Arena, me: Seq<Point>, d: Direction, e: Direction)
    requires
        is_selected(a, me, d),
        is_selected(a, me, e),
    ensures
        d == e,
{
    if d.rank() < e.rank() {
        assert(safe_move(a, me, d));
    } else if e.rank() < d.rank() {
        assert(safe_move(a, me, e));
    }
}

/// The selected move never leads to a cell of the rim that a rival segment
/// is on or next to while some safe move leads to a cell with a score.
pub proof fn lemma_never_pinned(a: Arena, me: Seq<Point>, d: Direction, e: Direction)
    requires
        is_selected(a, me, d),
        safe_move(a, me, e),
        score_after(a, me, e) is Finite,
    ensures
        score_after(a, me, d) is Finite,
        !a.rim_threat(me[0].step(d)),
        !a.corner_threat(me[0].step(d), me[0]),
{
    assert(!score_after(a, me, e).better_than(score_after(a, me, d)));
}

/// Scores are ordered in a chain.
proof fn lemma_score_chain(x: Score, y: Score, z: Score)
    requires
        x.wf(),
        y.wf(),
        z.wf(),
        x.better_than(y),
        !z.better_than(y),
    ensures
        x.better_than(z),
{
    match (x, y, z) {
        (Score::Finite { num: a1, den: c1 }, Score::Finite { num: a2, den: c2 }, Score::Finite {
            num: a3,
            den: c3,
        }) => {
            lemma_ratio_chain(
                a1 as int,
                c1 as int,
                a2 as int,
                c2 as int,
                a3 as int,
                c3 as int,
            );
        },
        _ => {},
    }
}

/// Whether a segment that stays, of the snake or of a rival, fills the cell
/// (`x`, `y`).
fn occupied(me: &[i32], other: &[i32], x: i32, y: i32) -> (hit: bool)
    requires
        me@.len() >= 2,
    ensures
        hit == (hits_body(cells(me@), at(x as int, y as int)) || hits_rival(
            cells(other@),
            at(x as int, y as int),
        )),
{
    if body_blocks(me, x as i64, y as i64) {
        return true;
    }
    let total: usize = other.len() / 2;
    let mut k: usize = 0;
    while k < total
        invariant
            total == other@.len() / 2,
            2 * total <= usize::MAX,
            k <= total,
            forall|j: int| 0 <= j < k ==> !(stays(j) && #[trigger] cells(other@)[j] == at(x as int, y as int)),
        decreases total - k,
    {
        if k % 4 != 3 && other[2 * k] == x && other[2 * k + 1] == y {
            assert(stays(k as int) && cells(other@)[k as int] == at(x as int, y as int));
            return true;
        }
        k = k + 1;
    }
    false
}

/// The list holds the safe moves, in the order of directions, each with the
/// score of the cell that it leads to.
pub open spec fn rated(a: Arena, me: Seq<Point>, moves: Seq<(Direction, Score)>) -> bool {
    &&& forall|i: int|
        0 <= i < moves.len() ==> safe_move(a, me, (#[trigger] moves[i]).0) && moves[i].1 == score_after(
            a,
            me,
            moves[i].0,
        )
    &&& forall|i: int, j: int|
        0 <= i < j < moves.len() ==> (#[trigger] moves[i]).0.rank() < (#[trigger] moves[j]).0.rank()
    &&& forall|d: Direction| #[trigger]
        safe_move(a, me, d) ==> exists|i: int| 0 <= i < moves.len() && (#[trigger] moves[i]).0 == d
}

/// Lists the safe moves of the snake `me` on a board of side `n` that it
/// shares with the rivals in `other`, in the order `Up`, `Down`, `Left`,
/// `Right`, each with the score of the cell that it leads to.
pub fn rate_moves(
    n: i32,
    me: &[i32],
    other: &[i32],
    food_num: i32,
    foods: &[i32],
    snake_num: i32,
    round: i32,
) -> (moves: Vec<(Direction, Score)>)
    requires
        me@.len() >= 2,
    ensures
        rated(arena(n, foods@, food_num, other@, snake_num, round), cells(me@), moves@),
        forall|i: int| 0 <= i < moves@.len() ==> (#[trigger] moves@[i]).1.wf(),
{
    let ghost a = arena(n, foods@, food_num, other@, snake_num, round);
    let ghost pts = cells(me@);
    let head_x: i32 = me[0];
    let head_y: i32 = me[1];
    assert(pts[0] == at(head_x as int, head_y as int));
    let mut moves: Vec<(Direction, Score)> = Vec::new();
    let mut k: usize = 0;
    while k < 4
        invariant
            k <= 4,
            me@.len() >= 2,
            a == arena(n, foods@, food_num, other@, snake_num, round),
            pts == cells(me@),
            pts[0] == at(head_x as int, head_y as int),
            forall|i: int| 0 <= i < moves@.len() ==> (#[trigger] moves@[i]).1.wf(),
            forall|i: int|
                0 <= i < moves@.len() ==> safe_move(a, pts, (#[trigger] moves@[i]).0) && moves@[i].1
                    == score_after(a, pts, moves@[i].0) && moves@[i].0.rank() < k,
            forall|i: int, j: int|
                0 <= i < j < moves@.len() ==> (#[trigger] moves@[i]).0.rank() < (#[trigger] moves@[j]).0.rank(),
            forall|d: Direction| #[trigger]
                safe_move(a, pts, d) && d.rank() < k ==> exists|i: int|
                    0 <= i < moves@.len() && (#[trigger] moves@[i]).0 == d,
        decreases 4 - k,
    {
        let d: Direction = Direction::nth(k);
        let x: i64 = head_x as i64 + d.delta_x();
        let y: i64 = head_y as i64 + d.delta_y();
        assert(pts[0].step(d) == at(x as int, y as int));
        let ghost before = moves@;
        if 1 <= x && x <= n as i64 && 1 <= y && y <= n as i64 {
            let cx: i32 = x as i32;
            let cy: i32 = y as i32;
            if !occupied(me, other, cx, cy) {
                let score: Score = get_evaluated(
                    cx,
                    cy,
                    food_num,
                    foods,
                    other,
                    n,
                    snake_num,
                    round,
                    head_x,
                    head_y,
                );
                moves.push((d, score));
            }
        }
        proof {
            assert forall|e: Direction| #[trigger] safe_move(a, pts, e) && e.rank() < k + 1 implies exists|i: int|
                0 <= i < moves@.len() && (#[trigger] moves@[i]).0 == e by {
                if e.rank() < k {
                    let i = choose|i: int| 0 <= i < before.len() && (#[trigger] before[i]).0 == e;
                    assert(moves@[i].0 == e);
                } else {
                    assert(e == d);
                    assert(moves@[before.len() as int].0 == d);
                }
            }
        }
        k = k + 1;
    }
    proof {
        assert forall|d: Direction| #[trigger] safe_move(a, pts, d) implies exists|i: int|
            0 <= i < moves@.len() && (#[trigger] moves@[i]).0 == d by {
            assert(d.rank() < 4);
        }
    }
    moves
}

/// Decides the move of the snake `me` on a board of side `n` that it shares
/// with the rivals in `other`, and gives the number that stands for its
/// direction: 0 for up, 1 for left, 2 for down, 3 for right.
///
/// A move is safe where it stays on the board and enters no cell of a
/// segment that stays: the tails, of the snake and of each rival, leave their
/// cells. Each safe move is scored by the cell that it leads to, and the move
/// with the best score is taken, the first of them in the order `Up`, `Down`,
/// `Left`, `Right`. Where no move is safe the answer is 0.
pub fn solution(
    n: i32,
    me: &[i32],
    other: &[i32],
    food_num: i32,
    foods: &[i32],
    snake_num: i32,
    round: i32,
) -> (code: i32)
    requires
        me@.len() >= 2,
    ensures
        code == decision(arena(n, foods@, food_num, other@, snake_num, round), cells(me@)),
        has_safe_move(arena(n, foods@, food_num, other@, snake_num, round), cells(me@)) ==> exists|d: Direction|
            is_selected(arena(n, foods@, food_num, other@, snake_num, round), cells(me@), d) && code
                == d.code_spec(),
{
    let ghost a = arena(n, foods@, food_num, other@, snake_num, round);
    let ghost pts = cells(me@);
    let moves: Vec<(Direction, Score)> = rate_moves(n, me, other, food_num, foods, snake_num, round);
    if moves.len() == 0 {
        proof {
            assert forall|e: Direction| !safe_move(a, pts, e) by {
                if safe_move(a, pts, e) {
                    let i = choose|i: int| 0 <= i < moves@.len() && (#[trigger] moves@[i]).0 == e;
                }
            }
        }
        return 0;
    }
    let mut best: usize = 0;
    let mut k: usize = 1;
    while k < moves.len()
        invariant
            1 <= k <= moves@.len(),
            best < k,
            rated(a, pts, moves@),
            forall|i: int| 0 <= i < moves@.len() ==> (#[trigger] moves@[i]).1.wf(),
            forall|i: int| 0 <= i < k ==> !(#[trigger] moves@[i]).1.better_than(moves@[best as int].1),
            forall|i: int| 0 <= i < best ==> moves@[best as int].1.better_than((#[trigger] moves@[i]).1),
        decreases moves@.len() - k,
    {
        if moves[k].1.is_better_than(&moves[best].1) {
            proof {
                assert forall|i: int| 0 <= i < k implies moves@[k as int].1.better_than(
                    (#[trigger] moves@[i]).1,
                ) by {
                    lemma_score_chain(moves@[k as int].1, moves@[best as int].1, moves@[i].1);
                }
            }
            best = k;
        }
        k = k + 1;
    }
    let d: Direction = moves[best].0;
    proof {
        assert(safe_move(a, pts, moves@[best as int].0));
        assert forall|e: Direction| #[trigger] safe_move(a, pts, e) implies !score_after(a, pts, e).better_than(
            score_after(a, pts, d),
        ) && (e.rank() < d.rank() ==> score_after(a, pts, d).better_than(score_after(a, pts, e))) by {
            let i = choose|i: int| 0 <= i < moves@.len() && (#[trigger] moves@[i]).0 == e;
            assert(moves@[i].1 == score_after(a, pts, e));
            if e.rank() < d.rank() {
                if i >= best {
                    if i > best {
                        assert(moves@[best as int].0.rank() < moves@[i].0.rank());
                    }
                }
                assert(i < best);
            }
        }
        assert(is_selected(a, pts, d));
        lemma_selected_unique(a, pts, d, choose|d: Direction| is_selected(a, pts, d));
    }
    d.code()
}

/// Decides the move of a snake in one round of a shared game; see
/// `solution`, which takes the same arguments in another order.
pub fn greedy_snake_step(
    n: i32,
    me: &[i32],
    snake_num: i32,
    other: &[i32],
    food_num: i32,
    foods: &[i32],
    round: i32,
) -> (code: i32)
    requires
        me@.len() >= 2,
    ensures
        code == decision(arena(n, foods@, food_num, other@, snake_num, round), cells(me@)),
        has_safe_move(arena(n, foods@, food_num, other@, snake_num, round), cells(me@)) ==> exists|d: Direction|
            is_selected(arena(n, foods@, food_num, other@, snake_num, round), cells(me@), d) && code
                == d.code_spec(),
{
    solution(n, me, other, food_num, foods, snake_num, round)
}

/// The way in which a move is decided.
#[derive(Clone, Copy, Debug, PartialEq, Eq, Structural)]
pub enum Mode {
    /// Straight towards the first food, around the snake's own body: for a
    /// board without barriers.
    Greedy,
    /// Along the planned walk to the first food: for a board with barriers.
    Planned,
    /// By the scores of the cells: for a board shared with rivals.
    Shared,
}

/// Whether any move keeps the snake on the board and off every segment that
/// stays.
fn any_safe_move(n: i32, me: &[i32], other: &[i32], Ghost(a): Ghost<Arena>) -> (any: bool)
    requires
        me@.len() >= 2,
        a.board == n,
        a.rivals == cells(other@),
    ensures
        any == has_safe_move(a, cells(me@)),
{
    let ghost pts = cells(me@);
    let head_x: i64 = me[0] as i64;
    let head_y: i64 = me[1] as i64;
    assert(pts[0] == at(head_x as int, head_y as int));
    let mut k: usize = 0;
    while k < 4
        invariant
            k <= 4,
            me@.len() >= 2,
            a.board == n,
            a.rivals == cells(other@),
            pts == cells(me@),
            pts[0] == at(head_x as int, head_y as int),
            head_x == me@[0],
            head_y == me@[1],
            forall|e: Direction| e.rank() < k ==> !safe_move(a, pts, e),
        decreases 4 - k,
    {
        let d: Direction = Direction::nth(k);
        let x: i64 = head_x + d.delta_x();
        let y: i64 = head_y + d.delta_y();
        assert(pts[0].step(d) == at(x as int, y as int));
        if 1 <= x && x <= n as i64 && 1 <= y && y <= n as i64 {
            if !occupied(me, other, x as i32, y as i32) {
                assert(safe_move(a, pts, d));
                return true;
            }
        }
        k = k + 1;
    }
    proof {
        assert forall|e: Direction| !safe_move(a, pts, e) by {
            assert(e.rank() < 4);
        }
    }
    false
}

/// Decides the move of the snake `me` for one tick and gives the number that
/// stands for its direction.
///
/// Where no move is safe, that is where every move leaves the board of side
/// `n` or enters a segment, of the snake or of a rival, that stays, the
/// answer is 0 and the plan is not touched. Else the mode decides: the greedy
/// move towards the first food, the next move of the plan (-1 where the food
/// cannot be reached), or the safe move whose cell scores best.
pub fn decide(
    mode: Mode,
    n: i32,
    me: &[i32],
    other: &[i32],
    foods: &[i32],
    barriers: &[i32],
    food_num: i32,
    snake_num: i32,
    round: i32,
    cache: &mut PlanCache,
) -> (code: i32)
    requires
        me@.len() >= 2,
        mode is Greedy ==> foods@.len() >= 2,
        mode is Planned && old(cache)@.len() == 0 ==> {
            &&& 1 <= n
            &&& (n * n) * (n * n) <= usize::MAX
            &&& plannable(n as int, me@, foods@)
        },
    ensures
        !has_safe_move(arena(n, foods@, food_num, other@, snake_num, round), cells(me@)) ==> code == 0
            && final(cache)@ == old(cache)@,
        has_safe_move(arena(n, foods@, food_num, other@, snake_num, round), cells(me@)) ==> match mode {
            Mode::Greedy => code == greedy_choice(n as int, cells(me@), target_of(foods@)).code_spec()
                && final(cache)@ == old(cache)@,
            Mode::Planned => plan_step(
                n as int,
                me@,
                foods@,
                barriers@,
                old(cache)@,
                final(cache)@,
                code as int,
            ),
            Mode::Shared => code == decision(
                arena(n, foods@, food_num, other@, snake_num, round),
                cells(me@),
            ) && final(cache)@ == old(cache)@,
        },
{
    let ghost a = arena(n, foods@, food_num, other@, snake_num, round);
    if !any_safe_move(n, me, other, Ghost(a)) {
        return 0;
    }
    match mode {
        Mode::Greedy => choose_direction(n, me, Cell { x: foods[0], y: foods[1] }).code(),
        Mode::Planned => plan_move(n, me, foods, barriers, cache),
        Mode::Shared => solution(n, me, other, food_num, foods, snake_num, round),
    }
}

} // verus!
