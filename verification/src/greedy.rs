//! The greedy chooser: one move towards a single food, around the snake's
//! own body.

use vstd::prelude::*;
use crate::grid::{at, cells, gap, manhattan, manhattan_of, Cell, Direction, Point};

verus! {

/// The cell is filled by a segment of the body that stays: any segment but
/// the head, which moves on, and the tail, which leaves its cell.
pub open spec fn hits_body(body: Seq<Point>, p: Point) -> bool {
    exists|i: int| 1 <= i < body.len() - 1 && #[trigger] body[i] == p
}

/// The move `d` of the head keeps the snake on the board of side `n` and off
/// its own body.
pub open spec fn safe_step(n: int, body: Seq<Point>, d: Direction) -> bool {
    body[0].step(d).on_board(n) && !hits_body(body, body[0].step(d))
}

/// The move of a snake that has no safe move: along the axis on which the
/// food is farther away, towards the food. Where the food is equally far on
/// both axes the y axis is taken, and on the y axis the snake goes down
/// unless the food lies above it.
pub open spec fn forced_move(head: Point, food: Point) -> Direction {
    if gap(head.x, food.x) > gap(head.y, food.y) {
        if food.x > head.x {
            Direction::Right
        } else {
            Direction::Left
        }
    } else {
        if food.y > head.y {
            Direction::Up
        } else {
            Direction::Down
        }
    }
}

/// Distance of the food from the cell that the move `d` leads to.
pub open spec fn distance_after(body: Seq<Point>, food: Point, d: Direction) -> int {
    manhattan(body[0].step(d), food)
}

/// The move `d` is the greedy one. Where a safe move exists, `d` is safe, no
/// safe move ends nearer to the food, and every safe move that comes before
/// `d` in the order of directions ends farther from it. Where none exists,
/// `d` is the forced move.
pub open spec fn is_greedy(n: int, body: Seq<Point>, food: Point, d: Direction) -> bool {
    if exists|e: Direction| safe_step(n, body, e) {
        &&& safe_step(n, body, d)
        &&& forall|e: Direction| #[trigger]
            safe_step(n, body, e) ==> distance_after(body, food, d) <= distance_after(body, food, e)
        &&& forall|e: Direction| #[trigger]
            safe_step(n, body, e) && e.rank() < d.rank() ==> distance_after(body, food, d) < distance_after(
                body,
                food,
                e,
            )
    } else {
        d == forced_move(body[0], food)
    }
}

/// The greedy move.
pub open spec fn greedy_choice(n: int, body: Seq<Point>, food: Point) -> Direction {
    choose|d: Direction| is_greedy(n, body, food, d)
}

/// Only one move is the greedy one.
pub proof fn lemma_greedy_unique(n: int, body: Seq<Point>, food: Point, d: Direction, e: Direction)
    requires
        is_greedy(n, body, food, d),
        is_greedy(n, body, food, e),
    ensures
        d == e,
{
    if d.rank() < e.rank() {
        assert(safe_step(n, body, d));
    } else if e.rank() < d.rank() {
        assert(safe_step(n, body, e));
    }
}

/// Where any move is safe, the greedy move is safe: it stays on the board
/// and enters no cell of the body but the tail's.
pub proof fn lemma_greedy_is_safe(n: int, body: Seq<Point>, food: Point, e: Direction)
    requires
        safe_step(n, body, e),
    ensures
        safe_step(n, body, greedy_choice(n, body, food)),
{
    let d = lemma_greedy_exists(n, body, food);
    lemma_greedy_unique(n, body, food, d, greedy_choice(n, body, food));
}

/// The better of the move found so far and the move `d`, which comes later
/// in the order of directions.
spec fn pick(n: int, body: Seq<Point>, food: Point, found: Option<Direction>, d: Direction) -> Option<
    Direction,
> {
    if !safe_step(n, body, d) {
        found
    } else {
        match found {
            Some(b) => if distance_after(body, food, d) < distance_after(body, food, b) {
                Some(d)
            } else {
                found
            },
            None => Some(d),
        }
    }
}

/// Some move is the greedy one.
pub proof fn lemma_greedy_exists(n: int, body: Seq<Point>, food: Point) -> (d: Direction)
    ensures
        is_greedy(n, body, food, d),
{
    let s1 = pick(n, body, food, None, Direction::Up);
    let s2 = pick(n, body, food, s1, Direction::Down);
    let s3 = pick(n, body, food, s2, Direction::Left);
    let s4 = pick(n, body, food, s3, Direction::Right);
    let d = match s4 {
        Some(b) => b,
        None => forced_move(body[0], food),
    };
    assert forall|e: Direction| s4 is None implies !safe_step(n, body, e) by {
        assert(e.rank() < 4);
    }
    if s4 is Some {
        assert forall|e: Direction| #[trigger] safe_step(n, body, e) implies distance_after(body, food, d)
            <= distance_after(body, food, e) by {
            assert(e.rank() < 4);
        }
        assert forall|e: Direction| #[trigger] safe_step(n, body, e) && e.rank() < d.rank() implies distance_after(
            body,
            food,
            d,
        ) < distance_after(body, food, e) by {
            assert(e.rank() < 4);
        }
    }
    d
}

/// Whether a segment of the body that stays fills the cell (`x`, `y`).
pub(crate) fn body_blocks(body: &[i32], x: i64, y: i64) -> (hit: bool)
    requires
        body@.len() >= 2,
    ensures
        hit == hits_body(cells(body@), at(x as int, y as int)),
{
    let segments: usize = body.len() / 2;
    let mut i: usize = 1;
    while i + 1 < segments
        invariant
            segments == body@.len() / 2,
            2 * segments <= usize::MAX,
            1 <= i <= segments,
            forall|j: int| 1 <= j < i && j < segments - 1 ==> #[trigger] cells(body@)[j] != at(x as int, y as int),
        decreases segments - i,
    {
        if body[2 * i] as i64 == x && body[2 * i + 1] as i64 == y {
            assert(cells(body@)[i as int] == at(x as int, y as int));
            return true;
        }
        i = i + 1;
    }
    false
}

/// Chooses the move of a snake towards `food` on the board of side `n`. The
/// body is a flat list of cells, the head first.
///
/// A move is safe where it stays on the board and enters no cell of the body
/// but the tail's. Among the safe moves the one that ends nearest to the food
/// is taken, the first of them in the order `Up`, `Down`, `Left`, `Right`.
/// A snake without a safe move goes towards the food along the axis on which
/// the food is farther away, whatever is in the way.
pub fn choose_direction(n: i32, body: &[i32], food: Cell) -> (d: Direction)
    requires
        body@.len() >= 2,
    ensures
        d == greedy_choice(n as int, cells(body@), food@),
        is_greedy(n as int, cells(body@), food@, d),
        (exists|e: Direction| safe_step(n as int, cells(body@), e)) ==> safe_step(n as int, cells(body@), d),
{
    let ghost pts = cells(body@);
    let head_x: i64 = body[0] as i64;
    let head_y: i64 = body[1] as i64;
    let fx: i64 = food.x as i64;
    let fy: i64 = food.y as i64;
    assert(pts[0] == at(head_x as int, head_y as int));
    let mut have: bool = false;
    let mut best: Direction = Direction::Up;
    let mut least: i64 = 0;
    let mut k: usize = 0;
    while k < 4
        invariant
            k <= 4,
            body@.len() >= 2,
            pts == cells(body@),
            pts[0] == at(head_x as int, head_y as int),
            head_x == body@[0],
            head_y == body@[1],
            fx == food.x,
            fy == food.y,
            !have ==> forall|e: Direction| e.rank() < k ==> !safe_step(n as int, pts, e),
            have ==> safe_step(n as int, pts, best) && best.rank() < k && least == distance_after(
                pts,
                food@,
                best,
            ),
            have ==> forall|e: Direction| #[trigger]
                safe_step(n as int, pts, e) && e.rank() < k ==> least <= distance_after(pts, food@, e),
            have ==> forall|e: Direction| #[trigger]
                safe_step(n as int, pts, e) && e.rank() < best.rank() ==> least < distance_after(pts, food@, e),
        decreases 4 - k,
    {
        let d: Direction = Direction::nth(k);
        let x: i64 = head_x + d.delta_x();
        let y: i64 = head_y + d.delta_y();
        assert(pts[0].step(d) == at(x as int, y as int));
        if 1 <= x && x <= n as i64 && 1 <= y && y <= n as i64 && !body_blocks(body, x, y) {
            let dist: i64 = manhattan_of(x, y, fx, fy);
            if !have || dist < least {
                have = true;
                best = d;
                least = dist;
            }
        }
        k = k + 1;
    }
    if !have {
        let dx: i64 = fx - head_x;
        let dy: i64 = fy - head_y;
        let wide: i64 = if dx < 0 {
            -dx
        } else {
            dx
        };
        let tall: i64 = if dy < 0 {
            -dy
        } else {
            dy
        };
        best =
        if wide > tall {
            if dx > 0 {
                Direction::Right
            } else {
                Direction::Left
            }
        } else {
            if dy > 0 {
                Direction::Up
            } else {
                Direction::Down
            }
        };
    }
    proof {
        assert forall|e: Direction| !have implies !safe_step(n as int, pts, e) by {
            assert(e.rank() < 4);
        }
        assert(is_greedy(n as int, pts, food@, best));
        lemma_greedy_unique(n as int, pts, food@, best, greedy_choice(n as int, pts, food@));
    }
    best
}

/// Chooses the move of a snake towards a food on the board of side 8 and
/// gives the number that stands for its direction: 0 for up, 1 for left, 2
/// for down, 3 for right. `body` is the flat list of the snake's cells, the
/// head first; `food` holds the two coordinates of the food.
pub fn greedy_snake_move(body: &[i32], food: &[i32]) -> (code: i32)
    requires
        body@.len() >= 2,
        food@.len() >= 2,
    ensures
        code == greedy_choice(8, cells(body@), at(food@[0] as int, food@[1] as int)).code_spec(),
{
    choose_direction(8, body, Cell { x: food[0], y: food[1] }).code()
}

} // verus!
