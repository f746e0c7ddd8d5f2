//! Scoring of a candidate cell on a board shared with rival snakes.

use vstd::prelude::*;
use crate::grid::{at, cells, manhattan, manhattan_of, near_i32, touching, Point};

verus! {

/// What a candidate cell is worth: a ratio, the smaller the better, or the
/// verdict that the cell must not be entered.
#[derive(Clone, Copy, Debug, PartialEq, Eq, Structural)]
pub enum Score {
    /// The ratio `num / den`.
    Finite { num: i128, den: i64 },
    /// Never choose this candidate while another one has a ratio.
    Forbidden,
}

/// `a / c < b / d` for positive `c` and `d`.
pub open spec fn ratio_less(a: int, c: int, b: int, d: int) -> bool {
    a * d < b * c
}

impl Score {
    /// The denominator is positive and the numerator small enough to be
    /// multiplied by a denominator.
    pub open spec fn wf(self) -> bool {
        match self {
            Score::Finite { num, den } => den >= 1 && -0x1_0000_0000_0000_0000 <= num
                <= 0x1_0000_0000_0000_0000,
            Score::Forbidden => true,
        }
    }

    /// Strictly better: a smaller ratio, or a ratio against none.
    pub open spec fn better_than(self, other: Score) -> bool {
        match self {
            Score::Finite { num: a, den: c } => match other {
                Score::Finite { num: b, den: d } => ratio_less(a as int, c as int, b as int, d as int),
                Score::Forbidden => true,
            },
            Score::Forbidden => false,
        }
    }

    /// Strictly better: a smaller ratio, or a ratio against none.
    pub fn is_better_than(&self, other: &Score) -> (r: bool)
        requires
            self.wf(),
            other.wf(),
        ensures
            r == self.better_than(*other),
    {
        match self {
            Score::Finite { num: a, den: c } => match other {
                Score::Finite { num: b, den: d } => {
                    proof {
                        lemma_product_fits(*a as int, *d as int);
                        lemma_product_fits(*b as int, *c as int);
                    }
                    *a * (*d as i128) < *b * (*c as i128)
                },
                Score::Forbidden => true,
            },
            Score::Forbidden => false,
        }
    }
}

proof fn lemma_product_fits(a: int, d: int)
    requires
        -0x1_0000_0000_0000_0000 <= a <= 0x1_0000_0000_0000_0000,
        1 <= d <= i64::MAX,
    ensures
        i128::MIN < a * d < i128::MAX,
{
    assert(-0x1_0000_0000_0000_0000 * d <= a * d <= 0x1_0000_0000_0000_0000 * d) by (nonlinear_arith)
        requires
            -0x1_0000_0000_0000_0000 <= a <= 0x1_0000_0000_0000_0000,
            1 <= d,
    ;
}

/// How many of the first `k` foods lie on `c` or touch it.
pub open spec fn crowd_upto(foods: Seq<Point>, c: Point, k: int) -> int
    decreases k,
{
    if k <= 0 {
        0
    } else {
        crowd_upto(foods, c, k - 1) + if touching(c, foods[k - 1]) {
            1int
        } else {
            0int
        }
    }
}

proof fn lemma_crowd_bounds(foods: Seq<Point>, c: Point, k: int)
    requires
        0 <= k,
    ensures
        0 <= crowd_upto(foods, c, k) <= k,
    decreases k,
{
    if k > 0 {
        lemma_crowd_bounds(foods, c, k - 1);
    }
}

/// Counts the foods that lie on the cell (`food_x`, `food_y`) or touch it.
fn count_around(food_x: i32, food_y: i32, foods: &[i32]) -> (count: usize)
    ensures
        count == crowd_upto(cells(foods@), at(food_x as int, food_y as int), cells(foods@).len() as int),
        count <= foods@.len() / 2,
{
    let total: usize = foods.len() / 2;
    let mut count: usize = 0;
    let mut k: usize = 0;
    while k < total
        invariant
            total == foods@.len() / 2,
            2 * total <= usize::MAX,
            k <= total,
            count <= k,
            count == crowd_upto(cells(foods@), at(food_x as int, food_y as int), k as int),
        decreases total - k,
    {
        let x: i64 = foods[2 * k] as i64;
        let y: i64 = foods[2 * k + 1] as i64;
        let fx: i64 = food_x as i64;
        let fy: i64 = food_y as i64;
        if x >= fx - 1 && x <= fx + 1 && y >= fy - 1 && y <= fy + 1 {
            count = count + 1;
        }
        k = k + 1;
    }
    count
}

/// Counts the foods that lie on the cell (`food_x`, `food_y`) or touch it,
/// diagonals included. The neighbourhood is the same on every board.
pub fn get_food_surround_count(food_x: i32, food_y: i32, foods: &[i32], n: i32) -> (count: i32)
    requires
        foods@.len() / 2 <= i32::MAX,
    ensures
        count == crowd_upto(cells(foods@), at(food_x as int, food_y as int), cells(foods@).len() as int),
{
    count_around(food_x, food_y, foods) as i32
}

/// The cell that shares a corner with `p`: for each of the eight cells next
/// to a corner of the board of side `n`, the other cell next to that corner.
/// Any other `p` has no partner, written (-1, -1).
pub open spec fn paired_cell(p: Point, n: int) -> Point {
    if p.x == 1 && p.y == 2 {
        at(2, 1)
    } else if p.x == 2 && p.y == 1 {
        at(1, 2)
    } else if p.x == 1 && p.y == n - 1 {
        at(2, n)
    } else if p.x == 2 && p.y == n {
        at(1, n - 1)
    } else if p.x == n - 1 && p.y == 1 {
        at(n, 2)
    } else if p.x == n && p.y == 2 {
        at(n - 1, 1)
    } else if p.x == n - 1 && p.y == n {
        at(n, n - 1)
    } else if p.x == n && p.y == n - 1 {
        at(n - 1, n)
    } else {
        at(-1, -1)
    }
}

/// The partner of (`self_x`, `self_y`), in numbers wide enough for every
/// side `n`.
pub(crate) fn paired_wide(self_x: i32, self_y: i32, n: i32) -> (r: (i64, i64))
    ensures
        at(r.0 as int, r.1 as int) == paired_cell(at(self_x as int, self_y as int), n as int),
        near_i32(r.0 as int),
        near_i32(r.1 as int),
{
    let x: i64 = self_x as i64;
    let y: i64 = self_y as i64;
    let n: i64 = n as i64;
    if x == 1 && y == 2 {
        (2, 1)
    } else if x == 2 && y == 1 {
        (1, 2)
    } else if x == 1 && y == n - 1 {
        (2, n)
    } else if x == 2 && y == n {
        (1, n - 1)
    } else if x == n - 1 && y == 1 {
        (n, 2)
    } else if x == n && y == 2 {
        (n - 1, 1)
    } else if x == n - 1 && y == n {
        (n, n - 1)
    } else if x == n && y == n - 1 {
        (n - 1, n)
    } else {
        (-1, -1)
    }
}

/// The partner of the cell (`self_x`, `self_y`) at its corner of the board of
/// side `n`, or (-1, -1) where the cell is not next to a corner.
pub fn get_another(self_x: i32, self_y: i32, n: i32) -> (r: (i32, i32))
    requires
        n > i32::MIN,
    ensures
        at(r.0 as int, r.1 as int) == paired_cell(at(self_x as int, self_y as int), n as int),
{
    let wide: (i64, i64) = paired_wide(self_x, self_y, n);
    (wide.0 as i32, wide.1 as i32)
}

/// The shared board as the evaluator sees it at one tick.
pub struct Arena {
    /// Side of the board.
    pub board: int,
    /// The foods that lie on the board.
    pub foods: Seq<Point>,
    /// The number of foods that the game announces. It weighs the crowding of
    /// a food and may exceed the number of foods that lie on the board.
    pub food_count: int,
    /// The segments of the rival snakes, four for each rival, head first. The
    /// fourth segment of a rival is its tail, which leaves its cell at the
    /// next move.
    pub rivals: Seq<Point>,
    /// The number of snakes that the game announces.
    pub agents: int,
    /// The number of the current round.
    pub round: int,
}

/// The board that the arguments of the entry points describe.
pub open spec fn arena(
    n: i32,
    foods: Seq<i32>,
    food_num: i32,
    other: Seq<i32>,
    snake_num: i32,
    round: i32,
) -> Arena {
    Arena {
        board: n as int,
        foods: cells(foods),
        food_count: food_num as int,
        rivals: cells(other),
        agents: snake_num as int,
        round: round as int,
    }
}

/// Whether the rival segment with index `k` still fills its cell after the
/// next move: every segment but the tail of each rival.
pub open spec fn stays(k: int) -> bool {
    k % 4 != 3
}

/// Whether the rival segment with index `k` is the head of its snake.
pub open spec fn leads(k: int) -> bool {
    k % 4 == 0
}

impl Arena {
    /// The outer ring of the board (and what lies beyond it).
    pub open spec fn on_rim(self, c: Point) -> bool {
        c.x <= 1 || c.x >= self.board || c.y <= 1 || c.y >= self.board
    }

    /// One of the four corners of the board.
    pub open spec fn is_corner(self, c: Point) -> bool {
        (c.x == 1 || c.x == self.board) && (c.y == 1 || c.y == self.board)
    }

    /// A rival segment that stays is on `c` or next to it.
    pub open spec fn threatened(self, c: Point) -> bool {
        exists|k: int| 0 <= k < self.rivals.len() && stays(k) && manhattan(c, self.rivals[k]) < 2
    }

    /// The candidate lies on the rim, where a rival that is on it or next to
    /// it could pin the snake against the edge.
    pub open spec fn rim_threat(self, c: Point) -> bool {
        self.on_rim(c) && self.threatened(c)
    }

    /// The candidate is a corner, entered from `head`, and a rival segment is
    /// on the other cell next to that corner or next to that cell.
    pub open spec fn corner_threat(self, c: Point, head: Point) -> bool {
        self.is_corner(c) && exists|k: int|
            0 <= k < self.rivals.len() && manhattan(paired_cell(head, self.board), #[trigger] self.rivals[k]) < 2
    }

    /// The duel: a board of side 5 with a single rival.
    pub open spec fn duel(self) -> bool {
        self.board == 5 && self.agents == 1 && self.rivals.len() > 0
    }

    /// Distance of the first rival's head from food `i`.
    pub open spec fn rival_distance(self, i: int) -> int {
        manhattan(self.rivals[0], self.foods[i])
    }

    /// In a duel, food `i` is the one nearest to the rival's head, the first
    /// of them where several are equally near.
    pub open spec fn is_contested(self, i: int) -> bool {
        &&& self.duel()
        &&& 0 <= i < self.foods.len()
        &&& forall|j: int| 0 <= j < self.foods.len() ==> self.rival_distance(i) <= #[trigger] self.rival_distance(j)
        &&& forall|j: int| 0 <= j < i ==> self.rival_distance(i) < #[trigger] self.rival_distance(j)
    }

    /// Distance of the candidate from food `i`, plus one.
    pub open spec fn own_distance(self, c: Point, i: int) -> int {
        manhattan(c, self.foods[i]) + 1
    }

    /// The number of foods that lie on food `i` or touch it, itself included.
    pub open spec fn crowding(self, i: int) -> int {
        crowd_upto(self.foods, self.foods[i], self.foods.len() as int)
    }

    /// The number of rounds that a game on this board lasts.
    pub open spec fn round_budget(self) -> int {
        if self.board == 8 {
            100
        } else {
            50
        }
    }

    /// More than two fifths of the game are over.
    pub open spec fn late(self) -> bool {
        5 * self.round > 2 * self.round_budget()
    }

    /// A rival's head is one move away from food `i`.
    pub open spec fn rival_head_next_to(self, i: int) -> bool {
        exists|k: int| 0 <= k < self.rivals.len() && leads(k) && manhattan(#[trigger] self.rivals[k], self.foods[i]) == 1
    }

    /// Food `i` is left out of the candidate's score. On a board of side 5
    /// this is the contested food of a duel where the rival is nearer to it,
    /// or, late in the game, where the rival is one move away from it and the
    /// candidate is the food's own cell. On any other board it is a food on
    /// the candidate's cell that some rival's head is one move away from.
    pub open spec fn barred(self, c: Point, i: int) -> bool {
        if self.board == 5 {
            &&& self.is_contested(i)
            &&& self.rival_distance(i) <= self.own_distance(c, i)
            &&& if self.rival_distance(i) == 1 && self.own_distance(c, i) == 1 && self.late() {
                true
            } else {
                self.rival_distance(i) < self.own_distance(c, i)
            }
        } else {
            self.own_distance(c, i) == 1 && self.rival_head_next_to(i)
        }
    }

    /// Food `i` exists and counts for the candidate.
    pub open spec fn open_food(self, c: Point, i: int) -> bool {
        0 <= i < self.foods.len() && !self.barred(c, i)
    }

    /// Numerator of the worth of food `i`. The worth is the own distance
    /// divided by the share of the announced foods that crowd around food `i`:
    /// `own_distance / (crowding / food_count)`.
    pub open spec fn worth_num(self, c: Point, i: int) -> int {
        self.own_distance(c, i) * self.food_count
    }

    /// Food `i` is worth strictly less to the candidate than food `j`.
    pub open spec fn worth_less(self, c: Point, i: int, j: int) -> bool {
        ratio_less(self.worth_num(c, i), self.crowding(i), self.worth_num(c, j), self.crowding(j))
    }

    /// Food `i` counts, no food that counts is worth less, and every earlier
    /// food that counts is worth more.
    pub open spec fn is_best(self, c: Point, i: int) -> bool {
        &&& self.open_food(c, i)
        &&& forall|j: int| #[trigger] self.open_food(c, j) ==> !self.worth_less(c, j, i)
        &&& forall|j: int| #[trigger] self.open_food(c, j) && j < i ==> self.worth_less(c, i, j)
    }

    /// The food that decides the candidate's score.
    pub open spec fn best(self, c: Point) -> int {
        choose|i: int| self.is_best(c, i)
    }

    /// The score of candidate `c` for a snake whose head is on `head`:
    /// forbidden where the rim or a corner is under threat or where no food
    /// counts, else the least worth of a food that counts.
    pub open spec fn score(self, c: Point, head: Point) -> Score {
        if self.rim_threat(c) || self.corner_threat(c, head) {
            Score::Forbidden
        } else if !(exists|i: int| self.open_food(c, i)) {
            Score::Forbidden
        } else {
            Score::Finite {
                num: self.worth_num(c, self.best(c)) as i128,
                den: self.crowding(self.best(c)) as i64,
            }
        }
    }
}

/// Only one food can be the best of a candidate.
pub proof fn lemma_best_unique(a: Arena, c: Point, i: int, j: int)
    requires
        a.is_best(c, i),
        a.is_best(c, j),
    ensures
        i == j,
{
}

/// Only one food can be the contested one.
pub proof fn lemma_contested_unique(a: Arena, i: int, j: int)
    requires
        a.is_contested(i),
        a.is_contested(j),
    ensures
        i == j,
{
    if i < j {
        assert(a.rival_distance(j) < a.rival_distance(i));
        assert(a.rival_distance(i) <= a.rival_distance(j));
    } else if j < i {
        assert(a.rival_distance(i) < a.rival_distance(j));
        assert(a.rival_distance(j) <= a.rival_distance(i));
    }
}

proof fn lemma_crowd_grows(foods: Seq<Point>, c: Point, j: int, k: int)
    requires
        0 <= j <= k,
    ensures
        crowd_upto(foods, c, j) <= crowd_upto(foods, c, k),
    decreases k - j,
{
    if j < k {
        lemma_crowd_grows(foods, c, j, k - 1);
    }
}

/// A food crowds around itself.
pub proof fn lemma_crowding_positive(a: Arena, i: int)
    requires
        0 <= i < a.foods.len(),
    ensures
        1 <= a.crowding(i) <= a.foods.len(),
{
    lemma_crowd_bounds(a.foods, a.foods[i], i);
    lemma_crowd_grows(a.foods, a.foods[i], i + 1, a.foods.len() as int);
    lemma_crowd_bounds(a.foods, a.foods[i], a.foods.len() as int);
}

/// Ratios with positive denominators are ordered in a chain.
pub(crate) proof fn lemma_ratio_chain(a1: int, c1: int, a2: int, c2: int, a3: int, c3: int)
    requires
        c1 > 0,
        c2 > 0,
        c3 > 0,
        ratio_less(a1, c1, a2, c2),
        !ratio_less(a3, c3, a2, c2),
    ensures
        ratio_less(a1, c1, a3, c3),
{
    assert((a1 * c2) * c3 < (a2 * c1) * c3) by (nonlinear_arith)
        requires
            a1 * c2 < a2 * c1,
            c3 > 0,
    ;
    assert((a2 * c3) * c1 <= (a3 * c2) * c1) by (nonlinear_arith)
        requires
            a2 * c3 <= a3 * c2,
            c1 > 0,
    ;
    assert((a2 * c1) * c3 == (a2 * c3) * c1) by (nonlinear_arith);
    assert((a1 * c2) * c3 == (a1 * c3) * c2) by (nonlinear_arith);
    assert((a3 * c2) * c1 == (a3 * c1) * c2) by (nonlinear_arith);
    assert(a1 * c3 < a3 * c1) by (nonlinear_arith)
        requires
            (a1 * c3) * c2 < (a3 * c1) * c2,
            c2 > 0,
    ;
}

fn rim_threat_at(x: i32, y: i32, other: &[i32], n: i32, Ghost(a): Ghost<Arena>) -> (r: bool)
    requires
        a.board == n,
        a.rivals == cells(other@),
    ensures
        r == a.rim_threat(at(x as int, y as int)),
{
    if !(x <= 1 || x >= n || y <= 1 || y >= n) {
        return false;
    }
    let ghost c = at(x as int, y as int);
    let total: usize = other.len() / 2;
    let mut k: usize = 0;
    while k < total
        invariant
            total == other@.len() / 2,
            k <= total,
            2 * total <= usize::MAX,
            a.rivals == cells(other@),
            c == at(x as int, y as int),
            a.on_rim(c),
            forall|j: int| 0 <= j < k ==> !(stays(j) && manhattan(c, #[trigger] a.rivals[j]) < 2),
        decreases total - k,
    {
        if k % 4 != 3 {
            let d: i64 = manhattan_of(x as i64, y as i64, other[2 * k] as i64, other[2 * k + 1] as i64);
            if d < 2 {
                assert(stays(k as int) && manhattan(c, a.rivals[k as int]) < 2);
                return true;
            }
        }
        k = k + 1;
    }
    false
}

fn corner_threat_at(
    x: i32,
    y: i32,
    other: &[i32],
    n: i32,
    self_x: i32,
    self_y: i32,
    Ghost(a): Ghost<Arena>,
) -> (r: bool)
    requires
        a.board == n,
        a.rivals == cells(other@),
    ensures
        r == a.corner_threat(at(x as int, y as int), at(self_x as int, self_y as int)),
{
    if !((x == 1 || x == n) && (y == 1 || y == n)) {
        return false;
    }
    let pair: (i64, i64) = paired_wide(self_x, self_y, n);
    let ghost partner = paired_cell(at(self_x as int, self_y as int), n as int);
    let total: usize = other.len() / 2;
    let mut k: usize = 0;
    while k < total
        invariant
            total == other@.len() / 2,
            k <= total,
            2 * total <= usize::MAX,
            a.rivals == cells(other@),
            a.is_corner(at(x as int, y as int)),
            partner == paired_cell(at(self_x as int, self_y as int), a.board),
            near_i32(pair.0 as int),
            near_i32(pair.1 as int),
            partner == at(pair.0 as int, pair.1 as int),
            forall|j: int| 0 <= j < k ==> !(manhattan(partner, #[trigger] a.rivals[j]) < 2),
        decreases total - k,
    {
        let d: i64 = manhattan_of(pair.0, pair.1, other[2 * k] as i64, other[2 * k + 1] as i64);
        if d < 2 {
            assert(manhattan(partner, a.rivals[k as int]) < 2);
            return true;
        }
        k = k + 1;
    }
    false
}

/// Finds the contested food of a duel and the rival's distance from it.
fn find_contested(foods: &[i32], other: &[i32], n: i32, snake_num: i32, Ghost(a): Ghost<Arena>) -> (r:
    Option<(usize, i64)>)
    requires
        a.board == n,
        a.agents == snake_num,
        a.rivals == cells(other@),
        a.foods == cells(foods@),
    ensures
        match r {
            Some((i, d)) => a.is_contested(i as int) && d == a.rival_distance(i as int),
            None => forall|i: int| !a.is_contested(i),
        },
{
    let total: usize = foods.len() / 2;
    if n != 5 || snake_num != 1 || other.len() < 2 || total == 0 {
        return None;
    }
    let rx: i64 = other[0] as i64;
    let ry: i64 = other[1] as i64;
    let mut best: usize = 0;
    let mut least: i64 = manhattan_of(rx, ry, foods[0] as i64, foods[1] as i64);
    let mut k: usize = 1;
    while k < total
        invariant
            total == foods@.len() / 2,
            1 <= k <= total,
            2 * total <= usize::MAX,
            other@.len() >= 2,
            a.rivals == cells(other@),
            a.foods == cells(foods@),
            rx == other@[0],
            ry == other@[1],
            best < k,
            least == a.rival_distance(best as int),
            forall|j: int| 0 <= j < k ==> least <= #[trigger] a.rival_distance(j),
            forall|j: int| 0 <= j < best ==> least < #[trigger] a.rival_distance(j),
        decreases total - k,
    {
        let d: i64 = manhattan_of(rx, ry, foods[2 * k] as i64, foods[2 * k + 1] as i64);
        if d < least {
            least = d;
            best = k;
        }
        k = k + 1;
    }
    Some((best, least))
}

/// Whether food `i` is left out of the candidate's score.
fn food_barred(
    i: usize,
    own: i64,
    foods: &[i32],
    other: &[i32],
    n: i32,
    round: i32,
    contested: Option<(usize, i64)>,
    Ghost(a): Ghost<Arena>,
    Ghost(c): Ghost<Point>,
) -> (r: bool)
    requires
        a.board == n,
        a.round == round,
        a.rivals == cells(other@),
        a.foods == cells(foods@),
        i < foods@.len() / 2,
        own == a.own_distance(c, i as int),
        match contested {
            Some((f, d)) => a.is_contested(f as int) && d == a.rival_distance(f as int),
            None => forall|f: int| !a.is_contested(f),
        },
    ensures
        r == a.barred(c, i as int),
{
    if n == 5 {
        match contested {
            Some((f, d)) => {
                proof {
                    if a.is_contested(i as int) {
                        lemma_contested_unique(a, i as int, f as int);
                    }
                }
                let late: bool = 5 * (round as i64) > 100;
                f == i && d <= own && (if d == 1 && own == 1 && late {
                    true
                } else {
                    d < own
                })
            },
            None => false,
        }
    } else {
        if own != 1 {
            return false;
        }
        assert(2 * i + 1 < foods.len());
        let fx: i64 = foods[2 * i] as i64;
        let fy: i64 = foods[2 * i + 1] as i64;
        let total: usize = other.len() / 2;
        let mut k: usize = 0;
        while k < total
            invariant
                total == other@.len() / 2,
                k <= total,
                2 * total <= usize::MAX,
                i < foods@.len() / 2,
                a.board == n,
                n != 5,
                own == 1,
                own == a.own_distance(c, i as int),
                a.rivals == cells(other@),
                a.foods == cells(foods@),
                fx == foods@[2 * i],
                fy == foods@[2 * i + 1],
                forall|j: int| 0 <= j < k ==> !(leads(j) && manhattan(#[trigger] a.rivals[j], a.foods[i as int]) == 1),
            decreases total - k,
        {
            if k % 4 == 0 {
                let d: i64 = manhattan_of(other[2 * k] as i64, other[2 * k + 1] as i64, fx, fy);
                if d == 1 {
                    assert(leads(k as int) && manhattan(a.rivals[k as int], a.foods[i as int]) == 1);
                    return true;
                }
            }
            k = k + 1;
        }
        false
    }
}

/// Scores the candidate cell (`x`, `y`) for a snake whose head is on
/// (`self_x`, `self_y`), on the board that the other arguments describe.
///
/// The score is forbidden where the candidate lies on the rim and a rival
/// segment that stays is on it or next to it, where the candidate is a corner
/// and any rival segment is within a move of the other cell next to that
/// corner, and where no food counts for the candidate. Else it is the least
/// worth of a food that counts, the worth of the first such food where
/// several are worth the same.
pub fn get_evaluated(
    x: i32,
    y: i32,
    food_num: i32,
    foods: &[i32],
    other: &[i32],
    n: i32,
    snake_num: i32,
    round: i32,
    self_x: i32,
    self_y: i32,
) -> (score: Score)
    ensures
        score == arena(n, foods@, food_num, other@, snake_num, round).score(
            at(x as int, y as int),
            at(self_x as int, self_y as int),
        ),
        score.wf(),
{
    let ghost a = arena(n, foods@, food_num, other@, snake_num, round);
    let ghost c = at(x as int, y as int);
    if rim_threat_at(x, y, other, n, Ghost(a)) {
        return Score::Forbidden;
    }
    if corner_threat_at(x, y, other, n, self_x, self_y, Ghost(a)) {
        return Score::Forbidden;
    }
    let contested: Option<(usize, i64)> = find_contested(foods, other, n, snake_num, Ghost(a));
    let total: usize = foods.len() / 2;
    let mut have: bool = false;
    let mut best_num: i128 = 0;
    let mut best_den: i64 = 1;
    let ghost mut best_i: int = 0;
    let mut i: usize = 0;
    while i < total
        invariant
            total == foods@.len() / 2,
            2 * total <= usize::MAX,
            i <= total,
            a == arena(n, foods@, food_num, other@, snake_num, round),
            c == at(x as int, y as int),
            match contested {
                Some((f, d)) => a.is_contested(f as int) && d == a.rival_distance(f as int),
                None => forall|f: int| !a.is_contested(f),
            },
            !have ==> forall|j: int| 0 <= j < i ==> !a.open_food(c, j),
            have ==> {
                &&& 0 <= best_i < i
                &&& a.open_food(c, best_i)
                &&& best_num == a.worth_num(c, best_i)
                &&& best_den == a.crowding(best_i)
                &&& forall|j: int| 0 <= j < i && #[trigger] a.open_food(c, j) ==> !a.worth_less(c, j, best_i)
                &&& forall|j: int| 0 <= j < best_i && #[trigger] a.open_food(c, j) ==> a.worth_less(c, best_i, j)
            },
            (Score::Finite { num: best_num, den: best_den }).wf(),
        decreases total - i,
    {
        let fx: i32 = foods[2 * i];
        let fy: i32 = foods[2 * i + 1];
        let own: i64 = manhattan_of(x as i64, y as i64, fx as i64, fy as i64) + 1;
        if !food_barred(i, own, foods, other, n, round, contested, Ghost(a), Ghost(c)) {
            let crowd: i64 = count_around(fx, fy, foods) as i64;
            proof {
                assert(-0x1_0000_0000_0000_0000 <= own * food_num <= 0x1_0000_0000_0000_0000)
                    by (nonlinear_arith)
                    requires
                        1 <= own <= 0x1_ffff_ffff,
                        -0x8000_0000 <= food_num <= 0x8000_0000,
                ;
            }
            let num: i128 = (own as i128) * (food_num as i128);
            proof {
                lemma_crowding_positive(a, i as int);
                lemma_product_fits(num as int, best_den as int);
                lemma_product_fits(best_num as int, crowd as int);
                if have {
                    lemma_crowding_positive(a, best_i);
                }
            }
            if !have || num * (best_den as i128) < best_num * (crowd as i128) {
                proof {
                    if have {
                        assert forall|j: int| 0 <= j < i && #[trigger] a.open_food(c, j) implies a.worth_less(
                            c,
                            i as int,
                            j,
                        ) by {
                            lemma_crowding_positive(a, j);
                            lemma_ratio_chain(
                                a.worth_num(c, i as int),
                                a.crowding(i as int),
                                a.worth_num(c, best_i),
                                a.crowding(best_i),
                                a.worth_num(c, j),
                                a.crowding(j),
                            );
                        }
                        assert forall|j: int| 0 <= j < i && #[trigger] a.open_food(c, j) implies !a.worth_less(
                            c,
                            j,
                            i as int,
                        ) by {
                            assert(a.worth_less(c, i as int, j));
                        }
                    }
                    best_i = i as int;
                }
                have = true;
                best_num = num;
                best_den = crowd;
            }
        }
        i = i + 1;
    }
    if have {
        proof {
            assert(a.is_best(c, best_i));
            lemma_best_unique(a, c, best_i, a.best(c));
        }
        Score::Finite { num: best_num, den: best_den }
    } else {
        Score::Forbidden
    }
}

} // verus!
