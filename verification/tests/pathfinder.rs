use greedy_snake::grid::{Cell, Direction};
use greedy_snake::pathfinder::find_path;
use greedy_snake::planner::{greedy_BFS, greedy_snake_move_barriers, plan_move, search_plan, PlanCache};
use std::collections::{HashSet, VecDeque};

fn cell(x: i32, y: i32) -> Cell {
    Cell { x, y }
}

fn delta(d: Direction) -> (i32, i32) {
    match d {
        Direction::Up => (0, 1),
        Direction::Down => (0, -1),
        Direction::Left => (-1, 0),
        Direction::Right => (1, 0),
    }
}

fn is_wall(barriers: &[i32], x: i32, y: i32) -> bool {
    barriers.chunks_exact(2).any(|c| c[0] == x && c[1] == y)
}

/// Follows the moves from the head and tells where they end, or nothing
/// where one of them is not allowed.
fn follow(n: i32, head: Cell, second: Cell, barriers: &[i32], walk: &[Direction]) -> Option<Cell> {
    let mut pos = (head.x, head.y);
    let mut prev = (second.x, second.y);
    for d in walk {
        let (dx, dy) = delta(*d);
        let next = (pos.0 + dx, pos.1 + dy);
        if next.0 < 1 || next.0 > n || next.1 < 1 || next.1 > n {
            return None;
        }
        if is_wall(barriers, next.0, next.1) || next == prev {
            return None;
        }
        prev = pos;
        pos = next;
    }
    Some(cell(pos.0, pos.1))
}

/// The least number of allowed moves that lead to the food, counted by a
/// plain search over pairs of cells.
fn least_moves(n: i32, head: Cell, second: Cell, barriers: &[i32], food: Cell) -> Option<usize> {
    let start = ((head.x, head.y), (second.x, second.y));
    let mut seen = HashSet::new();
    let mut queue = VecDeque::new();
    seen.insert(start);
    queue.push_back((start, 0usize));
    while let Some(((pos, prev), dist)) = queue.pop_front() {
        if pos == (food.x, food.y) {
            return Some(dist);
        }
        for (dx, dy) in [(0, 1), (0, -1), (-1, 0), (1, 0)] {
            let next = (pos.0 + dx, pos.1 + dy);
            if next == prev || next.0 < 1 || next.0 > n || next.1 < 1 || next.1 > n {
                continue;
            }
            if is_wall(barriers, next.0, next.1) {
                continue;
            }
            if seen.insert((next, pos)) {
                queue.push_back(((next, pos), dist + 1));
            }
        }
    }
    None
}

fn walk_of(plan: &[Direction]) -> Vec<Direction> {
    plan.iter().rev().copied().collect()
}

#[test]
fn test_greedy_snake_move() {
    let mut cache = PlanCache::new();

    let body = [3, 4, 3, 3, 3, 2, 3, 1];
    let food = [1, 2];
    let barriers = [1, 1, 2, 1, 1, 3, 2, 3];
    assert_eq!(greedy_snake_move_barriers(&body, &food, &barriers, &mut cache), 3);

    cache.clear();

    let body = [5, 4, 5, 5, 5, 6, 5, 7];
    let food = [5, 8];
    let barriers = [
        6, 8, 6, 7, 6, 6, 6, 5, 6, 4, 6, 3, 6, 2, 5, 2, 4, 2, 4, 3, 4, 4, 4, 5, 4, 6, 4, 7, 4, 8,
    ];
    assert_eq!(greedy_snake_move_barriers(&body, &food, &barriers, &mut cache), -1);

    cache.clear();

    let body = [5, 4, 5, 5, 5, 6, 5, 7];
    let food = [5, 8];
    let barriers = [6, 8, 6, 7, 6, 6, 6, 5, 6, 4, 6, 3, 6, 2, 4, 2, 4, 3, 4, 4, 4, 5, 4, 6, 4, 7, 4, 8];
    assert_eq!(greedy_snake_move_barriers(&body, &food, &barriers, &mut cache), 2);
}

#[test]
fn plan_lists_the_last_move_first() {
    let plan = find_path(8, cell(4, 4), cell(4, 3), &[], cell(6, 5)).unwrap();
    assert_eq!(plan, vec![Direction::Right, Direction::Right, Direction::Up]);
}

#[test]
fn earlier_direction_wins_among_shortest_walks() {
    // Up then Right, not Right then Up.
    let plan = find_path(8, cell(4, 4), cell(4, 3), &[], cell(5, 5)).unwrap();
    assert_eq!(walk_of(&plan), vec![Direction::Up, Direction::Right]);
    // Down then Left, not Left then Down.
    let plan = find_path(8, cell(4, 4), cell(4, 5), &[], cell(3, 3)).unwrap();
    assert_eq!(walk_of(&plan), vec![Direction::Down, Direction::Left]);
}

#[test]
fn head_may_not_turn_back() {
    // The food lies where the head came from: three moves, not one.
    let plan = find_path(8, cell(4, 4), cell(4, 5), &[], cell(4, 5)).unwrap();
    assert_eq!(walk_of(&plan), vec![Direction::Left, Direction::Up, Direction::Right]);
}

#[test]
fn food_under_the_head_needs_no_move() {
    let plan = find_path(8, cell(4, 4), cell(4, 5), &[], cell(4, 4)).unwrap();
    assert_eq!(plan, vec![]);
    let plan = find_path(1, cell(1, 1), cell(1, 1), &[], cell(1, 1)).unwrap();
    assert_eq!(plan, vec![]);
}

#[test]
fn food_off_the_board_is_out_of_reach() {
    assert_eq!(find_path(8, cell(4, 4), cell(4, 5), &[], cell(9, 4)), None);
    assert_eq!(find_path(8, cell(4, 4), cell(4, 5), &[], cell(0, 0)), None);
    assert_eq!(find_path(1, cell(1, 1), cell(1, 1), &[], cell(2, 1)), None);
    assert_eq!(find_path(5, cell(4, 4), cell(4, 5), &[], cell(6, 4)), None);
}

#[test]
fn food_on_a_barrier_is_out_of_reach() {
    assert_eq!(find_path(8, cell(4, 4), cell(4, 5), &[6, 4], cell(6, 4)), None);
}

#[test]
fn dead_end_cannot_be_left() {
    // A corridor of width one, closed at its end: no room to turn.
    let barriers = [1, 2, 2, 2, 3, 2, 4, 2, 5, 2, 6, 2, 7, 2, 8, 2];
    assert_eq!(find_path(8, cell(3, 1), cell(2, 1), &barriers, cell(1, 1)), None);
    assert_eq!(
        walk_of(&find_path(8, cell(3, 1), cell(4, 1), &barriers, cell(1, 1)).unwrap()),
        vec![Direction::Left, Direction::Left]
    );
}

#[test]
fn a_cell_is_entered_again_from_another_side() {
    // The head has to run a loop to come back through its own cell.
    let barriers = [6, 8, 6, 7, 6, 6, 6, 5, 6, 4, 6, 3, 6, 2, 4, 2, 4, 3, 4, 4, 4, 5, 4, 6, 4, 7, 4, 8];
    let head = cell(5, 4);
    let second = cell(5, 5);
    let food = cell(5, 8);
    let plan = find_path(8, head, second, &barriers, food).unwrap();
    let walk = walk_of(&plan);
    assert_eq!(follow(8, head, second, &barriers, &walk), Some(food));
    assert_eq!(Some(walk.len()), least_moves(8, head, second, &barriers, food));
    assert_eq!(walk.len(), 18);
    assert_eq!(walk[0], Direction::Down);
}

#[test]
fn barriers_off_the_board_and_a_loose_number_are_ignored() {
    let barriers = [0, 4, 9, 9, -3, 2, 100, 100, 5, 4, 7];
    let plan = find_path(8, cell(4, 4), cell(3, 4), &barriers, cell(6, 4)).unwrap();
    let walk = walk_of(&plan);
    assert_eq!(walk, vec![Direction::Up, Direction::Right, Direction::Right, Direction::Down]);
}

#[test]
fn sealed_food_gives_minus_one() {
    let mut cache = PlanCache::new();
    let body = [2, 3, 2, 2, 2, 1, 1, 1];
    let food = [6, 6];
    let wall = [4, 1, 4, 2, 4, 3, 4, 4, 4, 5, 4, 6, 4, 7, 4, 8];
    assert_eq!(greedy_snake_move_barriers(&body, &food, &wall, &mut cache), -1);
    assert!(cache.is_empty());
    assert_eq!(greedy_snake_move_barriers(&body, &food, &wall, &mut cache), -1);
    assert!(!greedy_BFS(&body, &food, &wall, &mut cache));
    assert_eq!(cache.len(), 0);
}

#[test]
fn single_gap_is_taken_and_the_plan_followed_to_the_food() {
    let mut cache = PlanCache::new();
    let mut body = vec![2, 3, 2, 2, 2, 1, 1, 1];
    let food = [6, 6];
    let wall = [4, 1, 4, 2, 4, 3, 4, 4, 4, 5, 4, 7, 4, 8];
    let expected = [0, 0, 0, 3, 3, 3, 3];
    let least = least_moves(8, cell(2, 3), cell(2, 2), &wall, cell(6, 6)).unwrap();
    assert_eq!(least, expected.len());
    let mut through_gap = false;
    for (tick, want) in expected.iter().enumerate() {
        let code = greedy_snake_move_barriers(&body, &food, &wall, &mut cache);
        assert_eq!(code, *want);
        assert_eq!(cache.len(), expected.len() - tick - 1);
        let (dx, dy) = match code {
            0 => (0, 1),
            1 => (-1, 0),
            2 => (0, -1),
            3 => (1, 0),
            _ => panic!("no direction"),
        };
        let head = (body[0] + dx, body[1] + dy);
        assert!(!is_wall(&wall, head.0, head.1));
        if head == (4, 6) {
            through_gap = true;
            assert_eq!(code, 3);
        }
        body.truncate(6);
        body.insert(0, head.1);
        body.insert(0, head.0);
    }
    assert!(through_gap);
    assert_eq!((body[0], body[1]), (6, 6));
    assert!(cache.is_empty());
}

#[test]
fn each_call_takes_one_move_off_the_plan() {
    let mut cache = PlanCache::new();
    let body = [1, 1, 1, 2, 1, 3, 1, 4];
    let food = [4, 1];
    assert!(greedy_BFS(&body, &food, &[], &mut cache));
    assert_eq!(cache.steps, vec![Direction::Right, Direction::Right, Direction::Right]);
    assert_eq!(cache.len(), 3);
    // With a plan in the cache the lists are not read: the plan alone speaks.
    assert_eq!(greedy_snake_move_barriers(&[], &[], &[], &mut cache), 3);
    assert_eq!(cache.len(), 2);
    assert_eq!(greedy_snake_move_barriers(&[], &[], &[], &mut cache), 3);
    assert_eq!(cache.len(), 1);
    assert_eq!(greedy_snake_move_barriers(&[], &[], &[], &mut cache), 3);
    assert_eq!(cache.len(), 0);
}

#[test]
fn stale_plan_goes_with_clear() {
    let mut cache = PlanCache::new();
    assert_eq!(greedy_snake_move_barriers(&[1, 1, 1, 2], &[1, 4], &[], &mut cache), 3);
    assert!(!cache.is_empty());
    cache.clear();
    assert!(cache.is_empty());
    assert_eq!(greedy_snake_move_barriers(&[2, 2, 2, 1], &[2, 4], &[], &mut cache), 0);
    assert_eq!(cache.len(), 1);
}

#[test]
fn search_puts_its_plan_on_top_of_the_cache() {
    let mut cache = PlanCache::new();
    cache.steps.push(Direction::Left);
    assert!(greedy_BFS(&[4, 4, 4, 3], &[5, 5], &[], &mut cache));
    assert_eq!(cache.steps, vec![Direction::Left, Direction::Right, Direction::Up]);
    assert!(!greedy_BFS(&[4, 4, 4, 3], &[9, 9], &[], &mut cache));
    assert_eq!(cache.steps, vec![Direction::Left, Direction::Right, Direction::Up]);
}

#[test]
fn plans_are_shortest_on_many_boards() {
    let mut seed: u64 = 0x2545_f491_4f6c_dd1d;
    let mut next = |bound: u64| -> i32 {
        seed = seed.wrapping_mul(6364136223846793005).wrapping_add(1442695040888963407);
        ((seed >> 33) % bound) as i32
    };
    for round in 0..300 {
        let n = 2 + next(7);
        let head = cell(1 + next(n as u64), 1 + next(n as u64));
        let second = cell(1 + next(n as u64), 1 + next(n as u64));
        let food = cell(1 + next(n as u64), 1 + next(n as u64));
        let count = next((n * n / 2) as u64 + 1);
        let mut barriers = Vec::new();
        for _ in 0..count {
            barriers.push(1 + next(n as u64));
            barriers.push(1 + next(n as u64));
        }
        let least = least_moves(n, head, second, &barriers, food);
        match find_path(n, head, second, &barriers, food) {
            Some(plan) => {
                let walk = walk_of(&plan);
                assert_eq!(follow(n, head, second, &barriers, &walk), Some(food), "round {}", round);
                assert_eq!(Some(walk.len()), least, "round {}", round);
            }
            None => assert_eq!(least, None, "round {}", round),
        }
    }
}

#[test]
fn plan_on_a_small_board() {
    let mut cache = PlanCache::new();
    let body = [1, 1, 1, 2];
    let food = [5, 5];
    assert!(search_plan(5, &body, &food, &[], &mut cache));
    assert_eq!(cache.len(), 8);
    let mut codes = Vec::new();
    while !cache.is_empty() {
        codes.push(plan_move(5, &body, &food, &[], &mut cache));
    }
    assert_eq!(codes, vec![3, 0, 0, 0, 0, 3, 3, 3]);
    // The same food lies off a board of side 4.
    assert!(!search_plan(4, &body, &food, &[], &mut cache));
    assert_eq!(plan_move(4, &body, &food, &[], &mut cache), -1);
    assert!(cache.is_empty());
}

#[test]
fn board_of_side_eight_is_the_default() {
    let body = [3, 4, 3, 3, 3, 2, 3, 1];
    let food = [1, 2];
    let barriers = [1, 1, 2, 1, 1, 3, 2, 3];
    let mut one = PlanCache::new();
    let mut other = PlanCache::new();
    assert_eq!(
        greedy_snake_move_barriers(&body, &food, &barriers, &mut one),
        plan_move(8, &body, &food, &barriers, &mut other)
    );
    assert_eq!(one.steps, other.steps);
    assert_eq!(one.len(), 5);
}

#[test]
fn head_on_the_food_gets_the_greedy_move() {
    let mut cache = PlanCache::new();
    // Every safe move ends one step from the food; Up is blocked by the
    // body, so Down, the next in the order, is taken.
    let body = [3, 3, 3, 4, 3, 5, 3, 6];
    assert_eq!(greedy_snake_move_barriers(&body, &[3, 3], &[], &mut cache), 2);
    assert!(cache.is_empty());
    // The search itself finds the walk without a move.
    assert!(greedy_BFS(&body, &[3, 3], &[], &mut cache));
    assert!(cache.is_empty());
    // Barriers do not count for the greedy move.
    assert_eq!(plan_move(8, &body, &[3, 3], &[3, 2, 2, 3, 4, 3], &mut cache), 2);
    // With the second segment below the head, Up comes first.
    let body = [3, 3, 3, 2, 3, 1, 4, 1];
    assert_eq!(plan_move(5, &body, &[3, 3], &[], &mut cache), 0);
    assert!(cache.is_empty());
    // Shut in by its own body in a corner: the forced move, Down.
    let body = [1, 1, 1, 2, 2, 2, 2, 1, 3, 1];
    assert_eq!(plan_move(5, &body, &[1, 1], &[], &mut cache), 2);
    assert!(cache.is_empty());
}
