use greedy_snake::grid::Direction;
use greedy_snake::planner::PlanCache;
use greedy_snake::evaluator::Score;
use greedy_snake::selector::{decide, greedy_snake_step, rate_moves, solution, Mode};

const FOODS: [i32; 10] = [1, 1, 2, 2, 4, 3, 4, 4, 5, 5];
const ME: [i32; 8] = [3, 2, 3, 1, 4, 1, 5, 1];
const RIVAL: [i32; 8] = [2, 3, 1, 3, 1, 4, 1, 5];

#[test]
fn test_greedy_snake_move_4() {
    let n = 5;
    let me = [3, 2, 3, 1, 4, 1, 5, 1];
    let snake_num = 1;
    let other = [2, 3, 1, 3, 1, 4, 1, 5];
    let food_num = 5;
    let foods = [1, 1, 2, 2, 4, 3, 4, 4, 5, 5];
    let round = 38;

    // Round 38 is past two fifths of the 50 rounds: the food on (2, 2), one
    // move from both heads, is left to the rival, and Up scores best.
    let result = greedy_snake_step(n, &me, snake_num, &other, food_num, &foods, round);
    assert_eq!(result, 0);
}

#[test]
fn early_in_a_duel_the_near_food_is_taken() {
    assert_eq!(greedy_snake_step(5, &ME, 1, &RIVAL, 5, &FOODS, 20), 1);
    assert_eq!(greedy_snake_step(5, &ME, 1, &RIVAL, 5, &FOODS, 1), 1);
}

#[test]
fn late_in_a_duel_the_contested_food_is_left_to_the_rival() {
    // Snake and rival are both one move from the food on (2, 2). The nearest
    // food would call for Left; with that food left out Up scores best.
    assert_eq!(greedy_snake_step(5, &ME, 1, &RIVAL, 5, &FOODS, 41), 0);
    assert_eq!(greedy_snake_step(5, &ME, 1, &RIVAL, 5, &FOODS, 38), 0);
    assert_eq!(greedy_snake_step(5, &ME, 1, &RIVAL, 5, &FOODS, 21), 0);
}

#[test]
fn both_entry_points_agree() {
    for round in [1, 20, 21, 60] {
        assert_eq!(
            solution(5, &ME, &RIVAL, 5, &FOODS, 1, round),
            greedy_snake_step(5, &ME, 1, &RIVAL, 5, &FOODS, round)
        );
    }
}

#[test]
fn no_safe_move_gives_zero() {
    let me = [1, 1, 1, 2, 2, 2, 2, 1, 3, 1];
    assert_eq!(solution(5, &me, &[], 1, &[3, 3], 1, 1), 0);
    // Shut in by a rival.
    let me = [1, 1, 2, 1, 3, 1, 4, 1];
    let rival = [1, 2, 1, 3, 1, 4, 1, 5];
    assert_eq!(solution(5, &me, &rival, 1, &[3, 3], 2, 1), 0);
}

#[test]
fn first_safe_move_where_nothing_has_a_score() {
    let me = [4, 4, 4, 5, 4, 6, 4, 7];
    assert_eq!(solution(8, &me, &[], 0, &[], 1, 1), 2);
    let me = [4, 4, 4, 3, 4, 2, 4, 1];
    assert_eq!(solution(8, &me, &[], 0, &[], 1, 1), 0);
    // On the lower edge with Up taken by the body: Left comes first.
    let me = [4, 1, 4, 2, 4, 3, 4, 4];
    assert_eq!(solution(8, &me, &[], 0, &[], 1, 1), 1);
}

#[test]
fn equal_scores_go_to_the_earlier_direction() {
    // Up and Right end equally far from the food.
    let me = [4, 4, 4, 3, 4, 2, 4, 1];
    assert_eq!(solution(8, &me, &[], 1, &[6, 6], 1, 1), 0);
    // Down and Left end equally far from the food.
    let me = [4, 4, 4, 5, 4, 6, 4, 7];
    assert_eq!(solution(8, &me, &[], 1, &[2, 2], 1, 1), 2);
}

#[test]
fn threatened_rim_is_left_alone_while_another_move_has_a_score() {
    let me = [2, 4, 3, 4, 4, 4, 5, 4];
    let food = [1, 4];
    // The rival is far away: straight to the food on the rim.
    let far = [8, 8, 8, 7, 8, 6, 8, 5];
    assert_eq!(solution(8, &me, &far, 1, &food, 2, 1), 1);
    // A rival segment next to the food's cell: Up, the first move with a
    // score, is taken.
    let near = [1, 6, 1, 5, 1, 7, 1, 8];
    assert_eq!(solution(8, &me, &near, 1, &food, 2, 1), 0);
}

#[test]
fn threatened_rim_is_entered_where_nothing_has_a_score() {
    // No food at all: every safe move is forbidden and the first of them is
    // taken. That is Left, onto a cell of the rim next to a rival, although
    // Right leads to a cell that no rival is near.
    let me = [2, 1, 2, 2, 2, 3, 2, 4];
    let rival = [1, 2, 1, 3, 1, 4, 1, 5];
    assert_eq!(solution(8, &me, &rival, 0, &[], 2, 1), 1);
    // With a food that counts for the cell on the right, Right is taken.
    assert_eq!(solution(8, &me, &rival, 1, &[5, 1], 2, 1), 3);
}

#[test]
fn tail_of_a_rival_may_be_entered() {
    let me = [4, 4, 4, 5, 4, 6, 4, 7];
    let food = [3, 4];
    let tail_there = [8, 8, 8, 7, 8, 6, 3, 4];
    assert_eq!(solution(8, &me, &tail_there, 1, &food, 2, 1), 1);
    let body_there = [8, 8, 8, 7, 3, 4, 8, 6];
    assert_eq!(solution(8, &me, &body_there, 1, &food, 2, 1), 2);
}

#[test]
fn own_tail_may_be_entered() {
    let me = [3, 3, 3, 4, 4, 4, 4, 3];
    assert_eq!(solution(8, &me, &[], 1, &[4, 3], 1, 1), 3);
}

#[test]
fn board_side_bounds_the_moves() {
    let me = [5, 5, 5, 4, 5, 3, 5, 2];
    assert_eq!(solution(5, &me, &[], 1, &[7, 5], 1, 1), 1);
    assert_eq!(solution(8, &me, &[], 1, &[7, 5], 1, 1), 3);
}

#[test]
fn greedy_mode_goes_straight_for_the_food() {
    let mut cache = PlanCache::new();
    let me = [4, 4, 4, 5, 4, 6, 4, 7];
    assert_eq!(decide(Mode::Greedy, 8, &me, &[], &[5, 4], &[], 1, 1, 1, &mut cache), 3);
    assert_eq!(decide(Mode::Greedy, 8, &me, &[], &[3, 4], &[], 1, 1, 1, &mut cache), 1);
    assert!(cache.is_empty());
    let me = [5, 5, 5, 4, 5, 3, 5, 2];
    assert_eq!(decide(Mode::Greedy, 5, &me, &[], &[7, 5], &[], 1, 1, 1, &mut cache), 1);
}

#[test]
fn planned_mode_follows_the_plan() {
    let mut cache = PlanCache::new();
    let me = [2, 3, 2, 2, 2, 1, 1, 1];
    let wall = [4, 1, 4, 2, 4, 3, 4, 4, 4, 5, 4, 7, 4, 8];
    assert_eq!(decide(Mode::Planned, 8, &me, &[], &[6, 6], &wall, 1, 1, 1, &mut cache), 0);
    assert_eq!(cache.len(), 6);
    let me = [2, 4, 2, 3, 2, 2, 2, 1];
    assert_eq!(decide(Mode::Planned, 8, &me, &[], &[6, 6], &wall, 1, 1, 1, &mut cache), 0);
    assert_eq!(cache.len(), 5);
}

#[test]
fn planned_mode_reports_a_sealed_food() {
    let mut cache = PlanCache::new();
    let me = [2, 3, 2, 2, 2, 1, 1, 1];
    let wall = [4, 1, 4, 2, 4, 3, 4, 4, 4, 5, 4, 6, 4, 7, 4, 8];
    assert_eq!(decide(Mode::Planned, 8, &me, &[], &[6, 6], &wall, 1, 1, 1, &mut cache), -1);
    assert!(cache.is_empty());
}

#[test]
fn shared_mode_scores_the_cells() {
    let mut cache = PlanCache::new();
    for round in [1, 20, 21, 41] {
        assert_eq!(
            decide(Mode::Shared, 5, &ME, &RIVAL, &FOODS, &[], 5, 1, round, &mut cache),
            solution(5, &ME, &RIVAL, 5, &FOODS, 1, round)
        );
    }
    assert!(cache.is_empty());
}

#[test]
fn shut_in_snake_gets_zero_in_every_mode() {
    let me = [1, 1, 1, 2, 2, 2, 2, 1, 3, 1];
    let mut cache = PlanCache::new();
    cache.steps.push(Direction::Right);
    for mode in [Mode::Greedy, Mode::Planned, Mode::Shared] {
        assert_eq!(decide(mode, 5, &me, &[], &[3, 3], &[], 1, 1, 1, &mut cache), 0);
        assert_eq!(cache.steps, vec![Direction::Right]);
    }
    // Shut in by a rival's segment that stays.
    let me = [1, 1, 1, 2, 1, 3, 1, 4];
    let rival = [3, 1, 2, 1, 2, 2, 2, 3];
    assert_eq!(decide(Mode::Greedy, 5, &me, &rival, &[3, 3], &[], 1, 2, 1, &mut cache), 0);
    // The rival's tail leaves the cell.
    let rival = [3, 1, 3, 2, 2, 2, 2, 1];
    assert_eq!(decide(Mode::Greedy, 5, &me, &rival, &[3, 3], &[], 1, 2, 1, &mut cache), 3);
}

#[test]
fn planned_mode_answers_with_the_head_on_the_food() {
    let mut cache = PlanCache::new();
    let me = [3, 3, 3, 4, 3, 5, 3, 6];
    assert_eq!(decide(Mode::Planned, 8, &me, &[], &[3, 3], &[], 1, 1, 1, &mut cache), 2);
    assert!(cache.is_empty());
}

#[test]
fn safe_moves_are_listed_in_order_with_their_scores() {
    let moves = rate_moves(5, &ME, &RIVAL, 5, &FOODS, 1, 38);
    assert_eq!(
        moves,
        vec![
            (Direction::Up, Score::Finite { num: 10, den: 2 }),
            (Direction::Left, Score::Finite { num: 15, den: 2 }),
            (Direction::Right, Score::Finite { num: 10, den: 2 }),
        ]
    );
    let moves = rate_moves(5, &ME, &RIVAL, 5, &FOODS, 1, 20);
    assert_eq!(moves[1], (Direction::Left, Score::Finite { num: 5, den: 2 }));
    // A snake that is shut in has no move to list.
    assert_eq!(rate_moves(5, &[1, 1, 1, 2, 2, 2, 2, 1, 3, 1], &[], 1, &[3, 3], 1, 1), vec![]);
    // Without food every safe move is listed as forbidden.
    assert_eq!(
        rate_moves(8, &[4, 1, 4, 2, 4, 3, 4, 4], &[], 0, &[], 1, 1),
        vec![(Direction::Left, Score::Forbidden), (Direction::Right, Score::Forbidden)]
    );
}
