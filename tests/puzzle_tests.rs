use n_puzzle_solver::generator::{blank_targets, flip_parity, make_puzzle, swap_empty};
use n_puzzle_solver::goal::make_goal;
use n_puzzle_solver::puzzle::Puzzle;
use n_puzzle_solver::search::{a_star, check_board, BoardError};

fn is_permutation(b: &[usize]) -> bool {
    let mut seen = vec![false; b.len()];
    for &v in b {
        if v >= b.len() || seen[v] {
            return false;
        }
        seen[v] = true;
    }
    true
}

fn one_slide_apart(a: &[usize], b: &[usize], s: usize) -> bool {
    let diff: Vec<usize> = (0..a.len()).filter(|&i| a[i] != b[i]).collect();
    if diff.len() != 2 {
        return false;
    }
    let (p, q) = (diff[0], diff[1]);
    let blank_moves = (a[p] == 0 && b[q] == 0 && b[p] == a[q]) || (a[q] == 0 && b[p] == 0 && b[q] == a[p]);
    let neighbours = (q == p + 1 && p % s + 1 < s) || q == p + s;
    blank_moves && neighbours
}

fn check_solution(path: &[Vec<usize>], start: &[usize], goal: &[usize], s: usize) {
    assert_eq!(path.first().unwrap().as_slice(), start);
    assert_eq!(path.last().unwrap().as_slice(), goal);
    for w in path.windows(2) {
        assert!(one_slide_apart(&w[0], &w[1], s));
    }
}

#[test]
fn goal_of_side_three() {
    assert_eq!(make_goal(3), vec![1, 2, 3, 8, 0, 4, 7, 6, 5]);
}

#[test]
fn goal_of_side_four() {
    assert_eq!(make_goal(4), vec![1, 2, 3, 4, 12, 13, 14, 5, 11, 0, 15, 6, 10, 9, 8, 7]);
}

#[test]
fn goal_of_side_five() {
    assert_eq!(
        make_goal(5),
        vec![
            1, 2, 3, 4, 5, 16, 17, 18, 19, 6, 15, 24, 0, 20, 7, 14, 23, 22, 21, 8, 13, 12, 11, 10, 9
        ]
    );
}

#[test]
fn goal_holds_each_tile_once() {
    for s in 3..12 {
        let g = make_goal(s);
        assert_eq!(g.len(), s * s);
        assert!(is_permutation(&g));
        assert!(check_board(&g, s));
    }
}

#[test]
fn goal_is_the_same_every_time() {
    for s in 3..8 {
        assert_eq!(make_goal(s), make_goal(s));
    }
}

#[test]
fn solving_the_goal_takes_no_move() {
    let g = make_goal(3);
    let path = a_star(&g, &g, 3).unwrap().unwrap();
    assert_eq!(path, vec![g.clone()]);
}

#[test]
fn one_move_from_goal() {
    let g = make_goal(3);
    let start = vec![1, 2, 3, 8, 4, 0, 7, 6, 5];
    let path = a_star(&start, &g, 3).unwrap().unwrap();
    assert_eq!(path, vec![vec![1, 2, 3, 8, 4, 0, 7, 6, 5], vec![1, 2, 3, 8, 0, 4, 7, 6, 5]]);
}

#[test]
fn two_moves_from_goal() {
    let g = make_goal(3);
    let start = vec![1, 2, 3, 8, 4, 5, 7, 6, 0];
    let path = a_star(&start, &g, 3).unwrap().unwrap();
    assert_eq!(path.len(), 3);
    check_solution(&path, &start, &g, 3);
}

#[test]
fn four_moves_from_goal() {
    let g = make_goal(3);
    // blank walked up, left, down, right from the centre: four moves, no shorter way back
    let start = vec![8, 1, 3, 2, 0, 4, 7, 6, 5];
    let path = a_star(&start, &g, 3).unwrap().unwrap();
    assert_eq!(path.len(), 5);
    check_solution(&path, &start, &g, 3);
}

#[test]
fn solution_steps_are_single_slides() {
    for _ in 0..5 {
        let g = make_goal(3);
        let start = make_puzzle(3, true, 20);
        let path = a_star(&start, &g, 3).unwrap().unwrap();
        check_solution(&path, &start, &g, 3);
    }
}

#[test]
fn scrambled_solvable_board_is_solved() {
    for _ in 0..5 {
        let g = make_goal(4);
        let start = make_puzzle(4, true, 10);
        assert!(is_permutation(&start));
        let path = a_star(&start, &g, 4).unwrap().unwrap();
        check_solution(&path, &start, &g, 4);
        assert!(path.len() <= 11);
    }
}

#[test]
fn unsolvable_without_slides_swaps_first_two() {
    assert_eq!(make_puzzle(3, false, 0), vec![2, 1, 3, 8, 0, 4, 7, 6, 5]);
}

#[test]
fn unsolvable_board_is_a_permutation() {
    for _ in 0..5 {
        let b = make_puzzle(4, false, 30);
        assert!(is_permutation(&b));
        assert_ne!(b, make_goal(4));
    }
}

#[test]
fn flip_parity_avoids_the_blank() {
    let mut b = vec![0, 1, 2, 3, 4, 5, 6, 7, 8];
    flip_parity(&mut b);
    assert_eq!(b, vec![0, 1, 2, 3, 4, 5, 6, 8, 7]);
    let mut c = vec![3, 0, 2, 1, 4, 5, 6, 7, 8];
    flip_parity(&mut c);
    assert_eq!(c, vec![3, 0, 2, 1, 4, 5, 6, 8, 7]);
    let mut d = vec![1, 2, 3, 8, 0, 4, 7, 6, 5];
    flip_parity(&mut d);
    assert_eq!(d, vec![2, 1, 3, 8, 0, 4, 7, 6, 5]);
}

#[test]
fn zero_slides_leave_the_goal() {
    assert_eq!(make_puzzle(5, true, 0), make_goal(5));
}

#[test]
fn a_slide_moves_the_blank_to_a_neighbour() {
    for _ in 0..20 {
        let before = make_goal(3);
        let mut after = before.clone();
        swap_empty(&mut after, 3);
        assert_ne!(after, before);
        assert!(one_slide_apart(&before, &after, 3));
    }
}

#[test]
fn blank_targets_by_position() {
    assert_eq!(blank_targets(0, 3), vec![1, 3]);
    assert_eq!(blank_targets(4, 3), vec![3, 5, 1, 7]);
    assert_eq!(blank_targets(8, 3), vec![7, 5]);
    assert_eq!(blank_targets(5, 4), vec![4, 6, 1, 9]);
    assert_eq!(blank_targets(3, 4), vec![2, 7]);
}

#[test]
fn heuristic_values() {
    let g = make_goal(3);
    assert_eq!(Puzzle::heuristic(&g, &g, 3), 0);
    assert_eq!(Puzzle::heuristic(&vec![1, 2, 3, 8, 4, 0, 7, 6, 5], &g, 3), 1);
    assert_eq!(Puzzle::heuristic(&vec![2, 1, 3, 8, 0, 4, 7, 6, 5], &g, 3), 2);
    // tiles 4 and 5 one cell off, tile 1 two rows and two columns off
    assert_eq!(Puzzle::heuristic(&vec![0, 2, 3, 8, 4, 5, 7, 6, 1], &g, 3), 6);
}

#[test]
fn node_fields() {
    let g = make_goal(3);
    let p = Puzzle::new(vec![1, 2, 3, 8, 4, 0, 7, 6, 5], 5, None, 0, &g, 3);
    assert_eq!(p.h, 1);
    assert_eq!(p.g, 0);
    assert_eq!(p.empty_pos, 5);
    let c = p.copy();
    assert_eq!(c.state, p.state);
}

#[test]
fn moves_from_centre_and_corner() {
    let g = make_goal(3);
    let centre = Puzzle::new(g.clone(), 4, None, 0, &g, 3);
    let moves = centre.possible_moves(7, &g);
    let targets: Vec<usize> = moves.iter().map(|m| m.empty_pos).collect();
    assert_eq!(targets, vec![7, 1, 5, 3]);
    for m in &moves {
        assert_eq!(m.g, 1);
        assert_eq!(m.parent, Some(7));
        assert_eq!(m.h, 1);
        assert!(one_slide_apart(&g, &m.state, 3));
    }
    let corner_board = vec![0, 2, 3, 8, 1, 4, 7, 6, 5];
    let corner = Puzzle::new(corner_board, 0, None, 3, &g, 3);
    let moves = corner.possible_moves(0, &g);
    let targets: Vec<usize> = moves.iter().map(|m| m.empty_pos).collect();
    assert_eq!(targets, vec![3, 1]);
    assert!(moves.iter().all(|m| m.g == 4));
}

#[test]
fn malformed_start_is_refused() {
    let g = make_goal(3);
    assert_eq!(a_star(&vec![1, 1, 3, 8, 0, 4, 7, 6, 5], &g, 3), Err(BoardError::MalformedStart));
    assert_eq!(a_star(&vec![1, 2, 3], &g, 3), Err(BoardError::MalformedStart));
    assert_eq!(a_star(&vec![1, 2, 3, 8, 9, 4, 7, 6, 5], &g, 3), Err(BoardError::MalformedStart));
}

#[test]
fn malformed_goal_is_refused() {
    let g = make_goal(3);
    assert_eq!(a_star(&g, &vec![1, 2, 3, 4], 3), Err(BoardError::MalformedGoal));
    assert_eq!(a_star(&g, &make_goal(4), 3), Err(BoardError::MalformedGoal));
}

#[test]
fn board_checks() {
    assert!(check_board(&vec![0, 1, 2, 3], 2));
    assert!(!check_board(&vec![0, 1, 2, 3], 3));
    assert!(!check_board(&vec![0, 1, 1, 3], 2));
    assert!(!check_board(&vec![0, 1, 2, 4], 2));
    assert!(!check_board(&vec![], 0));
}

#[test]
fn unreachable_goal_on_two_by_two() {
    // on a 2x2 grid the blank only cycles around the ring, so swapping two tiles is unreachable
    let start = vec![2, 1, 3, 0];
    let goal = vec![1, 2, 3, 0];
    assert_eq!(a_star(&start, &goal, 2), Ok(None));
}

#[test]
fn one_slide_scramble() {
    let near = [
        vec![1, 2, 3, 8, 6, 4, 7, 0, 5],
        vec![1, 0, 3, 8, 2, 4, 7, 6, 5],
        vec![1, 2, 3, 8, 4, 0, 7, 6, 5],
        vec![1, 2, 3, 0, 8, 4, 7, 6, 5],
    ];
    let flipped = [
        vec![1, 0, 3, 8, 2, 4, 7, 5, 6],
        vec![2, 1, 3, 0, 8, 4, 7, 6, 5],
        vec![2, 1, 3, 8, 4, 0, 7, 6, 5],
        vec![2, 1, 3, 8, 6, 4, 7, 0, 5],
    ];
    for _ in 0..20 {
        assert!(near.contains(&make_puzzle(3, true, 1)));
        assert!(flipped.contains(&make_puzzle(3, false, 1)));
    }
}

#[test]
fn blank_distance_follows_slide_count() {
    let s = 4;
    let goal_blank = make_goal(s).iter().position(|&x| x == 0).unwrap();
    for iterations in 0..12 {
        for solvable in [true, false] {
            let b = make_puzzle(s, solvable, iterations);
            let blank = b.iter().position(|&x| x == 0).unwrap();
            let d = (blank / s).abs_diff(goal_blank / s) + (blank % s).abs_diff(goal_blank % s);
            assert!(d <= iterations);
            assert_eq!(d % 2, iterations % 2);
        }
    }
}

#[test]
fn consecutive_goal_tiles_share_a_side() {
    for s in 3..10 {
        let g = make_goal(s);
        let n = s * s;
        let mut cell = vec![0; n];
        for (i, &t) in g.iter().enumerate() {
            cell[t] = i;
        }
        for t in 1..n {
            let (a, b) = (cell[t], cell[(t + 1) % n]);
            assert_eq!((a / s).abs_diff(b / s) + (a % s).abs_diff(b % s), 1);
        }
    }
}
