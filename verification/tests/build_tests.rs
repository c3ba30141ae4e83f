use maze::backtracker;
use maze::carve::BuildError;
use maze::maze::{Maze, Part, Pos};
use maze::prims;
use maze::prims2;
use maze::psolver;
use maze::rng::Prng;
use maze::solver;

fn count_kind(m: &Maze, kind: Part) -> usize {
    let mut n = 0;
    for i in 0..m.board.len() {
        if m.at(&m.to_pos(i)) == kind {
            n += 1;
        }
    }
    n
}

fn finish_pos(m: &Maze) -> Pos {
    for i in 0..m.board.len() {
        let p = m.to_pos(i);
        if m.is_finished(&p) {
            return p;
        }
    }
    panic!("no finish cell");
}

fn has_open_block(m: &Maze) -> bool {
    for y in 0..m.height() - 1 {
        for x in 0..m.width() - 1 {
            if m.is_open(&Pos { x, y })
                && m.is_open(&Pos { x: x + 1, y })
                && m.is_open(&Pos { x, y: y + 1 })
                && m.is_open(&Pos { x: x + 1, y: y + 1 })
            {
                return true;
            }
        }
    }
    false
}

/// Breadth-first reachability over non-wall cells from the start cell.
fn all_open_reachable(m: &Maze) -> bool {
    let start = match m.start_at() {
        Some(p) => p,
        None => return false,
    };
    let mut seen = vec![false; m.board.len()];
    let mut queue = vec![start];
    seen[m.pos_to_index(&start)] = true;
    while let Some(p) = queue.pop() {
        for d in maze::shared::all_directions() {
            if let Some(n) = m.go(&p, &d) {
                let i = m.pos_to_index(&n);
                if !seen[i] && !m.is_wall(&n) {
                    seen[i] = true;
                    queue.push(n);
                }
            }
        }
    }
    for i in 0..m.board.len() {
        let p = m.to_pos(i);
        if !m.is_wall(&p) && !seen[i] {
            return false;
        }
    }
    true
}

fn path_is_valid(m: &Maze, path: &[Pos]) -> bool {
    if path.is_empty() {
        return false;
    }
    if m.at(&path[0]) != Part::Start {
        return false;
    }
    if !m.is_finished(&path[path.len() - 1]) {
        return false;
    }
    for p in path {
        if m.is_wall(p) {
            return false;
        }
    }
    for w in path.windows(2) {
        let dx = w[0].x.abs_diff(w[1].x);
        let dy = w[0].y.abs_diff(w[1].y);
        if dx + dy != 1 {
            return false;
        }
    }
    true
}

#[test]
fn backtracker_scenario_builds_and_solves() {
    let m = backtracker::generate(1, 11, 11).unwrap();
    assert_eq!(count_kind(&m, Part::Start), 1);
    assert_eq!(count_kind(&m, Part::Finish), 1);
    assert_eq!(m.start_at(), Some(Pos { x: 0, y: 1 }));
    let path = psolver::solve(&m).expect("the maze is solvable");
    assert_eq!(path[0], Pos { x: 0, y: 1 });
    assert!(m.is_finished(&path[path.len() - 1]));
    assert!(path_is_valid(&m, &path));
}

#[test]
fn backtracker_has_no_open_block_and_is_connected() {
    let m = backtracker::generate(3, 13, 9).unwrap();
    assert!(!has_open_block(&m));
    assert!(all_open_reachable(&m));
    let f = finish_pos(&m);
    assert_eq!(f.x, m.width() - 1);
    assert!(f.y >= 1 && f.y < m.height() - 1);
}

#[test]
fn prims_scenario_invariants_hold() {
    let m = prims::generate(1, 11, 11).unwrap();
    assert_eq!(count_kind(&m, Part::Start), 1);
    assert_eq!(count_kind(&m, Part::Finish), 1);
    assert!(all_open_reachable(&m));
    assert!(!has_open_block(&m));
    let path = psolver::solve(&m).expect("the maze is solvable");
    assert!(path_is_valid(&m, &path));
}

#[test]
fn prims_backtracker_builds_and_solves() {
    let m = prims2::generate(1, 11, 11).unwrap();
    assert_eq!(count_kind(&m, Part::Start), 1);
    assert_eq!(count_kind(&m, Part::Finish), 1);
    assert!(all_open_reachable(&m));
    assert!(!has_open_block(&m));
    let path = psolver::solve(&m).expect("the maze is solvable");
    assert!(path_is_valid(&m, &path));
}

#[test]
fn builds_are_byte_identical_for_equal_seeds() {
    let a = backtracker::generate(1, 11, 11).unwrap();
    let b = backtracker::generate(1, 11, 11).unwrap();
    assert_eq!(a.board, b.board);
    let c = prims::generate(9, 11, 11).unwrap();
    let d = prims::generate(9, 11, 11).unwrap();
    assert_eq!(c.board, d.board);
    let e = prims2::generate(5, 11, 11).unwrap();
    let f = prims2::generate(5, 11, 11).unwrap();
    assert_eq!(e.board, f.board);
}

#[test]
fn even_or_small_dimensions_are_rejected() {
    assert!(matches!(backtracker::generate(1, 2, 11), Err(BuildError::Dimensions)));
    assert!(matches!(backtracker::generate(1, 11, 1), Err(BuildError::Dimensions)));
    assert!(matches!(backtracker::generate(1, 10, 11), Err(BuildError::Dimensions)));
    assert!(matches!(prims::generate(1, 11, 8), Err(BuildError::Dimensions)));
    assert!(matches!(prims2::generate(1, 0, 0), Err(BuildError::Dimensions)));
}

#[test]
fn tick_solver_reaches_the_finish_within_the_cell_budget() {
    let m = backtracker::generate(1, 11, 11).unwrap();
    let mut rng = Prng::new(1);
    let mut visited: Vec<usize> = Vec::new();
    let mut visitor: Vec<solver::Visit> = Vec::new();
    let mut ticks = 0usize;
    loop {
        ticks += 1;
        assert!(ticks <= 11 * 11, "tick budget exceeded");
        match solver::solve_tick(&m, &mut rng, &mut visited, &mut visitor) {
            solver::Path::Solved => break,
            solver::Path::Cell(idx) => assert!(idx < m.board.len()),
            solver::Path::NoProgress => assert!(!visitor.is_empty() || !visited.is_empty()),
        }
    }
    let path: Vec<Pos> = visitor.iter().map(|v| v.at).collect();
    assert!(path_is_valid(&m, &path));
}

#[test]
fn tick_driver_solves_the_maze() {
    let m = backtracker::generate(1, 11, 11).unwrap();
    let mut rng = Prng::new(1);
    let path = solver::solve_complete(&m, &mut rng).expect("the maze is solvable");
    assert!(path_is_valid(&m, &path));
}

#[test]
fn solvers_report_a_gridless_start_as_unsolvable() {
    let m = Maze::new_empty(5, 5);
    assert!(psolver::solve(&m).is_none());
    let mut rng = Prng::new(1);
    assert!(solver::solve_complete(&m, &mut rng).is_none());
}

#[test]
fn fan_out_solver_emits_one_valid_solution() {
    let m = backtracker::generate(1, 11, 11).unwrap();
    let path = psolver::solve(&m).expect("the maze is solvable");
    assert!(path_is_valid(&m, &path));
}

#[test]
fn smallest_grid_has_one_corridor_and_a_short_path() {
    let m = backtracker::generate(0, 3, 3).unwrap();
    assert_eq!(count_kind(&m, Part::Start), 1);
    assert_eq!(count_kind(&m, Part::Finish), 1);
    assert_eq!(count_kind(&m, Part::Open), 1);
    assert!(m.is_open(&Pos { x: 1, y: 1 }));
    let path = psolver::solve(&m).expect("the maze is solvable");
    assert!(path_is_valid(&m, &path));
    assert_eq!(path.len(), 3);
}

#[test]
fn render_paints_the_palette() {
    let m = backtracker::generate(1, 11, 11).unwrap();
    let path = psolver::solve(&m).unwrap();
    let buf = maze::img::render(&m, &path);
    assert_eq!(buf.len(), 3 * m.board.len());
    let s = m.pos_to_index(&Pos { x: 0, y: 1 });
    assert_eq!(&buf[3 * s..3 * s + 3], &[0, 255, 0]);
    let f = finish_pos(&m);
    let fi = m.pos_to_index(&f);
    assert_eq!(&buf[3 * fi..3 * fi + 3], &[255, 0, 0]);
    let corner = m.pos_to_index(&Pos { x: 0, y: 0 });
    assert_eq!(&buf[3 * corner..3 * corner + 3], &[128, 128, 128]);
    // the second cell of the path is open and overlaid
    let on = m.pos_to_index(&path[1]);
    assert_eq!(&buf[3 * on..3 * on + 3], &[225, 200, 128]);
}

#[test]
fn endpoint_row_stays_inside_the_boundary() {
    for seed in 0..10u64 {
        let m = backtracker::generate(seed, 9, 15).unwrap();
        let f = finish_pos(&m);
        assert_eq!(f.x, m.width() - 1);
        assert!(f.y >= 1 && f.y < m.height() - 1);
    }
}

#[test]
fn solvers_succeed_on_a_hand_made_corridor() {
    // a caller-built grid: Start (0,1), open corridor, Finish (4,1)
    let mut m = Maze::new_empty(3, 5);
    m.change(&Pos { x: 0, y: 1 }, Part::Start);
    m.open(&Pos { x: 1, y: 1 });
    m.open(&Pos { x: 2, y: 1 });
    m.open(&Pos { x: 3, y: 1 });
    m.change(&Pos { x: 4, y: 1 }, Part::Finish);
    let path = psolver::solve(&m).expect("the corridor is solvable");
    assert!(path_is_valid(&m, &path));
    assert_eq!(path.len(), 5);
    let mut rng = Prng::new(0);
    let path2 = solver::solve_complete(&m, &mut rng).expect("the corridor is solvable");
    assert!(path_is_valid(&m, &path2));
}

#[test]
fn solvers_report_a_walled_off_finish_as_unsolvable() {
    let mut m = Maze::new_empty(5, 5);
    m.change(&Pos { x: 0, y: 1 }, Part::Start);
    m.open(&Pos { x: 1, y: 1 });
    m.change(&Pos { x: 3, y: 3 }, Part::Finish);
    assert!(psolver::solve(&m).is_none());
    let mut rng = Prng::new(1);
    assert!(solver::solve_complete(&m, &mut rng).is_none());
}

#[test]
fn greedy_tick_takes_an_adjacent_finish() {
    // Start and Finish adjacent: the goal bite solves it in three ticks
    let mut m = Maze::new_empty(3, 3);
    m.change(&Pos { x: 0, y: 1 }, Part::Start);
    m.change(&Pos { x: 1, y: 1 }, Part::Finish);
    let mut rng = Prng::new(7);
    let mut visited: Vec<usize> = Vec::new();
    let mut visitor: Vec<solver::Visit> = Vec::new();
    assert!(matches!(
        solver::solve_tick(&m, &mut rng, &mut visited, &mut visitor),
        solver::Path::Cell(_)
    ));
    assert!(matches!(
        solver::solve_tick(&m, &mut rng, &mut visited, &mut visitor),
        solver::Path::Cell(_)
    ));
    assert!(matches!(
        solver::solve_tick(&m, &mut rng, &mut visited, &mut visitor),
        solver::Path::Solved
    ));
}
