use maze::maze::{Maze, Part, Pos};
use maze::shared::{all_directions, opposite_dir, Direction};

#[test]
fn index_round_trip_positions() {
    let m = Maze::new_empty(5, 7);
    for y in 0..5usize {
        for x in 0..7usize {
            let p = Pos { x, y };
            let i = m.pos_to_index(&p);
            assert_eq!(m.to_pos(i), p);
        }
    }
}

#[test]
fn index_round_trip_indices() {
    let m = Maze::new_empty(5, 7);
    for i in 0..35usize {
        let p = m.to_pos(i);
        assert_eq!(m.pos_to_index(&p), i);
    }
}

#[test]
fn opposite_is_involution() {
    for d in all_directions() {
        assert_eq!(opposite_dir(&opposite_dir(&d)), d);
    }
}

#[test]
fn move_rejects_exactly_the_boundary() {
    let m = Maze::new_empty(3, 3);
    let corner = Pos { x: 0, y: 0 };
    assert_eq!(m.go(&corner, &Direction::Up), None);
    assert_eq!(m.go(&corner, &Direction::Left), None);
    assert_eq!(m.go(&corner, &Direction::Down), Some(Pos { x: 0, y: 1 }));
    assert_eq!(m.go(&corner, &Direction::Right), Some(Pos { x: 1, y: 0 }));
    let mid = Pos { x: 1, y: 1 };
    assert_eq!(m.go(&mid, &Direction::Up), Some(Pos { x: 1, y: 0 }));
    assert_eq!(m.go(&mid, &Direction::Down), Some(Pos { x: 1, y: 2 }));
    assert_eq!(m.go(&mid, &Direction::Left), Some(Pos { x: 0, y: 1 }));
    assert_eq!(m.go(&mid, &Direction::Right), Some(Pos { x: 2, y: 1 }));
    let far = Pos { x: 2, y: 2 };
    assert_eq!(m.go(&far, &Direction::Down), None);
    assert_eq!(m.go(&far, &Direction::Right), None);
}

#[test]
fn open_is_idempotent() {
    let mut m = Maze::new_empty(3, 3);
    let p = Pos { x: 1, y: 1 };
    m.open(&p);
    let once = m.board.clone();
    m.open(&p);
    assert_eq!(m.board, once);
    assert!(m.is_open(&p));
}

#[test]
fn new_empty_is_all_wall() {
    let m = Maze::new_empty(3, 5);
    assert_eq!(m.height(), 3);
    assert_eq!(m.width(), 5);
    assert_eq!(m.height_edge(), 2);
    assert_eq!(m.width_edge(), 4);
    for i in 0..15usize {
        let p = m.to_pos(i);
        assert!(m.is_wall(&p));
        assert!(!m.is_open(&p));
        assert!(!m.is_finished(&p));
        assert_eq!(m.at(&p), Part::Wall);
    }
    assert_eq!(m.start_at(), None);
}

#[test]
fn start_at_finds_the_unique_start() {
    let mut m = Maze::new_empty(5, 5);
    assert_eq!(m.start_at(), None);
    let p = Pos { x: 2, y: 3 };
    m.change(&p, Part::Start);
    assert_eq!(m.start_at(), Some(p));
}

#[test]
fn prng_streams_with_equal_seeds_agree() {
    let mut a = maze::rng::Prng::new(42);
    let mut b = maze::rng::Prng::new(42);
    for _ in 0..100 {
        assert_eq!(a.next(), b.next());
    }
    let mut c = maze::rng::Prng::new(7);
    let x = c.next_below(10);
    assert!(x < 10);
}
