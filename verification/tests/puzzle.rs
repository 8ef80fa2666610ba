use worker_wrapper::carve::cut;
use worker_wrapper::chain::{value_at, Puzzle, Task};
use worker_wrapper::desc::{parse_cond, DescError};
use worker_wrapper::union::union_find;

fn small_puzzle(size: i32) -> Puzzle {
    Puzzle {
        size,
        v_min: 4,
        v_max: 20,
        m_num: 1,
        f_num: 1,
        d_num: 0,
        r_num: 0,
        c_num: 0,
        x_num: 0,
        white_list: vec![],
        black_list: vec![],
    }
}

#[test]
fn cond_text_is_read() {
    let text = b"1,1,5,4,10,1,2,0,0,0,1#(0,0),(1,1)#(4,4)";
    let cond = parse_cond(text).unwrap();
    assert_eq!(cond.params, vec![1, 1, 5, 4, 10, 1, 2, 0, 0, 0, 1]);
    assert_eq!(cond.white, vec![(0, 0), (1, 1)]);
    assert_eq!(cond.black, vec![(4, 4)]);
    let puzzle = Puzzle::from_cond(&cond).unwrap();
    assert_eq!(puzzle.size, 5);
    assert_eq!(puzzle.v_min, 4);
    assert_eq!(puzzle.v_max, 10);
    assert_eq!(puzzle.m_num, 1);
    assert_eq!(puzzle.f_num, 2);
    assert_eq!(puzzle.x_num, 1);
    assert_eq!(puzzle.white_list, vec![(0, 0), (1, 1)]);
    assert_eq!(puzzle.black_list, vec![(4, 4)]);
}

#[test]
fn cond_repeats_are_dropped() {
    let cond = parse_cond(b"1,1,5,4,10,1,2,0,0,0,1#(0,0),(1,1),(0,0)#(4,4),(4,4)").unwrap();
    let puzzle = Puzzle::from_cond(&cond).unwrap();
    assert_eq!(puzzle.white_list, vec![(0, 0), (1, 1)]);
    assert_eq!(puzzle.black_list, vec![(4, 4)]);
}

#[test]
fn cond_errors() {
    assert!(matches!(parse_cond(b"1,1,5,4,10,1,2,0,0,0#(0,0)#(4,4)"), Err(DescError::Syntax)));
    assert!(matches!(parse_cond(b"1,1,5,4,10,1,2,0,0,0,1#(0,0)"), Err(DescError::Syntax)));
    let cond = parse_cond(b"1,1,5,4,10,1,2,0,0,0,1#(0,5)#(4,4)").unwrap();
    assert!(matches!(Puzzle::from_cond(&cond), Err(DescError::OutOfMap(0, 5))));
    let cond = parse_cond(b"1,1,40000,4,10,1,2,0,0,0,1#(0,0)#(4,4)").unwrap();
    assert!(matches!(Puzzle::from_cond(&cond), Err(DescError::TooLarge)));
}

#[test]
fn value_at_is_false_off_the_grid() {
    let map = vec![true, false, false, true];
    assert!(value_at(&map, 0, 0, 2));
    assert!(!value_at(&map, 1, 0, 2));
    assert!(value_at(&map, 1, 1, 2));
    assert!(!value_at(&map, -1, 0, 2));
    assert!(!value_at(&map, 2, 1, 2));
}

#[test]
fn union_find_counts_padded_regions() {
    // a full grid: the padding and the grid are two regions
    assert_eq!(union_find(&vec![true; 9], 3), 2);
    // a hole in the middle makes a third region
    let mut map = vec![true; 9];
    map[4] = false;
    assert_eq!(union_find(&map, 3), 3);
    // an empty grid is one region with its padding
    assert_eq!(union_find(&vec![false; 4], 2), 1);
}

#[test]
fn analyze_a_full_square() {
    let mut puzzle = small_puzzle(3);
    puzzle.white_list = vec![(0, 0)];
    puzzle.black_list = vec![(2, 2), (1, 1)];
    let map = vec![true; 9];
    let r = puzzle.analyze(&map);
    assert_eq!(r.width, 2);
    assert_eq!(r.height, 2);
    assert_eq!(r.cell_count, 9);
    assert!(r.rest_white.is_empty());
    assert_eq!(r.rest_black, vec![(2, 2), (1, 1)]);
    assert_eq!(r.v_count, 4);
    assert_eq!(r.union_count, 2);
}

#[test]
fn analyze_an_l_shape() {
    let mut puzzle = small_puzzle(2);
    puzzle.white_list = vec![(1, 1)];
    let map = vec![true, true, true, false];
    let r = puzzle.analyze(&map);
    assert_eq!(r.cell_count, 3);
    assert_eq!(r.rest_white, vec![(1, 1)]);
    assert_eq!(r.v_count, 6);
    assert_eq!(r.union_count, 2);
}

#[test]
fn task_of_a_square() {
    let mut puzzle = small_puzzle(2);
    let map = vec![true; 4];
    let task = Task::new(&mut puzzle, &map);
    assert_eq!(task.worker, (0, 0));
    assert_eq!(task.boosts, vec![("B".to_string(), 0, 1), ("F".to_string(), 1, 0)]);
    assert_eq!(task.map, vec![(0, 0), (2, 0), (2, 2), (0, 2)]);
    assert_eq!(puzzle.m_num, 0);
    assert_eq!(puzzle.f_num, 0);
}

#[test]
fn cut_runs_to_a_cleared_cell() {
    // a 4x4 grid, cleared at (3,0); a cut from (0,0) heading right
    let mut map = vec![true; 16];
    map[3] = false;
    cut(&vec![], &mut map, 4, (0, 0), (1, 0));
    // (0,0) is cleared, then at (1,0) the cell above is off the grid
    assert!(!map[0]);
    assert!(map[1]);
    assert_eq!(map.iter().filter(|b| !**b).count(), 2);
}

#[test]
fn cut_turns_before_required_cells() {
    let mut map = vec![true; 25];
    // start in the middle heading right; (3,2) is required
    cut(&vec![(3, 2)], &mut map, 5, (2, 2), (1, 0));
    // the required cell is never cleared
    assert!(map[2 * 5 + 3]);
    assert!(!map[2 * 5 + 2]);
}

#[test]
fn nibble_clears_the_end_of_a_run() {
    let puzzle = small_puzzle(4);
    let mut map = vec![true; 16];
    // from (0,1) heading right (the fourth way) the run ends at (3,1)
    puzzle.nibble(&mut map, 0, 1, 3);
    let cleared: Vec<usize> = (0..16).filter(|i| !map[*i]).collect();
    assert_eq!(cleared, vec![7]);
}

#[test]
fn random_cut_never_clears_required_cells() {
    let mut puzzle = small_puzzle(6);
    puzzle.white_list = vec![(2, 2), (3, 3)];
    puzzle.black_list = vec![(0, 0), (5, 5)];
    let mut rng = rand::thread_rng();
    for _ in 0..20 {
        let mut map = vec![true; 36];
        puzzle.carve_random(&mut map, &mut rng);
        assert!(map[2 * 6 + 2]);
        assert!(map[3 * 6 + 3]);
        assert!(!map[0] || !map[35]);
    }
}

#[test]
fn nibbling_only_clears() {
    let puzzle = small_puzzle(5);
    let mut rng = rand::thread_rng();
    let mut map = vec![true; 25];
    let mut cleared = 0;
    for _ in 0..30 {
        let before = map.clone();
        let heading = Puzzle::draw_heading(&mut rng);
        assert!(heading < 4);
        if puzzle.try_nibble(&mut map, &mut rng, heading) {
            cleared += 1;
            let changed: Vec<usize> = (0..25).filter(|i| map[*i] != before[*i]).collect();
            assert!(changed.len() <= 1);
        } else {
            assert_eq!(map, before);
        }
        for i in 0..25 {
            assert!(!map[i] || before[i]);
        }
    }
    assert!(cleared > 0);
}

#[test]
fn random_cuts_leave_fewer_forbidden_cells() {
    let mut puzzle = small_puzzle(8);
    puzzle.black_list = vec![(0, 0), (7, 7), (3, 4), (6, 1)];
    let mut rng = rand::thread_rng();
    let mut map = vec![true; 64];
    let mut before = puzzle.analyze(&map).rest_black.len();
    while before > 0 {
        puzzle.carve_random(&mut map, &mut rng);
        let after = puzzle.analyze(&map).rest_black.len();
        assert!(after < before);
        before = after;
    }
}

#[test]
fn random_cuts_vary() {
    let mut puzzle = small_puzzle(8);
    puzzle.black_list = vec![(0, 0), (7, 7), (3, 4), (6, 1)];
    let mut rng = rand::thread_rng();
    let mut seen: Vec<Vec<bool>> = Vec::new();
    for _ in 0..40 {
        let mut map = vec![true; 64];
        puzzle.carve_random(&mut map, &mut rng);
        if !seen.contains(&map) {
            seen.push(map);
        }
    }
    assert!(seen.len() > 1);
}

#[test]
fn nibbling_a_full_grid_always_takes() {
    let puzzle = small_puzzle(4);
    let mut rng = rand::thread_rng();
    for _ in 0..10 {
        let mut map = vec![true; 16];
        let heading = Puzzle::draw_heading(&mut rng);
        assert!(puzzle.try_nibble(&mut map, &mut rng, heading));
        assert_eq!(map.iter().filter(|b| !**b).count(), 1);
    }
}

#[test]
fn root_points_the_path_at_the_root() {
    let mut t = vec![1, 2, -1];
    assert_eq!(worker_wrapper::union::root(&mut t, 0), 2);
    assert_eq!(t, vec![2, 2, -1]);
}

#[test]
fn unite_links_by_rank() {
    let mut t = vec![-1, -1];
    worker_wrapper::union::unite(&mut t, 0, 1);
    assert_eq!(t, vec![-2, 0]);
    let mut u = vec![-1, -2, 1];
    worker_wrapper::union::unite(&mut u, 0, 2);
    assert_eq!(u, vec![1, -2, 1]);
    let mut v = vec![-1, -2, 1];
    worker_wrapper::union::unite(&mut v, 2, 0);
    assert_eq!(v, vec![1, -2, 1]);
}
