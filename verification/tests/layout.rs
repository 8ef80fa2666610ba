use worker_wrapper::desc::{parse_desc, DescError};
use worker_wrapper::layout::{fill_rows, layout, mark_map, render, reverse_map};

const SMALL: &[u8] = b"(0,0),(3,0),(3,2),(0,2)#(0,0)##B(2,1)";

#[test]
fn desc_parts_are_read() {
    let d = parse_desc(SMALL).unwrap();
    assert_eq!(d.mine, vec![(0, 0), (3, 0), (3, 2), (0, 2)]);
    assert_eq!(d.worker, (0, 0));
    assert!(d.obstacles.is_empty());
    assert_eq!(d.boosters, vec![(b'B', 2, 1)]);
}

#[test]
fn desc_with_obstacles_and_boosters() {
    let d = parse_desc(b"(0,0),(4,0),(4,4),(0,4)#(1,0)#(1,1),(2,1),(2,2),(1,2);(3,3),(4,3),(4,4),(3,4)#X(0,3);C(3,0)").unwrap();
    assert_eq!(d.obstacles.len(), 2);
    assert_eq!(d.obstacles[1], vec![(3, 3), (4, 3), (4, 4), (3, 4)]);
    assert_eq!(d.boosters, vec![(b'X', 0, 3), (b'C', 3, 0)]);
}

#[test]
fn desc_syntax_errors() {
    assert!(matches!(parse_desc(b"(0,0),(3,0)"), Err(DescError::Syntax)));
    assert!(matches!(parse_desc(b"(0,0),(3,0),(3,2),(0,2)#(0,0)#"), Err(DescError::Syntax)));
    assert!(matches!(parse_desc(b"(0,0),(3,0),(3,2),(0,2)#(0,0)##B(2,1);"), Err(DescError::Syntax)));
    assert!(matches!(parse_desc(b"(0,0),(99999999999,0)#(0,0)##"), Err(DescError::Syntax)));
}

#[test]
fn layout_marks_cells_top_row_first() {
    let d = parse_desc(SMALL).unwrap();
    let g = layout(&d).unwrap();
    assert_eq!((g.width, g.height), (3, 2));
    assert_eq!(g.inside, vec![1; 6]);
    assert_eq!(g.cells, vec![1, 1, 3, 2, 1, 1]);
    assert_eq!(g.worker, (0, 1));
}

#[test]
fn layout_leaves_obstacles_outside() {
    let d = parse_desc(b"(0,0),(3,0),(3,3),(0,3)#(0,0)#(1,1),(2,1),(2,2),(1,2)#").unwrap();
    let g = layout(&d).unwrap();
    assert_eq!(g.inside, vec![1, 1, 1, 1, 0, 1, 1, 1, 1]);
    assert_eq!(g.cells[4], 0);
}

#[test]
fn layout_errors() {
    let on_worker = parse_desc(b"(0,0),(3,0),(3,2),(0,2)#(0,0)##B(0,0)").unwrap();
    assert!(layout(&on_worker).is_err());
    let outside = parse_desc(b"(0,0),(3,0),(3,2),(0,2)#(0,0)##B(5,1)").unwrap();
    assert!(layout(&outside).is_err());
    let unknown = parse_desc(b"(0,0),(3,0),(3,2),(0,2)#(0,0)##Q(1,1)").unwrap();
    assert!(layout(&unknown).is_err());
    let odd = parse_desc(b"(0,0),(3,0),(3,2)#(0,0)##").unwrap();
    assert!(matches!(layout(&odd), Err(DescError::BadContour)));
    let worker_out = parse_desc(b"(0,0),(3,0),(3,2),(0,2)#(0,2)##").unwrap();
    assert!(matches!(layout(&worker_out), Err(DescError::OutOfMap(0, 2))));
    let obstacle_low = parse_desc(b"(0,0),(3,0),(3,2),(0,2)#(0,0)#(1,0),(2,0),(2,3),(1,3)#").unwrap();
    assert!(matches!(layout(&obstacle_low), Err(DescError::BadContour)));
}

#[test]
fn layout_places_by_row_and_column_index() {
    // the worker at column 3 of row 0 of a grid 3 wide lands on the first
    // cell of row 1, and so does a booster at column 4 on the next one
    let d = parse_desc(b"(0,0),(3,0),(3,2),(0,2)#(3,0)##B(4,0)").unwrap();
    let g = layout(&d).unwrap();
    assert_eq!(g.cells, vec![2, 3, 1, 1, 1, 1]);
    assert_eq!(g.worker, (3, 1));
}

#[test]
fn layout_skips_obstacle_edges_right_of_the_grid() {
    let d = parse_desc(b"(0,0),(3,0),(3,2),(0,2)#(0,0)#(5,0),(6,0),(6,7),(5,7)#").unwrap();
    let g = layout(&d).unwrap();
    assert_eq!(g.inside, vec![1; 6]);
}

#[test]
fn render_paints_four_pixels_per_cell() {
    let d = parse_desc(SMALL).unwrap();
    let g = layout(&d).unwrap();
    let img = render(&g);
    assert_eq!(img.len(), 64 * 6);
    let px = |x: usize, y: usize| {
        let at = (y * 4 * g.width + x) * 4;
        (img[at], img[at + 1], img[at + 2], img[at + 3])
    };
    // the booster B at the top right cell
    assert_eq!(px(8, 0), (0xF0, 0xE0, 0x00, 0xFF));
    // the worker at the bottom left cell
    assert_eq!(px(1, 5), (0xF0, 0x30, 0x30, 0xFF));
    // a plain inside cell
    assert_eq!(px(4, 4), (0xFF, 0xFF, 0xB0, 0xFF));
    // the last row and column of a cell are white
    assert_eq!(px(3, 0), (0xFF, 0xFF, 0xFF, 0xFF));
    assert_eq!(px(0, 3), (0xFF, 0xFF, 0xFF, 0xFF));
}

#[test]
fn mark_map_flips_left_edges() {
    let mut map = vec![0; 6];
    let mut points = vec![0, 0, 3, 0, 3, 2, 0, 2];
    mark_map(&mut map, &mut points, 3);
    assert_eq!(points, vec![3, 0, 3, 2, 0, 2, 0, 0]);
    assert_eq!(map, vec![1, 0, 0, 1, 0, 0]);
    fill_rows(&mut map, 3, 2);
    assert_eq!(map, vec![1, 1, 1, 1, 1, 1]);
}

#[test]
fn reverse_map_swaps_rows() {
    let mut map = vec![1, 2, 3, 4, 5, 6];
    reverse_map(&mut map, 2, 3);
    assert_eq!(map, vec![5, 6, 3, 4, 1, 2]);
    let mut odd = vec![7u8, 8, 9];
    reverse_map(&mut odd, 3, 1);
    assert_eq!(odd, vec![7, 8, 9]);
}

#[test]
fn reverse_map_twice_gives_the_map_back() {
    let orig: Vec<i32> = (0..12).collect();
    let mut map = orig.clone();
    reverse_map(&mut map, 4, 3);
    assert_ne!(map, orig);
    reverse_map(&mut map, 4, 3);
    assert_eq!(map, orig);
}

#[test]
fn mark_map_on_no_columns_changes_nothing() {
    let mut map = vec![0, 1, 0];
    let mut points = vec![0, 0, 3, 0, 3, 2, 0, 2];
    mark_map(&mut map, &mut points, 0);
    assert_eq!(map, vec![0, 1, 0]);
    assert_eq!(points, vec![3, 0, 3, 2, 0, 2, 0, 0]);
}

#[test]
fn reverse_map_leaves_cells_past_the_rows() {
    let mut map = vec![1, 2, 3, 4, 5, 6, 7];
    reverse_map(&mut map, 2, 2);
    assert_eq!(map, vec![3, 4, 1, 2, 5, 6, 7]);
}
