use worker_wrapper::assign::{get_map_c, next_arm, refresh_modes, search_c, search_x, Mode};
use worker_wrapper::cells::{glyph, glyph_rows, parse_buy, BoostItem, Cell, CellState, Point};
use worker_wrapper::greedy;
use worker_wrapper::multi;
use worker_wrapper::single;
use std::collections::VecDeque;

const OPEN: &[u8] = b"(0,0),(4,0),(4,3),(0,3)#(0,0)##";

#[test]
fn greedy_start_and_wrap() {
    let mut p = greedy::Position::from_desc(OPEN).unwrap();
    assert_eq!((p.width, p.height), (4, 3));
    assert_eq!(p.body, greedy::Point { x: 0, y: 2 });
    assert_eq!(p.map[8], greedy::Cell::Wrapped);
    assert_eq!(p.count_empty(), 11);
    let mut w = Vec::new();
    p.wrap(&mut w);
    assert_eq!(w, vec![greedy::Point { x: 1, y: 1 }, greedy::Point { x: 1, y: 2 }]);
    assert_eq!(p.count_empty(), 9);
    assert!(p.is_out(4, 0));
    assert!(p.is_out(0, -1));
    assert!(!p.is_out(3, 2));
}

#[test]
fn greedy_back_undoes_apply() {
    let mut p = greedy::Position::from_desc(OPEN).unwrap();
    p.wrap(&mut Vec::new());
    for mo in [greedy::Move::D, greedy::Move::W, greedy::Move::Clockwize, greedy::Move::Anticlockwise] {
        let map = p.map.clone();
        let body = p.body;
        let direction = p.direction;
        let r = p.apply(&mo).unwrap();
        p.back(&mo, &r);
        assert_eq!(p.map, map);
        assert_eq!(p.body, body);
        assert_eq!(p.direction, direction);
    }
}

#[test]
fn greedy_apply_wraps_new_cells() {
    let mut p = greedy::Position::from_desc(OPEN).unwrap();
    p.wrap(&mut Vec::new());
    let r = p.apply(&greedy::Move::D).unwrap();
    assert_eq!(p.body, greedy::Point { x: 1, y: 2 });
    assert_eq!(r.wrapped, vec![greedy::Point { x: 2, y: 1 }, greedy::Point { x: 2, y: 2 }]);
    // walking off the grid is refused and changes nothing
    assert!(p.apply(&greedy::Move::S).is_none());
    assert_eq!(p.body, greedy::Point { x: 1, y: 2 });
}

#[test]
fn greedy_find_target_heads_for_an_empty_cell() {
    let mut p = greedy::Position::from_desc(OPEN).unwrap();
    p.wrap(&mut Vec::new());
    let t = p.find_target();
    assert_eq!(Vec::from(t.moves), vec![greedy::Move::W]);
}

#[test]
fn multi_back_undoes_apply() {
    let mut p = multi::Position::from_desc(OPEN).unwrap();
    p.wrap(&mut Vec::new());
    for mo in [multi::Move::D, multi::Move::S, multi::Move::W, multi::Move::Clockwize, multi::Move::Anticlockwise] {
        let map = p.map.clone();
        let point = p.bodies[0].point;
        let direction = p.bodies[0].direction;
        if let Some(r) = p.apply(true, &mo) {
            p.back(&mo, &r);
        }
        assert_eq!(p.map, map);
        assert_eq!(p.bodies[0].point, point);
        assert_eq!(p.bodies[0].direction, direction);
    }
}

#[test]
fn multi_walk_counts() {
    let mut p = multi::Position::from_desc(OPEN).unwrap();
    assert_eq!(p.count_unwrapped(), 11);
    p.wrap(&mut Vec::new());
    assert_eq!(p.count_unwrapped(), 9);
    let r = p.apply(false, &multi::Move::D).unwrap();
    assert_eq!(r.wrapped, vec![Point { x: 2, y: 1 }, Point { x: 2, y: 2 }]);
    assert_eq!(p.count_unwrapped(), 7);
    assert!(p.is_wrapped(2, 2));
    assert!(!p.is_wrapped(3, 2));
    assert_eq!(p.get_body().point, Point { x: 1, y: 2 });
}

#[test]
fn move_strings() {
    assert_eq!(multi::Move::B(Point { x: 1, y: -2 }).get_string(), "B(1,-2)");
    assert_eq!(multi::Move::B(Point { x: -10, y: 0 }).get_string(), "B(-10,0)");
    assert_eq!(multi::Move::Clockwize.get_string(), "E");
    assert_eq!(multi::Move::Anticlockwise.get_string(), "Q");
    assert_eq!(multi::Move::W.get_string(), "W");
    assert_eq!(multi::Move::Z.get_string(), "Z");
    assert_eq!(multi::Move::C.get_string(), "C");
}

#[test]
fn available_moves_offer_speed_when_held() {
    let mut p = multi::Position::from_desc(OPEN).unwrap();
    assert_eq!(p.get_available_moves().len(), 6);
    p.apply_boosts(&vec![BoostItem::F, BoostItem::C, BoostItem::B]);
    assert_eq!(p.bodies[0].rest_f, 1);
    assert_eq!(p.bodies[0].rest_b, 1);
    assert_eq!(p.rest_c, 1);
    let moves = p.get_available_moves();
    assert_eq!(moves.len(), 7);
    assert_eq!(moves[6], multi::Move::F);
}

#[test]
fn purchase_lists() {
    assert_eq!(parse_buy(b"BFx\nLRC"), vec![BoostItem::B, BoostItem::F, BoostItem::L, BoostItem::R, BoostItem::C]);
    assert!(parse_buy(b"").is_empty());
}

#[test]
fn boosters_are_picked_up() {
    let mut p = multi::Position::from_desc(b"(0,0),(3,0),(3,1),(0,1)#(0,0)##B(1,0)").unwrap();
    p.wrap(&mut Vec::new());
    assert_eq!(p.map[1].state, CellState::B);
    let r = p.apply(false, &multi::Move::D).unwrap();
    assert_eq!(r.boost_item, Some(BoostItem::B));
    assert_eq!(p.bodies[0].rest_b, 1);
    assert_eq!(p.map[1], Cell { is_wrapped: true, state: CellState::Blank });
}

#[test]
fn clone_spots_and_boosters_are_found() {
    let p = multi::Position::from_desc(b"(0,0),(4,0),(4,1),(0,1)#(0,0)##X(3,0);C(2,0)").unwrap();
    let modes = vec![Mode::Normal(VecDeque::new())];
    let x = search_x(&p, &modes).unwrap();
    assert_eq!(x.index, 0);
    assert_eq!(Vec::from(x.moves), vec![multi::Move::D, multi::Move::D, multi::Move::D]);
    let cs = get_map_c(&p);
    assert_eq!(cs, vec![(2, 0)]);
    let c = search_c(&p, &modes, &cs).unwrap();
    assert_eq!(c.c, (2, 0));
    assert_eq!(Vec::from(c.moves), vec![multi::Move::D, multi::Move::D]);
    let busy = vec![Mode::X(VecDeque::new())];
    assert!(search_x(&p, &busy).is_none());
}

#[test]
fn single_back_undoes_apply() {
    let mut p = single::Position::from_desc(OPEN).unwrap();
    p.wrap(&mut Vec::new());
    assert_eq!(p.count_unwrapped(), 9);
    for mo in [single::Move::D, single::Move::W, single::Move::Clockwize] {
        let map = p.map.clone();
        let body = p.body;
        let r = p.apply(&mo).unwrap();
        p.back(&mo, &r);
        assert_eq!(p.map, map);
        assert_eq!(p.body, body);
    }
}

#[test]
fn single_candidates_end_on_unwrapped_cells() {
    let mut p = single::Position::from_desc(OPEN).unwrap();
    p.wrap(&mut Vec::new());
    let cs = p.target_candidates();
    assert!(!cs.is_empty());
    for c in &cs {
        assert!(!p.is_wrapped(c.x, c.y));
    }
}

#[test]
fn greedy_map_as_text() {
    let mut p = greedy::Position::from_desc(OPEN).unwrap();
    p.wrap(&mut Vec::new());
    assert_eq!(p.glyph_rows(), b"....\n.-..\n@-..".iter().filter(|c| **c != b'\n').cloned().collect::<Vec<u8>>());
}

#[test]
fn cells_as_text() {
    let p = multi::Position::from_desc(b"(0,0),(3,0),(3,1),(0,1)#(0,0)##C(2,0)").unwrap();
    let body = p.get_body().point;
    assert_eq!(glyph_rows(&p.map, p.width, p.height, body.x, body.y), b"@.C".to_vec());
    let wall = Cell { is_wrapped: true, state: CellState::Wall };
    assert_eq!(glyph(&wall), b'#');
    assert_eq!(glyph(&Cell { is_wrapped: true, state: CellState::Blank }), b'-');
}

#[test]
fn greedy_try_find_target_without_empty_cells() {
    let mut p = greedy::Position::from_desc(b"(0,0),(2,0),(2,1),(0,1)#(0,0)##").unwrap();
    p.wrap(&mut Vec::new());
    assert_eq!(p.count_empty(), 0);
    assert!(p.try_find_target().is_none());
}

#[test]
fn first_candidate_is_nearest() {
    let mut p = multi::Position::from_desc(b"(0,0),(5,0),(5,1),(0,1)#(0,0)##").unwrap();
    p.wrap(&mut Vec::new());
    // the worker at (0,0) has wrapped (0,0) and (1,0); (2,0) is two steps away
    let cs = p.target_candidates();
    assert_eq!(Vec::from(cs[0].moves.clone()), vec![multi::Move::D, multi::Move::D]);
    assert_eq!((cs[0].x, cs[0].y), (2, 0));
    for c in &cs {
        assert!(c.moves.len() >= cs[0].moves.len());
    }
}

#[test]
fn next_arm_alternates_sides() {
    let mut p = multi::Position::from_desc(OPEN).unwrap();
    assert_eq!(next_arm(&p), Point { x: 1, y: -2 });
    p.bodies[0].manipulators.push(Point { x: 1, y: -2 });
    assert_eq!(next_arm(&p), Point { x: 1, y: 2 });
    p.bodies[0].direction = 1;
    assert_eq!(next_arm(&p), Point { x: 2, y: -1 });
}

#[test]
fn finished_errands_free_their_workers() {
    let mut modes = vec![
        Mode::X(VecDeque::new()),
        Mode::C(VecDeque::new()),
        Mode::C(VecDeque::from(vec![multi::Move::W])),
        Mode::Normal(VecDeque::from(vec![multi::Move::D])),
    ];
    let (x, normal) = refresh_modes(&mut modes, 4, 0);
    assert_eq!((x, normal), (0, 3));
    assert!(matches!(&modes[0], Mode::Normal(q) if q.is_empty()));
    assert!(matches!(&modes[2], Mode::C(q) if q.len() == 1));
    assert!(matches!(&modes[3], Mode::Normal(q) if q.len() == 1));
    let mut held = vec![Mode::X(VecDeque::new())];
    assert_eq!(refresh_modes(&mut held, 1, 2), (1, 0));
}

#[test]
fn greedy_step_prefers_the_most_wrapping_move() {
    let mut p = greedy::Position::from_desc(OPEN).unwrap();
    p.wrap(&mut Vec::new());
    let map = p.map.clone();
    let mut prev: Option<greedy::Target> = Some(greedy::Target { moves: VecDeque::from(vec![greedy::Move::D]) });
    assert_eq!(p.choose_move(&mut prev), Some(greedy::Move::W));
    assert!(prev.is_none());
    assert_eq!(p.map, map);
    assert_eq!(p.body, greedy::Point { x: 0, y: 2 });
}

#[test]
fn greedy_step_heads_for_the_nearest_empty_cell() {
    let mut p = greedy::Position::from_desc(OPEN).unwrap();
    for c in p.map.iter_mut() {
        *c = greedy::Cell::Wrapped;
    }
    p.map[3] = greedy::Cell::Empty;
    let mut prev: Option<greedy::Target> = None;
    assert_eq!(p.choose_move(&mut prev), Some(greedy::Move::W));
    let rest: Vec<greedy::Move> = prev.as_ref().unwrap().moves.iter().cloned().collect();
    assert_eq!(rest, vec![greedy::Move::W, greedy::Move::D, greedy::Move::D, greedy::Move::D]);
    // the next step follows the route
    assert_eq!(p.choose_move(&mut prev), Some(greedy::Move::W));
    assert_eq!(prev.as_ref().unwrap().moves.len(), 3);
    // nothing left to reach
    p.map[3] = greedy::Cell::Wrapped;
    let mut none: Option<greedy::Target> = None;
    assert_eq!(p.choose_move(&mut none), None);
}

#[test]
fn multi_candidates_list_every_goal_in_the_window() {
    let mut p = multi::Position::from_desc(b"(0,0),(5,0),(5,1),(0,1)#(0,0)##").unwrap();
    p.wrap(&mut Vec::new());
    let cs = p.target_candidates();
    assert_eq!(cs.len(), 3);
    let ends: Vec<(i32, i32, usize)> = cs.iter().map(|c| (c.x, c.y, c.moves.len())).collect();
    assert_eq!(ends, vec![(2, 0, 2), (3, 0, 3), (4, 0, 4)]);
    assert_eq!(Vec::from(cs[2].moves.clone()), vec![multi::Move::D; 4]);
}

#[test]
fn single_candidates_list_every_goal_in_the_window() {
    let mut p = single::Position::from_desc(b"(0,0),(5,0),(5,1),(0,1)#(0,0)##").unwrap();
    p.wrap(&mut Vec::new());
    let cs = p.target_candidates();
    let ends: Vec<(i32, i32, usize)> = cs.iter().map(|c| (c.x, c.y, c.moves.len())).collect();
    assert_eq!(ends, vec![(2, 0, 2), (3, 0, 3), (4, 0, 4)]);
}

#[test]
fn arm_moves_write_every_i32() {
    assert_eq!(multi::Move::B(Point { x: i32::MIN, y: 1234567 }).get_string(), "B(-2147483648,1234567)");
    assert_eq!(multi::Move::B(Point { x: 0, y: i32::MAX }).get_string(), "B(0,2147483647)");
}

#[test]
fn candidates_stop_a_hundred_entries_after_the_first() {
    let mut p = multi::Position::from_desc(b"(0,0),(150,0),(150,1),(0,1)#(0,0)##").unwrap();
    p.wrap(&mut Vec::new());
    let cs = p.target_candidates();
    assert_eq!(cs.len(), 100);
    assert_eq!((cs[0].x, cs[0].y), (2, 0));
    assert_eq!((cs[99].x, cs[99].y), (101, 0));
}

#[test]
fn a_worker_past_the_width_is_refused() {
    let text: &[u8] = b"(0,0),(3,0),(3,2),(0,2)#(3,0)##";
    assert!(matches!(greedy::Position::from_desc(text), Err(worker_wrapper::desc::DescError::OutOfMap(3, 0))));
    assert!(matches!(single::Position::from_desc(text), Err(worker_wrapper::desc::DescError::OutOfMap(3, 0))));
    assert!(matches!(multi::Position::from_desc(text), Err(worker_wrapper::desc::DescError::OutOfMap(3, 0))));
}
