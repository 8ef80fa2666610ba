//! Sending the free workers of the multi-worker solver to the spot where
//! clones are made, or to the clone boosters left on the map.
use vstd::prelude::*;
use crate::cells::{counter_rotate_spec, Cell, CellState, Point};
use crate::grid::{idx, in_grid, lemma_index};
use crate::multi::{
    all_walks, body_ok, goal_reachable, masks, move_code, moves_of, open_cells, route_end, BodyModel, Move, Position,
    PositionModel,
};
use crate::route::{covers, explore, found_entries, found_ok, nearest, no_boost, searched, walk_to, Entry, Field};

verus! {

/// What a worker is doing: searching freely, heading for the clone spot,
/// or heading for a clone booster, with the moves left on its way.
pub enum Mode {
    Normal(std::collections::VecDeque<Move>),
    X(std::collections::VecDeque<Move>),
    C(std::collections::VecDeque<Move>),
}

/// A worker sent on its way, and the moves to take.
pub struct SearchXResult {
    pub index: usize,
    pub moves: std::collections::VecDeque<Move>,
}

/// A worker sent to a clone booster, the moves to take and the booster's
/// cell.
pub struct SearchCResult {
    pub index: usize,
    pub moves: std::collections::VecDeque<Move>,
    pub c: (i32, i32),
}

/// No worker in normal mode has boosted steps left.
pub open spec fn free_unboosted(p: PositionModel, modes: Seq<Mode>) -> bool {
    forall|i: int| 0 <= i < modes.len() && (#[trigger] modes[i]) is Normal ==> p.bodies[i].fast <= 0
}

/// No worker in normal mode can reach a cell that `goal` marks.
pub open spec fn none_reaches(p: PositionModel, modes: Seq<Mode>, goal: Seq<bool>) -> bool {
    forall|i: int| 0 <= i < modes.len() && (#[trigger] modes[i]) is Normal ==> !goal_reachable(p, p.bodies[i], goal)
}

/// No worker in normal mode has a route shorter than `len` steps to a cell
/// that `goal` marks.
pub open spec fn nearest_free(p: PositionModel, modes: Seq<Mode>, goal: Seq<bool>, len: nat) -> bool {
    forall|i: int, path: Seq<u8>|
        #![trigger modes[i], walk_to(open_cells(p.map), p.width as int, p.height as int, p.bodies[i].point.x as int, p.bodies[i].point.y as int, p.bodies[i].fast as int, path)]
        0 <= i < modes.len() && modes[i] is Normal && walk_to(
            open_cells(p.map),
            p.width as int,
            p.height as int,
            p.bodies[i].point.x as int,
            p.bodies[i].point.y as int,
            p.bodies[i].fast as int,
            path,
        ) is Some && goal[idx(
            (walk_to(open_cells(p.map), p.width as int, p.height as int, p.bodies[i].point.x as int, p.bodies[i].point.y as int, p.bodies[i].fast as int, path)->0).0,
            (walk_to(open_cells(p.map), p.width as int, p.height as int, p.bodies[i].point.x as int, p.bodies[i].point.y as int, p.bodies[i].fast as int, path)->0).1,
            p.width as int,
        )] ==> len <= path.len()
}

/// The indices of the workers in normal mode among the first `n`, in order.
pub open spec fn free_indices(modes: Seq<Mode>, n: int) -> Seq<int>
    decreases n,
{
    if n <= 0 {
        Seq::empty()
    } else if modes[n - 1] is Normal {
        free_indices(modes, n - 1).push(n - 1)
    } else {
        free_indices(modes, n - 1)
    }
}

/// The workers in normal mode as starts of a search: cell and boost.
pub open spec fn free_starts(p: PositionModel, modes: Seq<Mode>) -> Seq<(i32, i32, i32)> {
    free_indices(modes, modes.len() as int).map_values(|i: int| (p.bodies[i].point.x, p.bodies[i].point.y, p.bodies[i].fast))
}

/// What the search from the free workers for cells that `goal` marks
/// gives, trying left, up, down and right in turn: the first goal entry it
/// takes from its queue, if any.
pub open spec fn free_search(p: PositionModel, modes: Seq<Mode>, goal: Seq<bool>) -> Seq<Entry> {
    searched(
        Field { open: open_cells(p.map), width: p.width as int, height: p.height as int, starts: free_starts(p, modes) },
        seq![1u8, 0u8, 2u8, 3u8],
        goal,
        false,
    )
}

/// The workers in normal mode, as starts of a search, with their indices.
fn free_workers(position: &Position, modes: &Vec<Mode>) -> (r: (Vec<(i32, i32, i32)>, Vec<usize>))
    requires
        position@.wf(),
        modes@.len() <= position.bodies@.len(),
    ensures
        r.0@.len() == r.1@.len(),
        r.0@.len() <= modes@.len(),
        forall|k: int|
            0 <= k < r.1@.len() ==> {
                let i = #[trigger] r.1@[k] as int;
                &&& i < modes@.len()
                &&& modes@[i] is Normal
                &&& r.0@[k] == (position@.bodies[i].point.x, position@.bodies[i].point.y, position@.bodies[i].fast)
            },
        forall|i: int| 0 <= i < modes@.len() && (#[trigger] modes@[i]) is Normal ==> exists|k: int| 0 <= k < r.1@.len() && r.1@[k] == i,
        forall|k: int| 0 <= k < r.0@.len() ==> in_grid(#[trigger] r.0@[k].0 as int, r.0@[k].1 as int, position.width as int, position.height as int),
        r.0@ == free_starts(position@, modes@),
        r.1@.len() == free_indices(modes@, modes@.len() as int).len(),
        forall|k: int| 0 <= k < r.1@.len() ==> #[trigger] r.1@[k] as int == free_indices(modes@, modes@.len() as int)[k],
{
    let mut starts: Vec<(i32, i32, i32)> = Vec::new();
    let mut index_of: Vec<usize> = Vec::new();
    let n = modes.len();
    for i in 0..n
        invariant
            n == modes@.len(),
            n <= position.bodies@.len(),
            position@.wf(),
            starts@.len() == index_of@.len(),
            starts@.len() <= i,
            forall|k: int|
                0 <= k < index_of@.len() ==> {
                    let j = #[trigger] index_of@[k] as int;
                    &&& j < i
                    &&& modes@[j] is Normal
                    &&& starts@[k] == (position@.bodies[j].point.x, position@.bodies[j].point.y, position@.bodies[j].fast)
                },
            forall|j: int| 0 <= j < i && (#[trigger] modes@[j]) is Normal ==> exists|k: int| 0 <= k < index_of@.len() && index_of@[k] == j,
            forall|k: int| 0 <= k < starts@.len() ==> in_grid(#[trigger] starts@[k].0 as int, starts@[k].1 as int, position.width as int, position.height as int),
            index_of@.len() == free_indices(modes@, i as int).len(),
            forall|k: int| 0 <= k < index_of@.len() ==> #[trigger] index_of@[k] as int == free_indices(modes@, i as int)[k],
            starts@ == free_indices(modes@, i as int).map_values(
                |j: int| (position@.bodies[j].point.x, position@.bodies[j].point.y, position@.bodies[j].fast),
            ),
    {
        let ghost before = index_of@;
        let ghost starts0 = starts@;
        if let Mode::Normal(_) = &modes[i] {
            let b = &position.bodies[i];
            proof {
                assert(body_ok(position@.bodies[i as int], position.width as int, position.height as int));
            }
            let len = index_of.len();
            starts.push((b.point.x, b.point.y, b.fast));
            index_of.push(i);
            proof {
                assert(index_of@[len as int] == i);
            }
        }
        proof {
            let fi = free_indices(modes@, i as int);
            let fi1 = free_indices(modes@, i + 1);
            if modes@[i as int] is Normal {
                assert(fi1 == fi.push(i as int));
            } else {
                assert(fi1 == fi);
            }
            assert forall|k: int| 0 <= k < index_of@.len() implies #[trigger] index_of@[k] as int == fi1[k] by {
                if k < before.len() {
                    assert(index_of@[k] == before[k]);
                }
            }
            assert(starts@ =~= fi1.map_values(
                |j: int| (position@.bodies[j].point.x, position@.bodies[j].point.y, position@.bodies[j].fast),
            ));
            assert forall|j: int| 0 <= j < i + 1 && (#[trigger] modes@[j]) is Normal implies exists|k: int|
                0 <= k < index_of@.len() && index_of@[k] == j by {
                if j < i {
                    let k = choose|k: int| 0 <= k < before.len() && before[k] == j;
                    assert(index_of@[k] == before[k]);
                } else {
                    assert(index_of@[before.len() as int] == i);
                }
            }
        }
    }
    (starts, index_of)
}

/// The search from the free workers for cells that `goal` marks.
fn search_free(position: &Position, modes: &Vec<Mode>, goal: &Vec<bool>, open: &Vec<bool>) -> (r: Option<(usize, std::collections::VecDeque<Move>, i32, i32)>)
    requires
        position@.wf(),
        modes@.len() <= position.bodies@.len(),
        open@ == open_cells(position@.map),
        goal@.len() == open@.len(),
    ensures
        match r {
            Some(res) => {
                &&& res.0 < modes@.len()
                &&& modes@[res.0 as int] is Normal
                &&& all_walks(res.1@)
                &&& in_grid(res.2 as int, res.3 as int, position.width as int, position.height as int)
                &&& route_end(position@, position@.bodies[res.0 as int], res.1@) == Some((res.2 as int, res.3 as int))
                &&& goal@[idx(res.2 as int, res.3 as int, position.width as int)]
                &&& free_unboosted(position@, modes@) ==> nearest_free(position@, modes@, goal@, res.1@.len())
                &&& free_search(position@, modes@, goal@).len() == 1
                &&& ({
                    let e = free_search(position@, modes@, goal@)[0];
                    &&& res.0 as int == free_indices(modes@, modes@.len() as int)[e.start]
                    &&& res.1@.map_values(|m: Move| move_code(m)) == e.path
                    &&& res.2 == e.x
                    &&& res.3 == e.y
                })
            },
            None => free_search(position@, modes@, goal@).len() == 0 && (free_unboosted(position@, modes@) ==> none_reaches(
                position@,
                modes@,
                goal@,
            )),
        },
{
    let ghost w = position.width as int;
    let ghost h = position.height as int;
    let (starts, index_of) = free_workers(position, modes);
    let order: Vec<u8> = vec![1u8, 0u8, 2u8, 3u8];
    proof {
        assert(order@[1] == 0u8 && order@[0] == 1u8 && order@[2] == 2u8 && order@[3] == 3u8);
        assert(covers(order@));
    }
    let found = explore(open, goal, position.width, position.height, &starts, &order, false);
    proof {
        assert(order@ =~= seq![1u8, 0u8, 2u8, 3u8]);
        assert(found_entries(found@) == free_search(position@, modes@, goal@));
    }
    if found.len() == 0 {
        proof {
            if free_unboosted(position@, modes@) {
                assert(no_boost(starts@)) by {
                    assert forall|k: int| 0 <= k < starts@.len() implies (#[trigger] starts@[k]).2 <= 0 by {
                        let i = index_of@[k] as int;
                        assert(modes@[i] is Normal);
                    }
                }
                assert forall|i: int| 0 <= i < modes@.len() && (#[trigger] modes@[i]) is Normal implies !goal_reachable(
                    position@,
                    position@.bodies[i],
                    goal@,
                ) by {
                    let k = choose|k: int| 0 <= k < index_of@.len() && index_of@[k] == i;
                    let b = position@.bodies[i];
                    assert(starts@[k] == (b.point.x, b.point.y, b.fast));
                    if goal_reachable(position@, b, goal@) {
                        let path = choose|path: Seq<u8>|
                            #![trigger walk_to(open_cells(position@.map), w, h, b.point.x as int, b.point.y as int, b.fast as int, path)]
                            walk_to(open_cells(position@.map), w, h, b.point.x as int, b.point.y as int, b.fast as int, path) is Some
                                && goal@[idx(
                                (walk_to(open_cells(position@.map), w, h, b.point.x as int, b.point.y as int, b.fast as int, path)->0).0,
                                (walk_to(open_cells(position@.map), w, h, b.point.x as int, b.point.y as int, b.fast as int, path)->0).1,
                                w,
                            )];
                        assert(walk_to(open@, w, h, starts@[k].0 as int, starts@[k].1 as int, starts@[k].2 as int, path) is Some);
                    }
                }
            }
        }
        return None;
    }
    proof {
        assert(found_ok(open@, goal@, w, h, starts@, found@[0]));
    }
    let f = &found[0];
    let index = index_of[f.start];
    let moves = moves_of(&f.path);
    proof {
        assert(moves@.map_values(|m: Move| move_code(m)).len() == moves@.len());
        if free_unboosted(position@, modes@) {
            assert(no_boost(starts@)) by {
                assert forall|k: int| 0 <= k < starts@.len() implies (#[trigger] starts@[k]).2 <= 0 by {
                    let i = index_of@[k] as int;
                    assert(modes@[i] is Normal);
                }
            }
            assert(nearest(open@, goal@, w, h, starts@, found@[0].path@.len()));
            assert forall|i: int, path: Seq<u8>|
                #![trigger modes@[i], walk_to(open_cells(position@.map), w, h, position@.bodies[i].point.x as int, position@.bodies[i].point.y as int, position@.bodies[i].fast as int, path)]
                0 <= i < modes@.len() && modes@[i] is Normal && walk_to(
                    open_cells(position@.map),
                    w,
                    h,
                    position@.bodies[i].point.x as int,
                    position@.bodies[i].point.y as int,
                    position@.bodies[i].fast as int,
                    path,
                ) is Some && goal@[idx(
                    (walk_to(open_cells(position@.map), w, h, position@.bodies[i].point.x as int, position@.bodies[i].point.y as int, position@.bodies[i].fast as int, path)->0).0,
                    (walk_to(open_cells(position@.map), w, h, position@.bodies[i].point.x as int, position@.bodies[i].point.y as int, position@.bodies[i].fast as int, path)->0).1,
                    w,
                )] implies moves@.len() <= path.len() by {
                let k = choose|k: int| 0 <= k < index_of@.len() && index_of@[k] == i;
                let b = position@.bodies[i];
                assert(starts@[k] == (b.point.x, b.point.y, b.fast));
                assert(walk_to(open@, w, h, starts@[k].0 as int, starts@[k].1 as int, starts@[k].2 as int, path) is Some);
            }
        }
    }
    proof {
        assert(found_entries(found@)[0] == found@[0]@);
        assert(free_search(position@, modes@, goal@).len() == 1);
    }
    Some((index, moves, f.x, f.y))
}

/// Sends the nearest free worker to the spot where clones are made: the
/// first worker in normal mode, and its route, that a breadth first search
/// from all of them meets such a spot by, trying left, up, down and right in
/// turn. `None` where the search meets none; then, where no free worker is
/// boosted, none can reach one. Where no free worker is boosted, none has a
/// shorter route to such a spot.
pub fn search_x(position: &Position, modes: &Vec<Mode>) -> (r: Option<SearchXResult>)
    requires
        position@.wf(),
        modes@.len() <= position.bodies@.len(),
    ensures
        match r {
            Some(res) => {
                &&& res.index < modes@.len()
                &&& modes@[res.index as int] is Normal
                &&& all_walks(res.moves@)
                &&& route_end(position@, position@.bodies[res.index as int], res.moves@) is Some
                &&& ({
                    let q = route_end(position@, position@.bodies[res.index as int], res.moves@)->0;
                    position@.map[idx(q.0, q.1, position.width as int)].state == CellState::X
                })
                &&& free_unboosted(position@, modes@) ==> nearest_free(
                    position@,
                    modes@,
                    position@.map.map_values(|c: Cell| c.state == CellState::X),
                    res.moves@.len(),
                )
                &&& free_search(position@, modes@, position@.map.map_values(|c: Cell| c.state == CellState::X)).len() == 1
                &&& ({
                    let e = free_search(position@, modes@, position@.map.map_values(|c: Cell| c.state == CellState::X))[0];
                    &&& res.index as int == free_indices(modes@, modes@.len() as int)[e.start]
                    &&& res.moves@.map_values(|m: Move| move_code(m)) == e.path
                })
            },
            None => free_search(position@, modes@, position@.map.map_values(|c: Cell| c.state == CellState::X)).len() == 0
                && (free_unboosted(position@, modes@) ==> none_reaches(
                position@,
                modes@,
                position@.map.map_values(|c: Cell| c.state == CellState::X),
            )),
        },
{
    let (open, goal) = masks(&position.map, Some(CellState::X));
    match search_free(position, modes, &goal, &open) {
        Some((index, moves, x, y)) => {
            proof {
                lemma_index(x as int, y as int, position.width as int, position.height as int);
            }
            Some(SearchXResult { index, moves })
        },
        None => None,
    }
}

/// Whether `rest_c` holds `(x, y)`.
fn holds(rest_c: &Vec<(i32, i32)>, x: i32, y: i32) -> (r: bool)
    ensures
        r == rest_c@.contains((x, y)),
{
    let n = rest_c.len();
    for k in 0..n
        invariant
            n == rest_c@.len(),
            forall|j: int| 0 <= j < k ==> rest_c@[j] != (x, y),
    {
        if rest_c[k].0 == x && rest_c[k].1 == y {
            proof {
                assert(rest_c@[k as int] == (x, y));
            }
            return true;
        }
    }
    false
}

/// The cells of the grid that `rest_c` lists.
pub open spec fn listed_cells(rest_c: Seq<(i32, i32)>, width: int, len: int) -> Seq<bool> {
    Seq::new(len as nat, |i: int| rest_c.contains(((i % width) as i32, (i / width) as i32)))
}

/// Sends the nearest free worker to one of the clone boosters `rest_c`
/// left on the map: the first worker in normal mode, its route and the
/// booster that a breadth first search from all of them meets, trying left,
/// up, down and right in turn. `None` where the search meets none; then,
/// where no free worker is boosted, none can reach one. Where no free worker
/// is boosted, none has a shorter route to such a booster.
pub fn search_c(position: &Position, modes: &Vec<Mode>, rest_c: &Vec<(i32, i32)>) -> (r: Option<SearchCResult>)
    requires
        position@.wf(),
        modes@.len() <= position.bodies@.len(),
    ensures
        match r {
            Some(res) => {
                &&& res.index < modes@.len()
                &&& modes@[res.index as int] is Normal
                &&& all_walks(res.moves@)
                &&& route_end(position@, position@.bodies[res.index as int], res.moves@) == Some((res.c.0 as int, res.c.1 as int))
                &&& rest_c@.contains(res.c)
                &&& free_unboosted(position@, modes@) ==> nearest_free(
                    position@,
                    modes@,
                    listed_cells(rest_c@, position.width as int, position@.map.len() as int),
                    res.moves@.len(),
                )
                &&& free_search(position@, modes@, listed_cells(rest_c@, position.width as int, position@.map.len() as int)).len() == 1
                &&& ({
                    let e = free_search(position@, modes@, listed_cells(rest_c@, position.width as int, position@.map.len() as int))[0];
                    &&& res.index as int == free_indices(modes@, modes@.len() as int)[e.start]
                    &&& res.moves@.map_values(|m: Move| move_code(m)) == e.path
                    &&& res.c.0 == e.x
                    &&& res.c.1 == e.y
                })
            },
            None => free_search(position@, modes@, listed_cells(rest_c@, position.width as int, position@.map.len() as int)).len() == 0
                && (free_unboosted(position@, modes@) ==> none_reaches(
                position@,
                modes@,
                listed_cells(rest_c@, position.width as int, position@.map.len() as int),
            )),
        },
{
    let ghost w = position.width as int;
    let ghost h = position.height as int;
    let (open, _) = masks(&position.map, None);
    let mut goal: Vec<bool> = Vec::new();
    let n = position.map.len();
    let width = position.width;
    for i in 0..n
        invariant
            n == position@.map.len(),
            width == position.width,
            0 < width,
            goal@.len() == i,
            forall|k: int| 0 <= k < i ==> #[trigger] goal@[k] == rest_c@.contains(((k % width as int) as i32, (k / width as int) as i32)),
    {
        let x = (i % (width as usize)) as i32;
        let y = (i / (width as usize)) as i32;
        goal.push(holds(rest_c, x, y));
    }
    proof {
        assert(goal@ =~= listed_cells(rest_c@, w, n as int));
    }
    match search_free(position, modes, &goal, &open) {
        Some((index, moves, x, y)) => {
            proof {
                lemma_index(x as int, y as int, w, h);
                let i = idx(x as int, y as int, w);
                assert(i % w == x as int && i / w == y as int) by (nonlinear_arith)
                    requires
                        i == y * w + x,
                        0 <= x < w,
                        0 <= y,
                ;
            }
            Some(SearchCResult { index, moves, c: (x, y) })
        },
        None => None,
    }
}


/// The cells that hold a clone booster.
pub fn get_map_c(position: &Position) -> (r: Vec<(i32, i32)>)
    requires
        position@.wf(),
    ensures
        forall|k: int|
            0 <= k < r@.len() ==> in_grid(#[trigger] r@[k].0 as int, r@[k].1 as int, position.width as int, position.height as int)
                && position@.map[idx(r@[k].0 as int, r@[k].1 as int, position.width as int)].state == CellState::C,
        forall|x: int, y: int|
            in_grid(x, y, position.width as int, position.height as int) && position@.map[idx(x, y, position.width as int)].state
                == CellState::C ==> #[trigger] r@.contains((x as i32, y as i32)),
        r@.no_duplicates(),
{
    let ghost w = position.width as int;
    let ghost h = position.height as int;
    let n = position.map.len();
    let width = position.width;
    let mut r: Vec<(i32, i32)> = Vec::new();
    for i in 0..n
        invariant
            n == position@.map.len(),
            width == position.width,
            w == width,
            h == position.height,
            position@.wf(),
            forall|k: int|
                0 <= k < r@.len() ==> in_grid(#[trigger] r@[k].0 as int, r@[k].1 as int, w, h) && position@.map[idx(
                    r@[k].0 as int,
                    r@[k].1 as int,
                    w,
                )].state == CellState::C,
            forall|j: int| 0 <= j < i && (#[trigger] position@.map[j]).state == CellState::C ==> r@.contains(((j % w) as i32, (j / w) as i32)),
            forall|k: int| 0 <= k < r@.len() ==> idx(#[trigger] r@[k].0 as int, r@[k].1 as int, w) < i,
            r@.no_duplicates(),
    {
        let x = (i % (width as usize)) as i32;
        let y = (i / (width as usize)) as i32;
        proof {
            let ii = i as int;
            assert(0 <= ii % w < w && ii == (ii / w) * w + ii % w && 0 <= ii / w) by (nonlinear_arith)
                requires
                    0 <= ii,
                    0 < w,
            ;
            assert((ii / w) < h) by (nonlinear_arith)
                requires
                    ii == (ii / w) * w + ii % w,
                    0 <= ii % w,
                    ii < w * h,
                    0 < w,
            ;
        }
        if position.map[i].state == CellState::C {
            let ghost before = r@;
            r.push((x, y));
            proof {
                assert(r@[before.len() as int] == (x, y));
                assert(idx(x as int, y as int, w) == i);
                assert forall|k: int| 0 <= k < r@.len() implies idx(#[trigger] r@[k].0 as int, r@[k].1 as int, w) < i + 1 by {
                    if k < before.len() {
                        assert(r@[k] == before[k]);
                    }
                }
                assert forall|a: int, b: int| 0 <= a < r@.len() && 0 <= b < r@.len() && a != b implies r@[a] != r@[b] by {
                    if a < before.len() && b < before.len() {
                        assert(r@[a] == before[a] && r@[b] == before[b]);
                    } else if a < before.len() {
                        assert(r@[a] == before[a]);
                        assert(idx(before[a].0 as int, before[a].1 as int, w) < i);
                    } else {
                        assert(r@[b] == before[b]);
                        assert(idx(before[b].0 as int, before[b].1 as int, w) < i);
                    }
                }
                assert forall|j: int| 0 <= j < i + 1 && (#[trigger] position@.map[j]).state == CellState::C implies r@.contains(
                    ((j % w) as i32, (j / w) as i32),
                ) by {
                    if j < i {
                        let k = choose|k: int| 0 <= k < before.len() && before[k] == ((j % w) as i32, (j / w) as i32);
                        assert(r@[k] == before[k]);
                    }
                }
            }
        }
    }
    proof {
        assert forall|x: int, y: int|
            in_grid(x, y, w, h) && position@.map[idx(x, y, w)].state == CellState::C implies #[trigger] r@.contains(
            (x as i32, y as i32),
        ) by {
            lemma_index(x, y, w, h);
            let j = idx(x, y, w);
            assert(j % w == x && j / w == y) by (nonlinear_arith)
                requires
                    j == y * w + x,
                    0 <= x < w,
                    0 <= y,
            ;
        }
    }
    r
}

/// The errand of a worker is over: it heads for the clone spot while no
/// clone is held, or has walked its route to a clone booster.
pub open spec fn frees(m: Mode, rest_c: int) -> bool {
    match m {
        Mode::X(_) => rest_c == 0,
        Mode::C(moves) => moves@.len() == 0,
        Mode::Normal(_) => false,
    }
}

/// How many of the first `n` modes head for the clone spot, and how many
/// are free.
pub open spec fn mode_counts(modes: Seq<Mode>, n: int) -> (nat, nat)
    decreases n,
{
    if n <= 0 {
        (0, 0)
    } else {
        let c = mode_counts(modes, n - 1);
        match modes[n - 1] {
            Mode::X(_) => ((c.0 + 1) as nat, c.1),
            Mode::Normal(_) => (c.0, (c.1 + 1) as nat),
            Mode::C(_) => c,
        }
    }
}

/// Frees the first `len` workers whose errand is over, as `refreshed`
/// says, and counts those heading for the clone spot and the free ones.
pub fn refresh_modes(modes: &mut Vec<Mode>, len: usize, rest_c: i32) -> (r: (usize, usize))
    requires
        len <= old(modes)@.len(),
    ensures
        final(modes)@.len() == old(modes)@.len(),
        forall|i: int| 0 <= i < len && frees(old(modes)@[i], rest_c as int) ==> (#[trigger] final(modes)@[i]) is Normal
            && (final(modes)@[i]->Normal_0)@.len() == 0,
        forall|i: int| 0 <= i < len && !frees(old(modes)@[i], rest_c as int) ==> #[trigger] final(modes)@[i] == old(modes)@[i],
        forall|i: int| len <= i < old(modes)@.len() ==> #[trigger] final(modes)@[i] == old(modes)@[i],
        r.0 == mode_counts(final(modes)@, len as int).0,
        r.1 == mode_counts(final(modes)@, len as int).1,
{
    let mut searching_x: usize = 0;
    let mut normal: usize = 0;
    for i in 0..len
        invariant
            len <= modes@.len(),
            modes@.len() == old(modes)@.len(),
            forall|j: int| 0 <= j < i && frees(old(modes)@[j], rest_c as int) ==> (#[trigger] modes@[j]) is Normal
                && (modes@[j]->Normal_0)@.len() == 0,
            forall|j: int| 0 <= j < i && !frees(old(modes)@[j], rest_c as int) ==> #[trigger] modes@[j] == old(modes)@[j],
            forall|j: int| i <= j < modes@.len() ==> #[trigger] modes@[j] == old(modes)@[j],
            searching_x == mode_counts(modes@, i as int).0,
            normal == mode_counts(modes@, i as int).1,
            searching_x + normal <= i,
    {
        let reset = match &modes[i] {
            Mode::X(_) => rest_c == 0,
            Mode::C(moves) => moves.len() == 0,
            Mode::Normal(_) => false,
        };
        let ghost before = modes@;
        if reset {
            modes.set(i, Mode::Normal(std::collections::VecDeque::new()));
        }
        proof {
            assert forall|k: int| 0 <= k <= i implies mode_counts(modes@, k) == mode_counts(before, k) by {
                lemma_counts_prefix(modes@, before, k, i as int);
            }
        }
        match &modes[i] {
            Mode::X(_) => searching_x += 1,
            Mode::Normal(_) => normal += 1,
            _ => {},
        }
    }
    (searching_x, normal)
}

proof fn lemma_counts_prefix(a: Seq<Mode>, b: Seq<Mode>, k: int, n: int)
    requires
        0 <= k <= n,
        n <= a.len(),
        a.len() == b.len(),
        forall|j: int| 0 <= j < n ==> a[j] == b[j],
    ensures
        mode_counts(a, k) == mode_counts(b, k),
    decreases k,
{
    if k > 0 {
        lemma_counts_prefix(a, b, k - 1, n);
    }
}

/// The arm a worker adds next: one cell ahead, alternately to the right and
/// to the left and one further out each time, turned into the map's frame.
pub open spec fn next_arm_spec(b: BodyModel) -> (int, int) {
    let y: int = ((b.manipulators.len() + 1) / 2) as int;
    let p = Point { x: 1, y: (if b.manipulators.len() % 2 == 1 { -y } else { y }) as i32 };
    counter_rotate_spec(p, b.direction as int)
}

/// The arm the current worker adds next, as `next_arm_spec` says.
pub fn next_arm(position: &Position) -> (r: Point)
    requires
        position@.wf(),
        crate::multi::arms_ok(position@),
    ensures
        (r.x as int, r.y as int) == next_arm_spec(position@.cur()),
{
    let body = position.get_body();
    proof {
        assert(body_ok(position@.cur(), position.width as int, position.height as int));
        assert(position@.cur().manipulators.len() < i32::MAX);
    }
    let n = body.manipulators.len();
    let mut point = Point { x: 1, y: ((n + 1) / 2) as i32 };
    if n % 2 == 1 {
        point.y = -point.y;
    }
    point.counter_rotate(body.direction)
}

} // verus!
