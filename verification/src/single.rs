//! The position of the boosted single-worker solver: one worker that wraps
//! with its arms, picks up boosters and grows arms, with moves that can be
//! taken back. Its wrapping is that of a multi-worker position with this one
//! worker.
use vstd::prelude::*;
use crate::cells::{
    cell_at, get_at, get_mut_at, grid_ok, lemma_grid_index_ok, out_spec, rotate_spec, small, wrapped_spec, BoostItem, Cell,
    CellState, Point,
};
use crate::grid::{idx, in_grid, REACH};
use crate::multi::{
    all_walks, arms_ok, body_ok, boost_state, count_unwrapped_spec, holding, goal_reachable, lemma_map_back, lemma_map_step_compose,
    lemma_map_step_same, lemma_wrap_map, map_step, masks, moves_of, open_cells, restore_at, restored, route_end,
    unwrap_fold, unwrapped_cells, wrap_spec, cells_of, grid_cells, start_arms, Body, BodyModel, PositionModel as MultiModel, Position as MultiPosition,
};
use crate::route::{covers, explore, found_entries, found_ok, nearest, no_boost, searched, walk_to, Entry, Field};
use crate::desc::{desc_of, parse_desc, DescError};
use crate::layout::{laid, layout, layout_spec, playable, Grid};

verus! {

pub struct Position {
    pub body: Point,
    pub map: Vec<Cell>,
    pub direction: i32,
    pub width: i32,
    pub height: i32,
    pub manipulators: Vec<Point>,
    pub rest_b: i32,
    pub rest_f: i32,
    pub rest_l: i32,
    pub rest_c: i32,
    pub rest_r: i32,
    pub fast: i32,
    pub drill: i32,
}

#[derive(Clone, Copy, PartialEq, Eq, Structural, Debug)]
pub enum Move {
    W,
    A,
    S,
    D,
    Clockwize,
    Anticlockwise,
    B(Point),
    F,
    L,
    R,
    T(i32, i32),
}

/// The moves that walk a route.
pub struct Target {
    pub moves: std::collections::VecDeque<Move>,
}

/// What a move did, kept so that it can be taken back: the wrapped or
/// closed neighbours of the cells its arms wrapped, the cells wrapped and
/// the booster picked up.
pub struct MoveResult {
    pub border_count: i64,
    pub wrapped: Vec<Point>,
    pub boost_item: Option<BoostItem>,
}

pub struct SingleModel {
    pub body: Point,
    pub map: Seq<Cell>,
    pub direction: i32,
    pub width: i32,
    pub height: i32,
    pub manipulators: Seq<Point>,
    pub rest_b: i32,
    pub rest_f: i32,
    pub rest_l: i32,
    pub rest_c: i32,
    pub rest_r: i32,
    pub fast: i32,
    pub drill: i32,
}

impl View for Position {
    type V = SingleModel;

    open spec fn view(&self) -> SingleModel {
        SingleModel {
            body: self.body,
            map: self.map@,
            direction: self.direction,
            width: self.width,
            height: self.height,
            manipulators: self.manipulators@,
            rest_b: self.rest_b,
            rest_f: self.rest_f,
            rest_l: self.rest_l,
            rest_c: self.rest_c,
            rest_r: self.rest_r,
            fast: self.fast,
            drill: self.drill,
        }
    }
}

pub struct ResultModel {
    pub border_count: int,
    pub wrapped: Seq<Point>,
    pub boost_item: Option<BoostItem>,
}

impl View for MoveResult {
    type V = ResultModel;

    open spec fn view(&self) -> ResultModel {
        ResultModel { border_count: self.border_count as int, wrapped: self.wrapped@, boost_item: self.boost_item }
    }
}

/// The worker, as a worker of a multi-worker position.
pub open spec fn worker(p: SingleModel) -> BodyModel {
    BodyModel {
        point: p.body,
        direction: p.direction,
        manipulators: p.manipulators,
        fast: p.fast,
        rest_b: p.rest_b,
        rest_f: p.rest_f,
        rest_l: p.rest_l,
        rest_r: p.rest_r,
    }
}

/// The position as a multi-worker position with this one worker.
pub open spec fn as_multi(p: SingleModel) -> MultiModel {
    MultiModel {
        index: 0,
        len: 1,
        bodies: seq![worker(p)],
        map: p.map,
        width: p.width,
        height: p.height,
        rest_c: p.rest_c,
    }
}

impl SingleModel {
    /// The grid fits in 32 bits and the worker stands in it, heads one of
    /// four ways and has its arms within reach.
    pub open spec fn wf(&self) -> bool {
        &&& as_multi(*self).wf()
        &&& self.manipulators.len() + 1 < i32::MAX
    }

    pub open spec fn is_out(&self, x: int, y: int) -> bool {
        out_spec(self.map, self.width as int, self.height as int, x, y)
    }

    pub open spec fn is_wrapped(&self, x: int, y: int) -> bool {
        wrapped_spec(self.map, self.width as int, self.height as int, x, y)
    }
}

/// Wrapping, as the multi-worker position wraps: the worker's cell, then
/// the cells of its arms in sight; gives the new position, the cells wrapped
/// and the border count.
pub open spec fn wrap1(p: SingleModel) -> (SingleModel, Seq<Point>, int) {
    let r = wrap_spec(as_multi(p));
    (SingleModel { map: r.0.map, ..p }, r.1, r.2)
}

/// The worker takes what its cell holds: a booster raises its count, and the
/// cell is left blank whatever it held.
pub open spec fn take1(p: SingleModel) -> (SingleModel, Option<BoostItem>) {
    let j = idx(p.body.x as int, p.body.y as int, p.width as int);
    let c = p.map[j];
    let cleared = p.map.update(j, Cell { state: CellState::Blank, ..c });
    match c.state {
        CellState::B => (SingleModel { map: cleared, rest_b: (p.rest_b + 1) as i32, ..p }, Some(BoostItem::B)),
        CellState::F => (SingleModel { map: cleared, rest_f: (p.rest_f + 1) as i32, ..p }, Some(BoostItem::F)),
        CellState::L => (SingleModel { map: cleared, rest_l: (p.rest_l + 1) as i32, ..p }, Some(BoostItem::L)),
        CellState::R => (SingleModel { map: cleared, rest_r: (p.rest_r + 1) as i32, ..p }, Some(BoostItem::R)),
        CellState::C => (SingleModel { map: cleared, rest_c: (p.rest_c + 1) as i32, ..p }, Some(BoostItem::C)),
        _ => (SingleModel { map: cleared, ..p }, None),
    }
}

/// How many boosters of kind `k` the worker holds.
pub open spec fn held1(p: SingleModel, k: BoostItem) -> int {
    match k {
        BoostItem::B => p.rest_b as int,
        BoostItem::F => p.rest_f as int,
        BoostItem::L => p.rest_l as int,
        BoostItem::R => p.rest_r as int,
        BoostItem::C => p.rest_c as int,
    }
}

/// Picking up takes the kind of booster the worker's cell holds, raises the
/// count of that kind by one and keeps the count of every other kind; the
/// worker keeps its place and heading.
pub proof fn lemma_pickup_counts1(p: SingleModel)
    requires
        room(p),
    ensures
        ({
            let (q, item) = take1(p);
            let st = p.map[idx(p.body.x as int, p.body.y as int, p.width as int)].state;
            &&& forall|k: BoostItem| (item == Some(k)) <==> (st == holding(k))
            &&& forall|k: BoostItem| #[trigger] held1(q, k) == held1(p, k) + if item == Some(k) { 1int } else { 0int }
            &&& q.body == p.body && q.direction == p.direction
        }),
{
}

/// The step of a walking move.
pub open spec fn step1(mo: Move) -> (int, int) {
    match mo {
        Move::W => (0, -1),
        Move::A => (-1, 0),
        Move::S => (0, 1),
        Move::D => (1, 0),
        _ => (0, 0),
    }
}

/// The moves this position knows how to apply and take back.
pub open spec fn known(mo: Move) -> bool {
    mo is W || mo is A || mo is S || mo is D || mo is Clockwize || mo is Anticlockwise || mo is B
}

pub open spec fn walking(mo: Move) -> bool {
    mo is W || mo is A || mo is S || mo is D
}

/// The counters leave room for what one move adds or takes.
pub open spec fn room(p: SingleModel) -> bool {
    &&& i32::MIN < p.rest_b < i32::MAX
    &&& p.rest_f < i32::MAX
    &&& p.rest_l < i32::MAX
    &&& p.rest_r < i32::MAX
    &&& p.rest_c < i32::MAX
}

/// What a move does: `None` where a walk would leave the grid or enter a
/// wall, else the new position and what the move did.
pub open spec fn apply1(p: SingleModel, mo: Move) -> Option<(SingleModel, ResultModel)> {
    match mo {
        Move::Clockwize => {
            let w = wrap1(SingleModel { direction: ((p.direction + 1) % 4) as i32, ..p });
            Some((w.0, ResultModel { border_count: 0, wrapped: w.1, boost_item: None }))
        },
        Move::Anticlockwise => {
            let w = wrap1(SingleModel { direction: ((p.direction + 3) % 4) as i32, ..p });
            Some((w.0, ResultModel { border_count: 0, wrapped: w.1, boost_item: None }))
        },
        Move::B(pt) => {
            let r = rotate_spec(pt, p.direction as int);
            let arm = Point { x: r.0 as i32, y: (-r.1) as i32 };
            Some((
                SingleModel { manipulators: p.manipulators.push(arm), rest_b: (p.rest_b - 1) as i32, ..p },
                ResultModel { border_count: 0, wrapped: seq![], boost_item: None },
            ))
        },
        _ => {
            let s = step1(mo);
            if p.is_out(p.body.x + s.0, p.body.y + s.1) {
                None
            } else {
                let t = take1(
                    SingleModel { body: Point { x: (p.body.x + s.0) as i32, y: (p.body.y + s.1) as i32 }, ..p },
                );
                let w = wrap1(t.0);
                Some((w.0, ResultModel { border_count: w.2, wrapped: w.1, boost_item: t.1 }))
            }
        },
    }
}

/// Taking a move back: the booster goes back on the worker's cell and its
/// count down, the worker steps or turns back or drops its new arm, and the
/// cells wrapped are unwrapped.
pub open spec fn back1(p: SingleModel, mo: Move, r: ResultModel) -> SingleModel {
    let j = idx(p.body.x as int, p.body.y as int, p.width as int);
    let m1 = restore_at(p.map, j, r.boost_item);
    let p1 = match r.boost_item {
        Some(BoostItem::B) => SingleModel { map: m1, rest_b: (p.rest_b - 1) as i32, ..p },
        Some(BoostItem::F) => SingleModel { map: m1, rest_f: (p.rest_f - 1) as i32, ..p },
        Some(BoostItem::L) => SingleModel { map: m1, rest_l: (p.rest_l - 1) as i32, ..p },
        Some(BoostItem::R) => SingleModel { map: m1, rest_r: (p.rest_r - 1) as i32, ..p },
        Some(BoostItem::C) => SingleModel { map: m1, rest_c: (p.rest_c - 1) as i32, ..p },
        None => p,
    };
    let s = step1(mo);
    let p2 = match mo {
        Move::Clockwize => SingleModel { direction: ((p1.direction + 3) % 4) as i32, ..p1 },
        Move::Anticlockwise => SingleModel { direction: ((p1.direction + 1) % 4) as i32, ..p1 },
        Move::B(_) => SingleModel {
            rest_b: (p1.rest_b + 1) as i32,
            manipulators: if p1.manipulators.len() > 0 { p1.manipulators.drop_last() } else { p1.manipulators },
            ..p1
        },
        _ => SingleModel { body: Point { x: (p1.body.x - s.0) as i32, y: (p1.body.y - s.1) as i32 }, ..p1 },
    };
    SingleModel { map: unwrap_fold(p2.map, p2.width as int, r.wrapped), ..p2 }
}


impl Position {
    /// The number of cells that are not wrapped.
    pub fn count_unwrapped(&self) -> (r: i32)
        requires
            self.map@.len() <= i32::MAX,
        ensures
            r == count_unwrapped_spec(self.map@),
    {
        let mut count: i32 = 0;
        let n = self.map.len();
        for i in 0..n
            invariant
                n == self.map@.len(),
                n <= i32::MAX,
                count == count_unwrapped_spec(self.map@.take(i as int)),
                count <= i,
        {
            proof {
                assert(self.map@.take(i + 1).drop_last() =~= self.map@.take(i as int));
            }
            if !self.map[i].is_wrapped {
                count = count + 1;
            }
        }
        assert(self.map@.take(n as int) =~= self.map@);
        count
    }

    /// Whether `(x, y)` is outside the grid or a wall.
    pub fn is_out(&self, x: i32, y: i32) -> (r: bool)
        requires
            grid_ok(self.width as int, self.height as int, self.map@.len() as int),
        ensures
            r == self@.is_out(x as int, y as int),
    {
        if x < 0 || self.width <= x || y < 0 || self.height <= y {
            return true;
        }
        proof {
            lemma_grid_index_ok(self.width as int, self.height as int, self.map@.len() as int, x as int, y as int);
        }
        get_at(&self.map, x, y, self.width).state == CellState::Wall
    }

    /// Whether `(x, y)` is outside the grid, a wall, or wrapped.
    pub fn is_wrapped(&self, x: i32, y: i32) -> (r: bool)
        requires
            grid_ok(self.width as int, self.height as int, self.map@.len() as int),
        ensures
            r == self@.is_wrapped(x as int, y as int),
    {
        if self.is_out(x, y) {
            return true;
        }
        proof {
            lemma_grid_index_ok(self.width as int, self.height as int, self.map@.len() as int, x as int, y as int);
        }
        get_at(&self.map, x, y, self.width).is_wrapped
    }

    /// Wraps the worker's cell and those of its arms in sight; appends the
    /// cells wrapped and gives the number of wrapped or closed neighbours of
    /// the arms' new cells.
    pub fn wrap(&mut self, wrapped: &mut Vec<Point>) -> (r: i64)
        requires
            old(self)@.wf(),
        ensures
            final(self)@ == wrap1(old(self)@).0,
            final(wrapped)@ == old(wrapped)@ + wrap1(old(self)@).1,
            r == wrap1(old(self)@).2,
    {
        let ghost p0 = self@;
        let mut map: Vec<Cell> = Vec::new();
        std::mem::swap(&mut map, &mut self.map);
        let mut arms: Vec<Point> = Vec::new();
        std::mem::swap(&mut arms, &mut self.manipulators);
        let body = Body {
            point: self.body,
            direction: self.direction,
            manipulators: arms,
            fast: self.fast,
            rest_b: self.rest_b,
            rest_f: self.rest_f,
            rest_l: self.rest_l,
            rest_r: self.rest_r,
        };
        let mut mp = MultiPosition {
            index: 0,
            len: 1,
            bodies: vec![body],
            map,
            width: self.width,
            height: self.height,
            rest_c: self.rest_c,
        };
        proof {
            assert(mp.bodies@.map_values(|b: Body| b@) =~= seq![worker(p0)]);
            assert(mp@ == as_multi(p0));
            assert(arms_ok(mp@));
        }
        let border = mp.wrap(wrapped);
        proof {
            crate::multi::lemma_wrap_spec(as_multi(p0));
            assert(mp@.bodies =~= seq![worker(p0)]);
            assert(mp.bodies@.len() == 1);
            assert(mp.bodies@[0]@ == worker(p0));
        }
        let MultiPosition { bodies, map, .. } = mp;
        self.map = map;
        let mut bodies = bodies;
        match bodies.pop() {
            Some(b) => {
                self.manipulators = b.manipulators;
            },
            None => {},
        }
        border
    }
}


/// Whether the worker can take the move: an arm offset stays within reach,
/// and what the counters would reach fits in 32 bits.
pub open spec fn can_apply1(p: SingleModel, mo: Move) -> bool {
    &&& known(mo)
    &&& room(p)
    &&& (mo matches Move::B(pt) ==> small(pt))
}

/// A worker with the arms of a well formed position, in the grid and
/// heading one of four ways, is well placed.
proof fn lemma_body_ok(p: SingleModel, q: SingleModel)
    requires
        p.wf(),
        q.manipulators == p.manipulators,
        q.width == p.width,
        q.height == p.height,
        0 <= q.direction < 4,
        in_grid(q.body.x as int, q.body.y as int, q.width as int, q.height as int),
    ensures
        body_ok(worker(q), q.width as int, q.height as int),
{
    assert(as_multi(p).bodies[0] == worker(p));
    assert(body_ok(as_multi(p).bodies[0], p.width as int, p.height as int));
    assert forall|i: int| 0 <= i < q.manipulators.len() implies small(#[trigger] q.manipulators[i]) by {
        assert(worker(p).manipulators[i] == q.manipulators[i]);
    }
}

impl Position {
    /// The worker takes what its cell holds: a booster raises its count (the
    /// shared clone count for `C`), and the cell is left blank whatever it
    /// held.
    pub fn get_boost_item(&mut self) -> (r: Option<BoostItem>)
        requires
            old(self)@.wf(),
            room(old(self)@),
        ensures
            (final(self)@, r) == take1(old(self)@),
    {
        let ghost p0 = self@;
        let x = self.body.x;
        let y = self.body.y;
        proof {
            assert(body_ok(as_multi(p0).bodies[0], p0.width as int, p0.height as int));
            lemma_grid_index_ok(self.width as int, self.height as int, self.map@.len() as int, x as int, y as int);
        }
        let state = get_at(&self.map, x, y, self.width).state;
        let result = match state {
            CellState::B => {
                self.rest_b = self.rest_b + 1;
                Some(BoostItem::B)
            },
            CellState::F => {
                self.rest_f = self.rest_f + 1;
                Some(BoostItem::F)
            },
            CellState::L => {
                self.rest_l = self.rest_l + 1;
                Some(BoostItem::L)
            },
            CellState::R => {
                self.rest_r = self.rest_r + 1;
                Some(BoostItem::R)
            },
            CellState::C => {
                self.rest_c = self.rest_c + 1;
                Some(BoostItem::C)
            },
            _ => None,
        };
        let cell = get_mut_at(&mut self.map, x, y, self.width);
        cell.state = CellState::Blank;
        proof {
            assert(self@.map =~= take1(p0).0.map);
        }
        result
    }

    /// One walking step onto an open cell: the worker moves, takes what the
    /// cell holds and wraps.
    fn walk(&mut self, dx: i32, dy: i32) -> (r: MoveResult)
        requires
            old(self)@.wf(),
            room(old(self)@),
            -1 <= dx <= 1,
            -1 <= dy <= 1,
            !old(self)@.is_out(old(self).body.x + dx, old(self).body.y + dy),
        ensures
            ({
                let t = take1(SingleModel { body: Point { x: (old(self).body.x + dx) as i32, y: (old(self).body.y + dy) as i32 }, ..old(self)@ });
                let w = wrap1(t.0);
                final(self)@ == w.0 && r@ == (ResultModel { border_count: w.2, wrapped: w.1, boost_item: t.1 })
            }),
    {
        let ghost p0 = self@;
        proof {
            assert(body_ok(as_multi(p0).bodies[0], p0.width as int, p0.height as int));
        }
        self.body = Point { x: self.body.x + dx, y: self.body.y + dy };
        let ghost p1 = self@;
        proof {
            assert(as_multi(p1).bodies[0] == worker(p1));
            lemma_body_ok(p0, p1);
            assert(as_multi(p1).wf());
            lemma_grid_index_ok(p1.width as int, p1.height as int, p1.map.len() as int, p1.body.x as int, p1.body.y as int);
        }
        let item = self.get_boost_item();
        let ghost p2 = self@;
        proof {
            assert(as_multi(p2).bodies[0] == worker(p2));
            lemma_body_ok(p0, p2);
            assert(p2.map.len() == p1.map.len());
        }
        let mut wrapped: Vec<Point> = Vec::new();
        let border = self.wrap(&mut wrapped);
        proof {
            assert(wrapped@ =~= wrap1(p2).1);
        }
        MoveResult { border_count: border, wrapped, boost_item: item }
    }

    /// Turns the worker to `direction` and wraps; the border count of a turn
    /// is not kept.
    fn turn(&mut self, direction: i32) -> (r: MoveResult)
        requires
            old(self)@.wf(),
            0 <= direction < 4,
        ensures
            ({
                let w = wrap1(SingleModel { direction, ..old(self)@ });
                final(self)@ == w.0 && r@ == (ResultModel { border_count: 0, wrapped: w.1, boost_item: None })
            }),
    {
        self.direction = direction;
        let ghost p1 = self@;
        proof {
            assert(as_multi(p1).bodies[0] == worker(p1));
            assert(body_ok(as_multi(old(self)@).bodies[0], p1.width as int, p1.height as int));
            lemma_body_ok(old(self)@, p1);
        }
        let mut wrapped: Vec<Point> = Vec::new();
        let _ = self.wrap(&mut wrapped);
        proof {
            assert(wrapped@ =~= wrap1(p1).1);
        }
        MoveResult { border_count: 0, wrapped, boost_item: None }
    }

    /// Applies a move. A walk that would leave the grid or enter a wall
    /// gives `None` and changes nothing.
    pub fn apply(&mut self, mo: &Move) -> (r: Option<MoveResult>)
        requires
            old(self)@.wf(),
            can_apply1(old(self)@, *mo),
        ensures
            match apply1(old(self)@, *mo) {
                None => r is None && final(self)@ == old(self)@,
                Some(res) => r is Some && final(self)@ == res.0 && (r->0)@ == res.1,
            },
    {
        let ghost p0 = self@;
        let x = self.body.x;
        let y = self.body.y;
        proof {
            assert(body_ok(as_multi(p0).bodies[0], p0.width as int, p0.height as int));
        }
        match mo {
            Move::W => {
                if self.is_out(x, y - 1) {
                    return None;
                }
                Some(self.walk(0, -1))
            },
            Move::A => {
                if self.is_out(x - 1, y) {
                    return None;
                }
                Some(self.walk(-1, 0))
            },
            Move::S => {
                if self.is_out(x, y + 1) {
                    return None;
                }
                Some(self.walk(0, 1))
            },
            Move::D => {
                if self.is_out(x + 1, y) {
                    return None;
                }
                Some(self.walk(1, 0))
            },
            Move::Clockwize => {
                let d = (self.direction + 1) % 4;
                Some(self.turn(d))
            },
            Move::Anticlockwise => {
                let d = (self.direction + 3) % 4;
                Some(self.turn(d))
            },
            Move::B(point) => {
                let p = point.rotate(self.direction);
                let arm = Point { x: p.x, y: -p.y };
                self.rest_b = self.rest_b - 1;
                self.manipulators.push(arm);
                Some(MoveResult { border_count: 0, wrapped: Vec::new(), boost_item: None })
            },
            _ => None,
        }
    }

    /// Takes back a move from what `apply` recorded of it: the booster goes
    /// back on the worker's cell and its count down, the worker steps or
    /// turns back or drops its new arm, and the cells wrapped are unwrapped.
    pub fn back(&mut self, mo: &Move, result: &MoveResult)
        requires
            as_multi(old(self)@).wf(),
            known(*mo),
            crate::multi::points_in_grid(result.wrapped@, old(self).width as int, old(self).height as int),
            result.boost_item == Some(BoostItem::B) ==> old(self).rest_b > i32::MIN,
            result.boost_item == Some(BoostItem::F) ==> old(self).rest_f > i32::MIN,
            result.boost_item == Some(BoostItem::L) ==> old(self).rest_l > i32::MIN,
            result.boost_item == Some(BoostItem::R) ==> old(self).rest_r > i32::MIN,
            result.boost_item == Some(BoostItem::C) ==> old(self).rest_c > i32::MIN,
            *mo is B ==> old(self).rest_b + 1 - (if result.boost_item == Some(BoostItem::B) { 1int } else { 0int }) <= i32::MAX,
        ensures
            final(self)@ == back1(old(self)@, *mo, result@),
    {
        let ghost p0 = self@;
        let ghost w = self.width as int;
        let ghost h = self.height as int;
        proof {
            assert(body_ok(as_multi(p0).bodies[0], w, h));
            lemma_grid_index_ok(w, h, self.map@.len() as int, self.body.x as int, self.body.y as int);
        }
        if let Some(item) = result.boost_item {
            let x = self.body.x;
            let y = self.body.y;
            let state = match item {
                BoostItem::B => {
                    self.rest_b = self.rest_b - 1;
                    CellState::B
                },
                BoostItem::F => {
                    self.rest_f = self.rest_f - 1;
                    CellState::F
                },
                BoostItem::L => {
                    self.rest_l = self.rest_l - 1;
                    CellState::L
                },
                BoostItem::R => {
                    self.rest_r = self.rest_r - 1;
                    CellState::R
                },
                BoostItem::C => {
                    self.rest_c = self.rest_c - 1;
                    CellState::C
                },
            };
            let cell = get_mut_at(&mut self.map, x, y, self.width);
            cell.state = state;
        }
        let ghost p1 = self@;
        match mo {
            Move::W => {
                self.body.y = self.body.y + 1;
            },
            Move::A => {
                self.body.x = self.body.x + 1;
            },
            Move::S => {
                self.body.y = self.body.y - 1;
            },
            Move::D => {
                self.body.x = self.body.x - 1;
            },
            Move::Clockwize => {
                self.direction = (self.direction + 3) % 4;
            },
            Move::Anticlockwise => {
                self.direction = (self.direction + 1) % 4;
            },
            Move::B(_) => {
                self.rest_b = self.rest_b + 1;
                let _ = self.manipulators.pop();
                proof {
                    if p1.manipulators.len() == 0 {
                        assert(self.manipulators@ =~= p1.manipulators);
                    }
                }
            },
            _ => {},
        }
        let ghost p2 = self@;
        let n = result.wrapped.len();
        proof {
            assert(p2.map.len() == p0.map.len());
            assert(result.wrapped@.take(0) =~= Seq::<Point>::empty());
        }
        for k in 0..n
            invariant
                n == result.wrapped@.len(),
                grid_ok(w, h, p2.map.len() as int),
                w == p2.width,
                crate::multi::points_in_grid(result.wrapped@, w, h),
                self@ == (SingleModel { map: unwrap_fold(p2.map, w, result.wrapped@.take(k as int)), ..p2 }),
        {
            let ghost ws = result.wrapped@;
            let point = result.wrapped[k];
            proof {
                assert(in_grid(ws[k as int].x as int, ws[k as int].y as int, w, h));
                let pre = ws.take(k as int);
                assert(crate::multi::points_in_grid(pre, w, h)) by {
                    assert forall|i: int| 0 <= i < pre.len() implies in_grid(#[trigger] pre[i].x as int, pre[i].y as int, w, h) by {
                        assert(pre[i] == ws[i]);
                    }
                }
                crate::multi::lemma_unwrap_fold(p2.map, w, h, pre);
                lemma_grid_index_ok(w, h, self.map@.len() as int, point.x as int, point.y as int);
                assert(ws.take(k + 1).drop_last() =~= pre);
                assert(ws.take(k + 1).last() == point);
            }
            let cell = get_mut_at(&mut self.map, point.x, point.y, self.width);
            cell.is_wrapped = false;
        }
        proof {
            assert(result.wrapped@.take(n as int) =~= result.wrapped@);
        }
    }
}


/// Taking the booster of cell `j` is a map step that takes it, where the
/// cell held a booster or nothing.
proof fn lemma_take1_map(p: SingleModel)
    requires
        as_multi(p).wf(),
        p.map[idx(p.body.x as int, p.body.y as int, p.width as int)].state != CellState::X,
        p.map[idx(p.body.x as int, p.body.y as int, p.width as int)].state != CellState::Wall,
    ensures
        map_step(
            p.map,
            take1(p).0.map,
            p.width as int,
            p.height as int,
            Seq::<Point>::empty(),
            idx(p.body.x as int, p.body.y as int, p.width as int),
            take1(p).1,
        ),
{
    assert(as_multi(p).bodies[0] == worker(p));
    assert(body_ok(as_multi(p).bodies[0], p.width as int, p.height as int));
    lemma_grid_index_ok(p.width as int, p.height as int, p.map.len() as int, p.body.x as int, p.body.y as int);
}

/// A model with the same grid and counters as a well formed one, its worker
/// well placed and its arms leaving room for one more, is well formed.
proof fn lemma_wf_of(p: SingleModel, q: SingleModel)
    requires
        p.wf(),
        q.width == p.width,
        q.height == p.height,
        q.map.len() == p.map.len(),
        body_ok(worker(q), q.width as int, q.height as int),
        q.manipulators.len() + 1 < i32::MAX,
    ensures
        q.wf(),
{
    assert(as_multi(q).bodies[0] == worker(q));
}

/// Every move the worker may take leaves the position well formed, given
/// room for the arm that a `B` adds.
pub proof fn lemma_apply_keeps_wf(p: SingleModel, mo: Move)
    requires
        p.wf(),
        can_apply1(p, mo),
        apply1(p, mo) is Some,
        mo is B ==> p.manipulators.len() + 2 < i32::MAX,
    ensures
        (apply1(p, mo)->0).0.wf(),
{
    let w = p.width as int;
    let h = p.height as int;
    assert(as_multi(p).bodies[0] == worker(p));
    assert(body_ok(as_multi(p).bodies[0], w, h));
    let q = (apply1(p, mo)->0).0;
    match mo {
        Move::Clockwize | Move::Anticlockwise => {
            let d = if mo is Clockwize { ((p.direction + 1) % 4) as i32 } else { ((p.direction + 3) % 4) as i32 };
            let t = SingleModel { direction: d, ..p };
            lemma_body_ok(p, t);
            lemma_wf_of(p, t);
            crate::multi::lemma_wrap_spec(as_multi(t));
            assert(q == (SingleModel { map: wrap_spec(as_multi(t)).0.map, ..t }));
            lemma_body_ok(p, q);
            lemma_wf_of(p, q);
        },
        Move::B(pt) => {
            let r = rotate_spec(pt, p.direction as int);
            let arm = Point { x: r.0 as i32, y: (-r.1) as i32 };
            assert(small(arm));
            assert forall|i: int| 0 <= i < q.manipulators.len() implies small(#[trigger] q.manipulators[i]) by {
                if i < p.manipulators.len() {
                    assert(worker(p).manipulators[i] == q.manipulators[i]);
                }
            }
            assert(body_ok(worker(q), w, h));
            lemma_wf_of(p, q);
        },
        _ => {
            let s = step1(mo);
            let p1 = SingleModel { body: Point { x: (p.body.x + s.0) as i32, y: (p.body.y + s.1) as i32 }, ..p };
            lemma_body_ok(p, p1);
            lemma_wf_of(p, p1);
            lemma_grid_index_ok(w, h, p.map.len() as int, p1.body.x as int, p1.body.y as int);
            let t = take1(p1).0;
            lemma_body_ok(p, t);
            lemma_wf_of(p, t);
            crate::multi::lemma_wrap_spec(as_multi(t));
            lemma_body_ok(p, q);
            lemma_wf_of(p, q);
        },
    }
}

/// Taking back a move gives the position it was applied to, unless a walk
/// took the cell where clones are made, which it leaves blank; the record of
/// the move meets what `back` asks of it.
#[verifier::spinoff_prover]
#[verifier::rlimit(40)]
pub proof fn lemma_back_undoes_apply(p: SingleModel, mo: Move)
    requires
        p.wf(),
        can_apply1(p, mo),
        apply1(p, mo) is Some,
        walking(mo) ==> p.map[idx(p.body.x + step1(mo).0, p.body.y + step1(mo).1, p.width as int)].state != CellState::X,
    ensures
        ({
            let q = (apply1(p, mo)->0).0;
            let r = (apply1(p, mo)->0).1;
            &&& as_multi(q).wf()
            &&& crate::multi::points_in_grid(r.wrapped, q.width as int, q.height as int)
            &&& back1(q, mo, r) == p
        }),
{
    let w = p.width as int;
    let h = p.height as int;
    assert(as_multi(p).bodies[0] == worker(p));
    assert(body_ok(as_multi(p).bodies[0], w, h));
    lemma_grid_index_ok(w, h, p.map.len() as int, p.body.x as int, p.body.y as int);
    let q = (apply1(p, mo)->0).0;
    let r = (apply1(p, mo)->0).1;
    if walking(mo) {
        let s = step1(mo);
        let p1 = SingleModel { body: Point { x: (p.body.x + s.0) as i32, y: (p.body.y + s.1) as i32 }, ..p };
        lemma_body_ok(p, p1);
        assert(as_multi(p1).bodies[0] == worker(p1));
        lemma_grid_index_ok(w, h, p.map.len() as int, p1.body.x as int, p1.body.y as int);
        let j = idx(p1.body.x as int, p1.body.y as int, w);
        lemma_take1_map(p1);
        let t = take1(p1).0;
        lemma_body_ok(p, t);
        assert(as_multi(t).bodies[0] == worker(t));
        lemma_wrap_map(as_multi(t));
        let wq = wrap1(t);
        lemma_map_step_compose(p.map, t.map, wq.0.map, w, h, Seq::<Point>::empty(), wq.1, j, take1(p1).1);
        assert(Seq::<Point>::empty() + wq.1 =~= wq.1);
        lemma_map_step_same(wq.0.map, w, h, j);
        lemma_map_back(p.map, wq.0.map, wq.0.map, w, h, wq.1, Seq::<Point>::empty(), j, j, take1(p1).1, None);
        assert(wq.1 + Seq::<Point>::empty() =~= wq.1);
        crate::multi::lemma_wrap_spec(as_multi(t));
        assert(as_multi(q).bodies =~= as_multi(t).bodies);
        let b = back1(q, mo, r);
        assert(b.map =~= p.map);
    } else if mo is Clockwize || mo is Anticlockwise {
        let d = if mo is Clockwize { ((p.direction + 1) % 4) as i32 } else { ((p.direction + 3) % 4) as i32 };
        let p1 = SingleModel { direction: d, ..p };
        lemma_body_ok(p, p1);
        assert(as_multi(p1).bodies[0] == worker(p1));
        let j = idx(p.body.x as int, p.body.y as int, w);
        lemma_wrap_map(as_multi(p1));
        let wq = wrap1(p1);
        lemma_map_step_same(wq.0.map, w, h, j);
        lemma_map_back(p.map, wq.0.map, wq.0.map, w, h, wq.1, Seq::<Point>::empty(), j, j, None, None);
        assert(wq.1 + Seq::<Point>::empty() =~= wq.1);
        crate::multi::lemma_wrap_spec(as_multi(p1));
        assert(as_multi(q).bodies =~= as_multi(p1).bodies);
        let b = back1(q, mo, r);
        assert(b.map =~= p.map);
    } else {
        let pt = mo->B_0;
        let rr = rotate_spec(pt, p.direction as int);
        let arm = Point { x: rr.0 as i32, y: (-rr.1) as i32 };
        assert(small(arm));
        assert(body_ok(worker(q), w, h)) by {
            assert forall|i: int| 0 <= i < q.manipulators.len() implies small(#[trigger] q.manipulators[i]) by {
                if i < p.manipulators.len() {
                    assert(q.manipulators[i] == p.manipulators[i]);
                    assert(worker(p).manipulators[i] == p.manipulators[i]);
                }
            }
        }
        assert(as_multi(q).bodies[0] == worker(q));
        let b = back1(q, mo, r);
        assert(b.manipulators =~= p.manipulators);
        assert(b.map =~= p.map);
    }
}


/// The direction code of a walking move: 0 up, 1 left, 2 down, 3 right.
pub open spec fn move_code1(mo: Move) -> u8 {
    match mo {
        Move::W => 0,
        Move::A => 1,
        Move::S => 2,
        _ => 3,
    }
}

/// Where the walks `moves` lead the worker; `None` where one would leave
/// the grid or enter a wall.
pub open spec fn route_end1(p: SingleModel, moves: Seq<Move>) -> Option<(int, int)> {
    walk_to(
        open_cells(p.map),
        p.width as int,
        p.height as int,
        p.body.x as int,
        p.body.y as int,
        0,
        moves.map_values(|m: Move| move_code1(m)),
    )
}

/// A route the worker may head for: its moves and the cell it ends on.
pub struct Candidate {
    pub moves: std::collections::VecDeque<Move>,
    pub x: i32,
    pub y: i32,
}

fn code_move1(d: u8) -> (r: Move)
    requires
        d < 4,
    ensures
        move_code1(r) == d,
        walking(r),
{
    if d == 0 {
        Move::W
    } else if d == 1 {
        Move::A
    } else if d == 2 {
        Move::S
    } else {
        Move::D
    }
}

fn moves_of1(path: &Vec<u8>) -> (r: std::collections::VecDeque<Move>)
    requires
        forall|i: int| 0 <= i < path@.len() ==> #[trigger] path@[i] < 4,
    ensures
        r@.map_values(|m: Move| move_code1(m)) == path@,
        forall|i: int| 0 <= i < r@.len() ==> walking(#[trigger] r@[i]),
{
    let mut r: std::collections::VecDeque<Move> = std::collections::VecDeque::new();
    let n = path.len();
    for i in 0..n
        invariant
            n == path@.len(),
            forall|i: int| 0 <= i < path@.len() ==> #[trigger] path@[i] < 4,
            r@.len() == i,
            forall|k: int| 0 <= k < i ==> move_code1(#[trigger] r@[k]) == path@[k],
            forall|k: int| 0 <= k < i ==> walking(#[trigger] r@[k]),
    {
        r.push_back(code_move1(path[i]));
    }
    assert(r@.map_values(|m: Move| move_code1(m)) =~= path@);
    r
}

/// The goals that the search for candidates gives: from the worker, trying
/// up, left, down and right in turn, the unwrapped cells it takes from its
/// queue among the hundred entries from the first such cell on.
pub open spec fn candidate_goals1(p: SingleModel) -> Seq<Entry> {
    searched(
        Field { open: open_cells(p.map), width: p.width as int, height: p.height as int, starts: seq![(p.body.x, p.body.y, 0i32)] },
        seq![0u8, 1u8, 2u8, 3u8],
        unwrapped_cells(p.map),
        true,
    )
}

impl Position {
    /// The routes of walks to unwrapped cells that a breadth first search
    /// from the worker meets from the first such cell on, within the hundred
    /// cells it takes from the queue after that one, trying up, left, down
    /// and right in turn. Which of them to head for is weighed by the caller;
    /// no route to an unwrapped cell is shorter than the first.
    /// None is given only where no unwrapped cell can be reached.
    pub fn target_candidates(&self) -> (r: Vec<Candidate>)
        requires
            as_multi(self@).wf(),
        ensures
            forall|k: int|
                0 <= k < r@.len() ==> {
                    let c = #[trigger] r@[k];
                    &&& forall|i: int| 0 <= i < c.moves@.len() ==> walking(#[trigger] c.moves@[i])
                    &&& in_grid(c.x as int, c.y as int, self.width as int, self.height as int)
                    &&& route_end1(self@, c.moves@) == Some((c.x as int, c.y as int))
                    &&& !cell_at(self@.map, c.x as int, c.y as int, self.width as int).is_wrapped
                },
            r@.len() == 0 ==> !goal_reachable(
                as_multi(self@),
                BodyModel { fast: 0, ..worker(self@) },
                unwrapped_cells(self@.map),
            ),
            r@.len() > 0 ==> nearest(
                open_cells(self@.map),
                unwrapped_cells(self@.map),
                self.width as int,
                self.height as int,
                seq![(self.body.x, self.body.y, 0i32)],
                r@[0].moves@.len(),
            ),
            r@.len() == candidate_goals1(self@).len(),
            forall|k: int|
                0 <= k < r@.len() ==> {
                    let e = candidate_goals1(self@)[k];
                    &&& (#[trigger] r@[k]).moves@.map_values(|m: Move| move_code1(m)) == e.path
                    &&& r@[k].x == e.x
                    &&& r@[k].y == e.y
                },
    {
        let ghost w = self.width as int;
        let ghost h = self.height as int;
        proof {
            assert(as_multi(self@).bodies[0] == worker(self@));
            assert(body_ok(as_multi(self@).bodies[0], w, h));
        }
        let (open, goal) = masks(&self.map, None);
        let starts = vec![(self.body.x, self.body.y, 0i32)];
        let order: Vec<u8> = vec![0u8, 1u8, 2u8, 3u8];
        proof {
            assert(order@[0] == 0u8 && order@[1] == 1u8 && order@[2] == 2u8 && order@[3] == 3u8);
            assert(covers(order@));
            assert(no_boost(starts@));
        }
        let found = explore(&open, &goal, self.width, self.height, &starts, &order, true);
        proof {
            assert(order@ =~= seq![0u8, 1u8, 2u8, 3u8]);
            assert(starts@ =~= seq![(self.body.x, self.body.y, 0i32)]);
            assert(open@ == open_cells(self@.map));
            assert(goal@ == unwrapped_cells(self@.map));
            assert(found_entries(found@) == candidate_goals1(self@));
        }
        let mut r: Vec<Candidate> = Vec::new();
        let n = found.len();
        for k in 0..n
            invariant
                n == found@.len(),
                found_entries(found@) == candidate_goals1(self@),
                forall|j: int|
                    0 <= j < k ==> {
                        let e = candidate_goals1(self@)[j];
                        &&& (#[trigger] r@[j]).moves@.map_values(|m: Move| move_code1(m)) == e.path
                        &&& r@[j].x == e.x
                        &&& r@[j].y == e.y
                    },
                w == self.width,
                h == self.height,
                grid_ok(w, h, self.map@.len() as int),
                open@ == open_cells(self@.map),
                goal@ == unwrapped_cells(self@.map),
                starts@ == seq![(self.body.x, self.body.y, 0i32)],
                forall|j: int| 0 <= j < found@.len() ==> found_ok(open@, goal@, w, h, starts@, #[trigger] found@[j]),
                found@.len() > 0 ==> nearest(open@, goal@, w, h, starts@, found@[0].path@.len()),
                forall|j: int| 0 <= j < k ==> (#[trigger] r@[j]).moves@.len() == found@[j].path@.len(),
                r@.len() == k,
                forall|j: int|
                    0 <= j < k ==> {
                        let c = #[trigger] r@[j];
                        &&& forall|i: int| 0 <= i < c.moves@.len() ==> walking(#[trigger] c.moves@[i])
                        &&& in_grid(c.x as int, c.y as int, w, h)
                        &&& route_end1(self@, c.moves@) == Some((c.x as int, c.y as int))
                        &&& !cell_at(self@.map, c.x as int, c.y as int, w).is_wrapped
                    },
        {
            proof {
                assert(found_ok(open@, goal@, w, h, starts@, found@[k as int]));
                let f = found@[k as int];
                lemma_grid_index_ok(w, h, self.map@.len() as int, f.x as int, f.y as int);
                assert(goal@[idx(f.x as int, f.y as int, w)]);
            }
            let moves = moves_of1(&found[k].path);
            proof {
                assert(moves@.map_values(|m: Move| move_code1(m)).len() == moves@.len());
            }
            r.push(Candidate { moves, x: found[k].x, y: found[k].y });
            proof {
                assert(found_entries(found@)[k as int] == found@[k as int]@);
            }
        }
        proof {
            if r@.len() == 0 {
                let b = BodyModel { fast: 0, ..worker(self@) };
                if goal_reachable(as_multi(self@), b, unwrapped_cells(self@.map)) {
                    let path = choose|path: Seq<u8>|
                        #![trigger walk_to(open_cells(self@.map), w, h, b.point.x as int, b.point.y as int, b.fast as int, path)]
                        walk_to(open_cells(self@.map), w, h, b.point.x as int, b.point.y as int, b.fast as int, path) is Some
                            && unwrapped_cells(self@.map)[idx(
                            (walk_to(open_cells(self@.map), w, h, b.point.x as int, b.point.y as int, b.fast as int, path)->0).0,
                            (walk_to(open_cells(self@.map), w, h, b.point.x as int, b.point.y as int, b.fast as int, path)->0).1,
                            w,
                        )];
                    assert(walk_to(open@, w, h, starts@[0].0 as int, starts@[0].1 as int, starts@[0].2 as int, path) is Some);
                    assert(false);
                }
            }
        }
        r
    }
}


/// The position that starts on a laid out grid.
pub open spec fn start_model(g: Grid) -> SingleModel {
    SingleModel {
        body: Point { x: g.worker.0 as i32, y: g.worker.1 as i32 },
        map: grid_cells(g),
        direction: 0,
        width: g.width as i32,
        height: g.height as i32,
        manipulators: start_arms(),
        rest_b: 0,
        rest_f: 0,
        rest_l: 0,
        rest_c: 0,
        rest_r: 0,
        fast: 0,
        drill: 0,
    }
}

impl Position {
    /// The position of a laid out grid: the worker on its cell, heading
    /// right with its three starting arms, and no boosters held.
    pub fn from_grid(grid: &Grid) -> (r: Position)
        requires
            playable(*grid),
            grid.worker.0 < grid.width,
        ensures
            r@.wf(),
            r@.map == grid_cells(*grid),
            r.width == grid.width,
            r.height == grid.height,
            r.body == (Point { x: grid.worker.0 as i32, y: grid.worker.1 as i32 }),
            r.direction == 0,
            r@.manipulators == start_arms(),
            r.rest_b == 0 && r.rest_f == 0 && r.rest_l == 0 && r.rest_c == 0 && r.rest_r == 0,
            r.fast == 0 && r.drill == 0,
            r@ == start_model(*grid),
    {
        let map = cells_of(grid);
        let arms = vec![Point { x: 1, y: -1 }, Point { x: 1, y: 0 }, Point { x: 1, y: 1 }];
        let r = Position {
            body: Point { x: grid.worker.0 as i32, y: grid.worker.1 as i32 },
            map,
            direction: 0,
            width: grid.width as i32,
            height: grid.height as i32,
            manipulators: arms,
            rest_b: 0,
            rest_f: 0,
            rest_l: 0,
            rest_c: 0,
            rest_r: 0,
            fast: 0,
            drill: 0,
        };
        proof {
            assert(arms@ =~= start_arms());
            assert(grid_ok(r.width as int, r.height as int, r.map@.len() as int));
            assert(body_ok(worker(r@), r.width as int, r.height as int));
        }
        r
    }

    /// Reads a task description into the position it starts from; a worker
    /// whose column lies past the grid's width is refused, as a position
    /// keeps its worker on the grid.
    pub fn from_desc(text: &[u8]) -> (r: Result<Position, DescError>)
        ensures
            match desc_of(text@) {
                None => r == Err::<Position, DescError>(DescError::Syntax),
                Some(d) => match layout_spec(d) {
                    None => r is Err,
                    Some(g) => if d.worker.0 < g.0 {
                        r is Ok && (r->Ok_0).width == g.0 && (r->Ok_0).height == g.1 && exists|gr: Grid|
                            #[trigger] laid(d, gr) && (r->Ok_0)@ == start_model(gr)
                    } else {
                        r == Err::<Position, DescError>(DescError::OutOfMap(d.worker.0 as usize, d.worker.1 as usize))
                    },
                },
            },
            r matches Ok(p) ==> p@.wf(),
    {
        let desc = parse_desc(text)?;
        let grid = layout(&desc)?;
        if grid.worker.0 >= grid.width {
            return Err(DescError::OutOfMap(desc.worker.0, desc.worker.1));
        }
        let r = Position::from_grid(&grid);
        assert(laid(desc@, grid));
        Ok(r)
    }
}

} // verus!
