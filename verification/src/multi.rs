//! The position of the multi-worker solver: workers take turns, pick up
//! boosters, extend their arms, speed up and clone themselves; every move
//! records what it needs to be taken back.
use vstd::prelude::*;
use crate::grid::{idx, in_grid, lemma_index_injective, REACH};
use crate::route::{covers, explore, found_entries, found_ok, nearest, no_boost, searched, walk_to, Entry, Field};
use crate::desc::{desc_of, parse_desc, DescError};
use crate::layout::{booster_code, laid, layout, layout_spec, playable, Grid};
use crate::cells::{
    cell_at, counter_rotate_spec, get_at, get_mut_at, grid_ok, in_sight, lemma_grid_index_ok,
    lemma_sight_same_walls, out_spec, rotate_spec, same_walls, sight, small, wrap_at, wrapped_spec,
};
pub use crate::cells::{BoostItem, Cell, CellState, Point};

verus! {

pub struct Position {
    pub index: i32,
    pub len: i32,
    pub bodies: Vec<Body>,
    pub map: Vec<Cell>,
    pub width: i32,
    pub height: i32,
    pub rest_c: i32,
}

/// What a move changed, kept so that it can be taken back.
pub struct MoveResult {
    pub len: i32,
    pub border_count: i64,
    pub wrapped: Vec<Point>,
    pub boost_item: Option<BoostItem>,
    pub boost_item2: Option<BoostItem>,
    pub move_fast: bool,
    pub prev_fast: i32,
    pub prev_rest_b: i32,
    pub prev_rest_f: i32,
    pub prev_rest_l: i32,
    pub prev_rest_c: i32,
    pub prev_rest_r: i32,
}

/// A worker: its cell, heading, arms, remaining fast steps and boosters.
pub struct Body {
    pub point: Point,
    pub direction: i32,
    pub manipulators: Vec<Point>,
    pub fast: i32,
    pub rest_b: i32,
    pub rest_f: i32,
    pub rest_l: i32,
    pub rest_r: i32,
}

#[derive(Clone, Copy, PartialEq, Eq, Structural, Debug)]
pub enum Move {
    W,
    A,
    S,
    D,
    Z,
    Clockwize,
    Anticlockwise,
    B(Point),
    F,
    L,
    C,
}

/// The character of a decimal digit.
pub open spec fn digit_char(d: int) -> char {
    (48 + d) as char
}

/// The decimal digits of a natural number, most significant first.
pub open spec fn digits(n: nat) -> Seq<char>
    decreases n,
{
    if n < 10 {
        seq![digit_char(n as int)]
    } else {
        digits(n / 10).push(digit_char((n % 10) as int))
    }
}

/// An integer written in decimal, with a minus sign when negative.
pub open spec fn decimal(n: int) -> Seq<char> {
    if n < 0 {
        seq!['-'] + digits((-n) as nat)
    } else {
        digits(n as nat)
    }
}

/// How the task language writes a move.
pub open spec fn move_text(mo: Move) -> Seq<char> {
    match mo {
        Move::W => seq!['W'],
        Move::A => seq!['A'],
        Move::S => seq!['S'],
        Move::D => seq!['D'],
        Move::Z => seq!['Z'],
        Move::Clockwize => seq!['E'],
        Move::Anticlockwise => seq!['Q'],
        Move::B(p) => seq!['B', '('] + decimal(p.x as int) + seq![','] + decimal(p.y as int) + seq![')'],
        Move::F => seq!['F'],
        Move::L => seq!['L'],
        Move::C => seq!['C'],
    }
}

/// The text of one decimal digit.
fn digit_str(d: u64) -> (r: &'static str)
    requires
        d < 10,
    ensures
        r@ == seq![digit_char(d as int)],
{
    if d == 0 {
        proof { reveal_strlit("0"); }
        "0"
    } else if d == 1 {
        proof { reveal_strlit("1"); }
        "1"
    } else if d == 2 {
        proof { reveal_strlit("2"); }
        "2"
    } else if d == 3 {
        proof { reveal_strlit("3"); }
        "3"
    } else if d == 4 {
        proof { reveal_strlit("4"); }
        "4"
    } else if d == 5 {
        proof { reveal_strlit("5"); }
        "5"
    } else if d == 6 {
        proof { reveal_strlit("6"); }
        "6"
    } else if d == 7 {
        proof { reveal_strlit("7"); }
        "7"
    } else if d == 8 {
        proof { reveal_strlit("8"); }
        "8"
    } else {
        proof { reveal_strlit("9"); }
        "9"
    }
}

/// Appends the decimal digits of `n`.
fn push_digits(s: &mut String, n: u64)
    ensures
        final(s)@ == old(s)@ + digits(n as nat),
    decreases n,
{
    if n < 10 {
        s.append(digit_str(n));
    } else {
        push_digits(s, n / 10);
        s.append(digit_str(n % 10));
        proof {
            assert(digits(n as nat) == digits((n / 10) as nat).push(digit_char((n % 10) as int)));
        }
    }
    proof {
        assert(s@ =~= old(s)@ + digits(n as nat)) by {
            if n >= 10 {
                assert(digits(n as nat) =~= digits((n / 10) as nat) + seq![digit_char((n % 10) as int)]);
            }
        }
    }
}

/// Appends `n` in decimal, with a minus sign when it is negative.
fn push_decimal(s: &mut String, n: i32)
    ensures
        final(s)@ == old(s)@ + decimal(n as int),
{
    if n < 0 {
        proof { reveal_strlit("-"); }
        s.append("-");
        let m: u64 = (0i64 - (n as i64)) as u64;
        push_digits(s, m);
        proof {
            assert(s@ =~= old(s)@ + decimal(n as int));
        }
    } else {
        push_digits(s, n as u64);
    }
}

/// The text of an arm move, `B(x,y)`.
fn arm_text(x: i32, y: i32) -> (s: String)
    ensures
        s@ == seq!['B', '('] + decimal(x as int) + seq![','] + decimal(y as int) + seq![')'],
{
    proof {
        reveal_strlit("B(");
        reveal_strlit(",");
        reveal_strlit(")");
    }
    let mut s = String::from_str("B(");
    push_decimal(&mut s, x);
    s.append(",");
    push_decimal(&mut s, y);
    s.append(")");
    proof {
        assert(s@ =~= seq!['B', '('] + decimal(x as int) + seq![','] + decimal(y as int) + seq![')']);
    }
    s
}

/// A one-letter text.
fn letter(s: &str) -> (r: String)
    ensures
        r@ == s@,
{
    s.to_string()
}

impl Move {
    /// The move as the task language writes it.
    pub fn get_string(&self) -> (r: String)
        ensures
            r@ == move_text(*self),
    {
        match self {
            Move::W => {
                proof { reveal_strlit("W"); }
                letter("W")
            },
            Move::A => {
                proof { reveal_strlit("A"); }
                letter("A")
            },
            Move::S => {
                proof { reveal_strlit("S"); }
                letter("S")
            },
            Move::D => {
                proof { reveal_strlit("D"); }
                letter("D")
            },
            Move::Z => {
                proof { reveal_strlit("Z"); }
                letter("Z")
            },
            Move::Clockwize => {
                proof { reveal_strlit("E"); }
                letter("E")
            },
            Move::Anticlockwise => {
                proof { reveal_strlit("Q"); }
                letter("Q")
            },
            Move::B(point) => arm_text(point.x, point.y),
            Move::F => {
                proof { reveal_strlit("F"); }
                letter("F")
            },
            Move::L => {
                proof { reveal_strlit("L"); }
                letter("L")
            },
            Move::C => {
                proof { reveal_strlit("C"); }
                letter("C")
            },
        }
    }
}

/// The moves that walk a route.
pub struct Target {
    pub moves: std::collections::VecDeque<Move>,
}

pub struct BodyModel {
    pub point: Point,
    pub direction: i32,
    pub manipulators: Seq<Point>,
    pub fast: i32,
    pub rest_b: i32,
    pub rest_f: i32,
    pub rest_l: i32,
    pub rest_r: i32,
}

impl View for Body {
    type V = BodyModel;

    open spec fn view(&self) -> BodyModel {
        BodyModel {
            point: self.point,
            direction: self.direction,
            manipulators: self.manipulators@,
            fast: self.fast,
            rest_b: self.rest_b,
            rest_f: self.rest_f,
            rest_l: self.rest_l,
            rest_r: self.rest_r,
        }
    }
}

pub struct PositionModel {
    pub index: i32,
    pub len: i32,
    pub bodies: Seq<BodyModel>,
    pub map: Seq<Cell>,
    pub width: i32,
    pub height: i32,
    pub rest_c: i32,
}

impl View for Position {
    type V = PositionModel;

    open spec fn view(&self) -> PositionModel {
        PositionModel {
            index: self.index,
            len: self.len,
            bodies: self.bodies@.map_values(|b: Body| b@),
            map: self.map@,
            width: self.width,
            height: self.height,
            rest_c: self.rest_c,
        }
    }
}

pub struct MoveResultModel {
    pub len: i32,
    pub border_count: int,
    pub wrapped: Seq<Point>,
    pub boost_item: Option<BoostItem>,
    pub boost_item2: Option<BoostItem>,
    pub move_fast: bool,
    pub prev_fast: i32,
    pub prev_rest_b: i32,
    pub prev_rest_f: i32,
    pub prev_rest_l: i32,
    pub prev_rest_c: i32,
    pub prev_rest_r: i32,
}

impl View for MoveResult {
    type V = MoveResultModel;

    open spec fn view(&self) -> MoveResultModel {
        MoveResultModel {
            len: self.len,
            border_count: self.border_count as int,
            wrapped: self.wrapped@,
            boost_item: self.boost_item,
            boost_item2: self.boost_item2,
            move_fast: self.move_fast,
            prev_fast: self.prev_fast,
            prev_rest_b: self.prev_rest_b,
            prev_rest_f: self.prev_rest_f,
            prev_rest_l: self.prev_rest_l,
            prev_rest_c: self.prev_rest_c,
            prev_rest_r: self.prev_rest_r,
        }
    }
}

/// The counters of a worker leave room for what one move adds or takes.
pub open spec fn counters_ok(b: BodyModel) -> bool {
    &&& i32::MIN < b.rest_b < i32::MAX - 1
    &&& i32::MIN < b.rest_f < i32::MAX - 1
    &&& i32::MIN < b.rest_l < i32::MAX - 1
    &&& i32::MIN < b.rest_r < i32::MAX - 1
    &&& i32::MIN < b.fast
}

pub open spec fn body_ok(b: BodyModel, width: int, height: int) -> bool {
    &&& in_grid(b.point.x as int, b.point.y as int, width, height)
    &&& 0 <= b.direction < 4
    &&& forall|i: int| 0 <= i < b.manipulators.len() ==> small(#[trigger] b.manipulators[i])
}

/// The three arms that every worker starts with.
pub open spec fn start_arms() -> Seq<Point> {
    seq![Point { x: 1i32, y: -1i32 }, Point { x: 1i32, y: 0i32 }, Point { x: 1i32, y: 1i32 }]
}

impl PositionModel {
    pub open spec fn wf(&self) -> bool {
        &&& grid_ok(self.width as int, self.height as int, self.map.len() as int)
        &&& 0 <= self.index < self.len <= self.bodies.len() < i32::MAX
        &&& forall|i: int| 0 <= i < self.bodies.len() ==> body_ok(#[trigger] self.bodies[i], self.width as int, self.height as int)
    }

    /// The worker whose turn it is.
    pub open spec fn cur(&self) -> BodyModel {
        self.bodies[self.index as int]
    }

    pub open spec fn with_cur(&self, b: BodyModel) -> PositionModel {
        PositionModel { bodies: self.bodies.update(self.index as int, b), ..*self }
    }

    pub open spec fn is_out(&self, x: int, y: int) -> bool {
        out_spec(self.map, self.width as int, self.height as int, x, y)
    }

    pub open spec fn is_wrapped(&self, x: int, y: int) -> bool {
        wrapped_spec(self.map, self.width as int, self.height as int, x, y)
    }

    /// Whether the worker may take the move: an arm offset stays within reach
    /// and every counter it touches stays within 32 bits.
    pub open spec fn can_apply(&self, mo: Move) -> bool {
        &&& counters_ok(self.cur())
        &&& i32::MIN < self.rest_c < i32::MAX - 1
        &&& !(mo is L)
        &&& (mo matches Move::B(pt) ==> small(pt))
        &&& (mo is C ==> self.bodies.len() + 1 < i32::MAX)
    }
}

/// The cells that the arms of `b` would wrap, in order: those inside the
/// grid and in sight of the worker.
pub open spec fn manip_cands(map: Seq<Cell>, width: int, height: int, b: BodyModel, ms: Seq<Point>) -> Seq<(int, int)>
    decreases ms.len(),
{
    if ms.len() == 0 {
        seq![]
    } else {
        let rest = manip_cands(map, width, height, b, ms.drop_last());
        let r = rotate_spec(ms.last(), b.direction as int);
        let t = (b.point.x + r.0, b.point.y + r.1);
        if in_grid(t.0, t.1, width, height) && sight(map, width, b.point.x as int, b.point.y as int, t.0, t.1) {
            rest.push(t)
        } else {
            rest
        }
    }
}

/// The number of the four neighbours of `(x, y)` that are wrapped or closed.
pub open spec fn border_at(map: Seq<Cell>, width: int, height: int, x: int, y: int) -> int {
    (if wrapped_spec(map, width, height, x - 1, y) { 1int } else { 0int }) + (if wrapped_spec(map, width, height, x, y - 1) {
        1int
    } else {
        0int
    }) + (if wrapped_spec(map, width, height, x + 1, y) { 1int } else { 0int }) + (if wrapped_spec(
        map,
        width,
        height,
        x,
        y + 1,
    ) {
        1int
    } else {
        0int
    })
}

/// Wraps the unwrapped cells among `cs` in order; gives the new map, the
/// cells wrapped and, summed over them, the wrapped neighbours each had once
/// wrapped.
pub open spec fn wrap_fold(map: Seq<Cell>, width: int, height: int, cs: Seq<(int, int)>) -> (Seq<Cell>, Seq<Point>, int)
    decreases cs.len(),
{
    if cs.len() == 0 {
        (map, seq![], 0)
    } else {
        let prev = wrap_fold(map, width, height, cs.drop_last());
        let c = cs.last();
        let j = idx(c.0, c.1, width);
        if !prev.0[j].is_wrapped {
            let m = prev.0.update(j, Cell { is_wrapped: true, ..prev.0[j] });
            (m, prev.1.push(Point { x: c.0 as i32, y: c.1 as i32 }), prev.2 + border_at(m, width, height, c.0, c.1))
        } else {
            prev
        }
    }
}

/// Wrapping by the current worker: its own cell, then the cells of its arms
/// in sight; gives the new position, the cells wrapped and the border count
/// of the arms' cells.
pub open spec fn wrap_spec(p: PositionModel) -> (PositionModel, Seq<Point>, int) {
    let b = p.cur();
    let j = idx(b.point.x as int, b.point.y as int, p.width as int);
    let first = if !p.map[j].is_wrapped {
        (p.map.update(j, Cell { is_wrapped: true, ..p.map[j] }), seq![b.point])
    } else {
        (p.map, Seq::<Point>::empty())
    };
    let rest = wrap_fold(first.0, p.width as int, p.height as int, manip_cands(p.map, p.width as int, p.height as int, b, b.manipulators));
    (PositionModel { map: rest.0, ..p }, first.1 + rest.1, rest.2)
}

/// The cell state that holds a booster.
pub open spec fn boost_state(item: BoostItem) -> CellState {
    match item {
        BoostItem::B => CellState::B,
        BoostItem::F => CellState::F,
        BoostItem::L => CellState::L,
        BoostItem::R => CellState::R,
        BoostItem::C => CellState::C,
    }
}

/// The current worker picks up the booster on its cell, if any.
pub open spec fn take_boost(p: PositionModel) -> (PositionModel, Option<BoostItem>) {
    let b = p.cur();
    let j = idx(b.point.x as int, b.point.y as int, p.width as int);
    let c = p.map[j];
    let cleared = p.map.update(j, Cell { state: CellState::Blank, ..c });
    match c.state {
        CellState::B => (PositionModel { map: cleared, ..p.with_cur(BodyModel { rest_b: (b.rest_b + 1) as i32, ..b }) }, Some(BoostItem::B)),
        CellState::F => (PositionModel { map: cleared, ..p.with_cur(BodyModel { rest_f: (b.rest_f + 1) as i32, ..b }) }, Some(BoostItem::F)),
        CellState::L => (PositionModel { map: cleared, ..p.with_cur(BodyModel { rest_l: (b.rest_l + 1) as i32, ..b }) }, Some(BoostItem::L)),
        CellState::R => (PositionModel { map: cleared, ..p.with_cur(BodyModel { rest_r: (b.rest_r + 1) as i32, ..b }) }, Some(BoostItem::R)),
        CellState::C => (PositionModel { map: cleared, rest_c: (p.rest_c + 1) as i32, ..p }, Some(BoostItem::C)),
        _ => (p, None),
    }
}

/// How many boosters of kind `k` are held: the current worker's own counts,
/// and the clone count that all workers share.
pub open spec fn held(p: PositionModel, k: BoostItem) -> int {
    match k {
        BoostItem::B => p.cur().rest_b as int,
        BoostItem::F => p.cur().rest_f as int,
        BoostItem::L => p.cur().rest_l as int,
        BoostItem::R => p.cur().rest_r as int,
        BoostItem::C => p.rest_c as int,
    }
}

/// The cell state that holds a booster of kind `k`.
pub open spec fn holding(k: BoostItem) -> CellState {
    match k {
        BoostItem::B => CellState::B,
        BoostItem::F => CellState::F,
        BoostItem::L => CellState::L,
        BoostItem::R => CellState::R,
        BoostItem::C => CellState::C,
    }
}

/// Picking up takes the kind of booster the worker's cell holds, raises the
/// count of that kind by one and keeps the count of every other kind; on a
/// cell with no booster to take nothing changes. The worker keeps its place
/// and heading.
pub proof fn lemma_pickup_counts(p: PositionModel)
    requires
        p.wf(),
        p.cur().rest_b < i32::MAX,
        p.cur().rest_f < i32::MAX,
        p.cur().rest_l < i32::MAX,
        p.cur().rest_r < i32::MAX,
        p.rest_c < i32::MAX,
    ensures
        ({
            let (q, item) = take_boost(p);
            let st = p.map[idx(p.cur().point.x as int, p.cur().point.y as int, p.width as int)].state;
            &&& forall|k: BoostItem| (item == Some(k)) <==> (st == holding(k))
            &&& forall|k: BoostItem| #[trigger] held(q, k) == held(p, k) + if item == Some(k) { 1int } else { 0int }
            &&& item is None ==> q == p
            &&& q.index == p.index && q.cur().point == p.cur().point && q.cur().direction == p.cur().direction
        }),
{
    let (q, item) = take_boost(p);
    let b = p.cur();
    let st = p.map[idx(b.point.x as int, b.point.y as int, p.width as int)].state;
    assert(0 <= p.index < p.bodies.len());
    assert forall|k: BoostItem| #[trigger] held(q, k) == held(p, k) + if item == Some(k) { 1int } else { 0int } by {
        match st {
            CellState::B => assert(q.cur() == BodyModel { rest_b: (b.rest_b + 1) as i32, ..b }),
            CellState::F => assert(q.cur() == BodyModel { rest_f: (b.rest_f + 1) as i32, ..b }),
            CellState::L => assert(q.cur() == BodyModel { rest_l: (b.rest_l + 1) as i32, ..b }),
            CellState::R => assert(q.cur() == BodyModel { rest_r: (b.rest_r + 1) as i32, ..b }),
            _ => {},
        }
    }
    match st {
        CellState::B => assert(q.cur() == BodyModel { rest_b: (b.rest_b + 1) as i32, ..b }),
        CellState::F => assert(q.cur() == BodyModel { rest_f: (b.rest_f + 1) as i32, ..b }),
        CellState::L => assert(q.cur() == BodyModel { rest_l: (b.rest_l + 1) as i32, ..b }),
        CellState::R => assert(q.cur() == BodyModel { rest_r: (b.rest_r + 1) as i32, ..b }),
        _ => {},
    }
}

/// The step of a walking move.
pub open spec fn step_of(mo: Move) -> (int, int) {
    match mo {
        Move::W => (0, -1),
        Move::A => (-1, 0),
        Move::S => (0, 1),
        Move::D => (1, 0),
        _ => (0, 0),
    }
}

pub open spec fn is_walk(mo: Move) -> bool {
    mo is W || mo is A || mo is S || mo is D
}

/// The current worker moved by `(dx, dy)`.
pub open spec fn moved(p: PositionModel, dx: int, dy: int) -> PositionModel {
    let b = p.cur();
    p.with_cur(BodyModel { point: Point { x: (b.point.x + dx) as i32, y: (b.point.y + dy) as i32 }, ..b })
}

/// One walking step: the worker moves, picks up the booster there and wraps.
pub open spec fn walk_step(p: PositionModel, s: (int, int)) -> (PositionModel, Option<BoostItem>, Seq<Point>, int) {
    let t = take_boost(moved(p, s.0, s.1));
    let w = wrap_spec(t.0);
    (w.0, t.1, w.1, w.2)
}

/// The first part of a move: `None` where a walk would leave the grid or
/// enter a wall, else the position, the booster taken, the cells wrapped and
/// the border count.
pub open spec fn first_part(p: PositionModel, mo: Move) -> Option<(PositionModel, Option<BoostItem>, Seq<Point>, int)> {
    let b = p.cur();
    match mo {
        Move::Z => Some((p, None, seq![], 0)),
        Move::Clockwize => {
            let w = wrap_spec(p.with_cur(BodyModel { direction: ((b.direction + 1) % 4) as i32, ..b }));
            Some((w.0, None, w.1, 0))
        },
        Move::Anticlockwise => {
            let w = wrap_spec(p.with_cur(BodyModel { direction: ((b.direction + 3) % 4) as i32, ..b }));
            Some((w.0, None, w.1, 0))
        },
        Move::B(pt) => {
            let r = rotate_spec(pt, b.direction as int);
            let arm = Point { x: r.0 as i32, y: (-r.1) as i32 };
            Some((p.with_cur(BodyModel { manipulators: b.manipulators.push(arm), rest_b: (b.rest_b - 1) as i32, ..b }), None, seq![], 0))
        },
        Move::F => Some((p.with_cur(BodyModel { fast: 51, rest_f: (b.rest_f - 1) as i32, ..b }), None, seq![], 0)),
        Move::C => Some((
            PositionModel {
                rest_c: (p.rest_c - 1) as i32,
                bodies: p.bodies.push(BodyModel {
                    point: b.point,
                    direction: b.direction,
                    manipulators: start_arms(),
                    fast: 0,
                    rest_b: 0,
                    rest_f: 0,
                    rest_l: 0,
                    rest_r: 0,
                }),
                ..p
            },
            None,
            seq![],
            0,
        )),
        _ => {
            let s = step_of(mo);
            if p.is_out(b.point.x + s.0, b.point.y + s.1) {
                None
            } else {
                Some(walk_step(p, s))
            }
        },
    }
}

/// What a move does; the turn passes to the next worker unless the move is
/// only tried during a search.
pub open spec fn apply_spec(p: PositionModel, for_search: bool, mo: Move) -> Option<(PositionModel, MoveResultModel)> {
    match first_part(p, mo) {
        None => None,
        Some(f) => {
            let p1 = f.0;
            let b1 = p1.cur();
            let s = step_of(mo);
            let second = if 0 < b1.fast && is_walk(mo) && !p1.is_out(b1.point.x + s.0, b1.point.y + s.1) {
                let w = walk_step(p1, s);
                (w.0, w.1, f.2 + w.2, f.3 + w.3, true)
            } else {
                (p1, None, f.2, f.3, false)
            };
            let p2 = second.0;
            let b2 = p2.cur();
            let p3 = if 0 < b1.fast {
                p2.with_cur(BodyModel { fast: (b2.fast - 1) as i32, ..b2 })
            } else {
                p2
            };
            let p4 = if for_search {
                p3
            } else if p3.len == p3.index + 1 {
                PositionModel { index: 0, len: p3.bodies.len() as i32, ..p3 }
            } else {
                PositionModel { index: (p3.index + 1) as i32, ..p3 }
            };
            let b = p.cur();
            Some((
                p4,
                MoveResultModel {
                    len: p.len,
                    border_count: second.3,
                    wrapped: second.2,
                    boost_item: f.1,
                    boost_item2: second.1,
                    move_fast: second.4,
                    prev_fast: b.fast,
                    prev_rest_b: b.rest_b,
                    prev_rest_f: b.rest_f,
                    prev_rest_l: b.rest_l,
                    prev_rest_c: p.rest_c,
                    prev_rest_r: b.rest_r,
                },
            ))
        },
    }
}

/// Puts a booster back on the current worker's cell.
pub open spec fn restore_boost(p: PositionModel, item: Option<BoostItem>) -> PositionModel {
    match item {
        Some(it) => {
            let b = p.cur();
            let j = idx(b.point.x as int, b.point.y as int, p.width as int);
            PositionModel { map: p.map.update(j, Cell { state: boost_state(it), ..p.map[j] }), ..p }
        },
        None => p,
    }
}

/// Sets each of the cells `ws` back to unwrapped.
pub open spec fn unwrap_fold(map: Seq<Cell>, width: int, ws: Seq<Point>) -> Seq<Cell>
    decreases ws.len(),
{
    if ws.len() == 0 {
        map
    } else {
        let prev = unwrap_fold(map, width, ws.drop_last());
        let j = idx(ws.last().x as int, ws.last().y as int, width);
        prev.update(j, Cell { is_wrapped: false, ..prev[j] })
    }
}

/// Taking a move back: boosters return to their cells, the worker steps or
/// turns back or drops its new arm, the cells wrapped are unwrapped and the
/// counters are those recorded.
pub open spec fn back_spec(p: PositionModel, mo: Move, r: MoveResultModel) -> PositionModel {
    let p1 = PositionModel { len: r.len, ..p };
    let p2 = restore_boost(p1, if r.move_fast { r.boost_item2 } else { r.boost_item });
    let b2 = p2.cur();
    let s = step_of(mo);
    let p3 = match mo {
        Move::Clockwize => p2.with_cur(BodyModel { direction: ((b2.direction + 3) % 4) as i32, ..b2 }),
        Move::Anticlockwise => p2.with_cur(BodyModel { direction: ((b2.direction + 1) % 4) as i32, ..b2 }),
        Move::B(_) => if b2.manipulators.len() > 0 {
            p2.with_cur(BodyModel { manipulators: b2.manipulators.drop_last(), ..b2 })
        } else {
            p2
        },
        _ => moved(p2, -s.0, -s.1),
    };
    let p4 = if r.move_fast {
        let q = restore_boost(p3, r.boost_item);
        moved(q, -s.0, -s.1)
    } else {
        p3
    };
    let p5 = PositionModel { map: unwrap_fold(p4.map, p4.width as int, r.wrapped), ..p4 };
    let b5 = p5.cur();
    PositionModel {
        rest_c: r.prev_rest_c,
        ..p5.with_cur(BodyModel {
            fast: r.prev_fast,
            rest_b: r.prev_rest_b,
            rest_f: r.prev_rest_f,
            rest_l: r.prev_rest_l,
            rest_r: r.prev_rest_r,
            ..b5
        })
    }
}

/// Every cell of `cs` lies in the grid.
pub open spec fn all_in_grid(cs: Seq<(int, int)>, width: int, height: int) -> bool {
    forall|k: int| 0 <= k < cs.len() ==> in_grid(#[trigger] cs[k].0, cs[k].1, width, height)
}

/// Every point of `ws` lies in the grid.
pub open spec fn points_in_grid(ws: Seq<Point>, width: int, height: int) -> bool {
    forall|k: int| 0 <= k < ws.len() ==> in_grid(#[trigger] ws[k].x as int, ws[k].y as int, width, height)
}

/// Some cell of `ws` has index `i`.
pub open spec fn hits(ws: Seq<Point>, width: int, i: int) -> bool {
    exists|k: int| 0 <= k < ws.len() && idx(ws[k].x as int, ws[k].y as int, width) == i
}

pub(crate) proof fn lemma_manip_cands(m1: Seq<Cell>, m2: Seq<Cell>, width: int, height: int, b: BodyModel, ms: Seq<Point>)
    requires
        same_walls(m1, m2),
        grid_ok(width, height, m1.len() as int),
        in_grid(b.point.x as int, b.point.y as int, width, height),
    ensures
        manip_cands(m1, width, height, b, ms) == manip_cands(m2, width, height, b, ms),
        all_in_grid(manip_cands(m1, width, height, b, ms), width, height),
        manip_cands(m1, width, height, b, ms).len() <= ms.len(),
    decreases ms.len(),
{
    if ms.len() > 0 {
        lemma_manip_cands(m1, m2, width, height, b, ms.drop_last());
        let r = rotate_spec(ms.last(), b.direction as int);
        let t = (b.point.x + r.0, b.point.y + r.1);
        if in_grid(t.0, t.1, width, height) {
            lemma_sight_same_walls(m1, m2, width, height, b.point.x as int, b.point.y as int, t.0, t.1);
        }
    }
}

/// Wrapping sets the wrapped flag of the cells it lists, which were not
/// wrapped, and changes nothing else; the border count stays within four
/// per cell considered.
pub(crate) proof fn lemma_wrap_fold(map: Seq<Cell>, width: int, height: int, cs: Seq<(int, int)>)
    requires
        grid_ok(width, height, map.len() as int),
        all_in_grid(cs, width, height),
    ensures
        wrap_fold(map, width, height, cs).0.len() == map.len(),
        same_walls(map, wrap_fold(map, width, height, cs).0),
        points_in_grid(wrap_fold(map, width, height, cs).1, width, height),
        0 <= wrap_fold(map, width, height, cs).2 <= 4 * cs.len(),
        forall|i: int| 0 <= i < map.len() ==> (#[trigger] wrap_fold(map, width, height, cs).0[i]).state == map[i].state,
        forall|i: int| 0 <= i < map.len() ==> (#[trigger] wrap_fold(map, width, height, cs).0[i]).is_wrapped == (map[i].is_wrapped
            || hits(wrap_fold(map, width, height, cs).1, width, i)),
        forall|k: int| 0 <= k < wrap_fold(map, width, height, cs).1.len() ==> !map[idx(
            #[trigger] wrap_fold(map, width, height, cs).1[k].x as int,
            wrap_fold(map, width, height, cs).1[k].y as int,
            width,
        )].is_wrapped,
    decreases cs.len(),
{
    if cs.len() > 0 {
        let rest = cs.drop_last();
        assert(all_in_grid(rest, width, height)) by {
            assert forall|k: int| 0 <= k < rest.len() implies in_grid(#[trigger] rest[k].0, rest[k].1, width, height) by {
                assert(rest[k] == cs[k]);
            }
        }
        lemma_wrap_fold(map, width, height, rest);
        let prev = wrap_fold(map, width, height, rest);
        let c = cs.last();
        assert(in_grid(c.0, c.1, width, height)) by {
            assert(cs[cs.len() - 1] == c);
        }
        lemma_grid_index_ok(width, height, map.len() as int, c.0, c.1);
        let j = idx(c.0, c.1, width);
        if !prev.0[j].is_wrapped {
            let p = Point { x: c.0 as i32, y: c.1 as i32 };
            let ws = prev.1.push(p);
            let m = prev.0.update(j, Cell { is_wrapped: true, ..prev.0[j] });
            assert(idx(p.x as int, p.y as int, width) == j);
            assert(!hits(prev.1, width, j));
            assert forall|i: int| 0 <= i < map.len() implies (#[trigger] m[i]).is_wrapped == (map[i].is_wrapped || hits(ws, width, i)) by {
                if i == j {
                    assert(ws[ws.len() - 1] == p);
                } else {
                    if hits(ws, width, i) {
                        let k = choose|k: int| 0 <= k < ws.len() && idx(ws[k].x as int, ws[k].y as int, width) == i;
                        assert(k < prev.1.len());
                        assert(ws[k] == prev.1[k]);
                    }
                    if hits(prev.1, width, i) {
                        let k = choose|k: int| 0 <= k < prev.1.len() && idx(prev.1[k].x as int, prev.1[k].y as int, width) == i;
                        assert(ws[k] == prev.1[k]);
                    }
                }
            }
            assert forall|k: int| 0 <= k < ws.len() implies !map[idx(#[trigger] ws[k].x as int, ws[k].y as int, width)].is_wrapped by {
                if k < prev.1.len() {
                    assert(ws[k] == prev.1[k]);
                } else {
                    assert(ws[k] == p);
                }
            }
            assert forall|k: int| 0 <= k < ws.len() implies in_grid(#[trigger] ws[k].x as int, ws[k].y as int, width, height) by {
                if k < prev.1.len() {
                    assert(ws[k] == prev.1[k]);
                } else {
                    assert(ws[k] == p);
                }
            }
        }
    }
}

/// Unwrapping the cells `ws` clears exactly their wrapped flags.
pub(crate) proof fn lemma_unwrap_fold(map: Seq<Cell>, width: int, height: int, ws: Seq<Point>)
    requires
        grid_ok(width, height, map.len() as int),
        points_in_grid(ws, width, height),
    ensures
        unwrap_fold(map, width, ws).len() == map.len(),
        forall|i: int| 0 <= i < map.len() ==> (#[trigger] unwrap_fold(map, width, ws)[i]).state == map[i].state,
        forall|i: int| 0 <= i < map.len() ==> (#[trigger] unwrap_fold(map, width, ws)[i]).is_wrapped == (map[i].is_wrapped
            && !hits(ws, width, i)),
    decreases ws.len(),
{
    if ws.len() > 0 {
        let rest = ws.drop_last();
        assert(points_in_grid(rest, width, height)) by {
            assert forall|k: int| 0 <= k < rest.len() implies in_grid(#[trigger] rest[k].x as int, rest[k].y as int, width, height) by {
                assert(rest[k] == ws[k]);
            }
        }
        lemma_unwrap_fold(map, width, height, rest);
        let p = ws.last();
        assert(in_grid(p.x as int, p.y as int, width, height)) by {
            assert(ws[ws.len() - 1] == p);
        }
        lemma_grid_index_ok(width, height, map.len() as int, p.x as int, p.y as int);
        let j = idx(p.x as int, p.y as int, width);
        assert forall|i: int| 0 <= i < map.len() implies (#[trigger] unwrap_fold(map, width, ws)[i]).is_wrapped == (map[i].is_wrapped
            && !hits(ws, width, i)) by {
            if i == j {
                assert(ws[ws.len() - 1] == p);
            } else {
                if hits(ws, width, i) {
                    let k = choose|k: int| 0 <= k < ws.len() && idx(ws[k].x as int, ws[k].y as int, width) == i;
                    assert(k < rest.len());
                    assert(ws[k] == rest[k]);
                }
                if hits(rest, width, i) {
                    let k = choose|k: int| 0 <= k < rest.len() && idx(rest[k].x as int, rest[k].y as int, width) == i;
                    assert(ws[k] == rest[k]);
                }
            }
        }
    }
}

/// The number of cells that are not wrapped.
pub open spec fn count_unwrapped_spec(map: Seq<Cell>) -> nat
    decreases map.len(),
{
    if map.len() == 0 {
        0
    } else {
        count_unwrapped_spec(map.drop_last()) + if map.last().is_wrapped {
            0nat
        } else {
            1nat
        }
    }
}

/// Every worker's arms number at most `i32::MAX`.
pub open spec fn arms_ok(p: PositionModel) -> bool {
    forall|i: int| 0 <= i < p.bodies.len() ==> (#[trigger] p.bodies[i]).manipulators.len() < i32::MAX
}

proof fn lemma_update_views(s: Seq<Body>, i: int, v: Body)
    requires
        0 <= i < s.len(),
    ensures
        s.update(i, v).map_values(|b: Body| b@) == s.map_values(|b: Body| b@).update(i, v@),
{
    assert(s.update(i, v).map_values(|b: Body| b@) =~= s.map_values(|b: Body| b@).update(i, v@));
}

impl Position {
    /// The number of cells that are not wrapped.
    pub fn count_unwrapped(&self) -> (r: i32)
        requires
            self.map@.len() <= i32::MAX,
        ensures
            r == count_unwrapped_spec(self.map@),
    {
        let mut count: i32 = 0;
        let n = self.map.len();
        for i in 0..n
            invariant
                n == self.map@.len(),
                n <= i32::MAX,
                count == count_unwrapped_spec(self.map@.take(i as int)),
                count <= i,
        {
            proof {
                assert(self.map@.take(i + 1).drop_last() =~= self.map@.take(i as int));
            }
            if !self.map[i].is_wrapped {
                count = count + 1;
            }
        }
        assert(self.map@.take(n as int) =~= self.map@);
        count
    }

    /// The worker whose turn it is.
    pub fn get_body(&self) -> (r: &Body)
        requires
            0 <= self.index < self.bodies@.len(),
        ensures
            r@ == self@.cur(),
    {
        &self.bodies[self.index as usize]
    }

    /// The worker whose turn it is, to change.
    pub fn get_body_mut(&mut self) -> (r: &mut Body)
        requires
            0 <= old(self).index < old(self).bodies@.len(),
        ensures
            r@ == old(self)@.cur(),
            final(self)@ == old(self)@.with_cur(final(r)@),
    {
        let i = self.index as usize;
        let ghost old_bodies = self.bodies@;
        let r = &mut self.bodies[i];
        proof {
            lemma_update_views(old_bodies, i as int, *final(r));
        }
        r
    }

    /// Whether `(x, y)` is outside the grid or a wall.
    pub fn is_out(&self, x: i32, y: i32) -> (r: bool)
        requires
            grid_ok(self.width as int, self.height as int, self.map@.len() as int),
        ensures
            r == self@.is_out(x as int, y as int),
    {
        if x < 0 || self.width <= x || y < 0 || self.height <= y {
            return true;
        }
        proof {
            lemma_grid_index_ok(self.width as int, self.height as int, self.map@.len() as int, x as int, y as int);
        }
        get_at(&self.map, x, y, self.width).state == CellState::Wall
    }

    /// Whether `(x, y)` is outside the grid, a wall, or wrapped.
    pub fn is_wrapped(&self, x: i32, y: i32) -> (r: bool)
        requires
            grid_ok(self.width as int, self.height as int, self.map@.len() as int),
        ensures
            r == self@.is_wrapped(x as int, y as int),
    {
        if self.is_out(x, y) {
            return true;
        }
        proof {
            lemma_grid_index_ok(self.width as int, self.height as int, self.map@.len() as int, x as int, y as int);
        }
        get_at(&self.map, x, y, self.width).is_wrapped
    }

    fn is_reachable(&self, target_x: i32, target_y: i32, width: i32) -> (r: bool)
        requires
            self@.wf(),
            width == self.width,
            in_grid(target_x as int, target_y as int, self.width as int, self.height as int),
        ensures
            r == sight(
                self.map@,
                self.width as int,
                self@.cur().point.x as int,
                self@.cur().point.y as int,
                target_x as int,
                target_y as int,
            ),
    {
        let point = self.get_body().point;
        proof {
            assert(body_ok(self@.bodies[self.index as int], self.width as int, self.height as int));
        }
        in_sight(&self.map, self.width, self.height, point.x, point.y, target_x, target_y)
    }

    /// Wraps the cell of the current worker and those of its arms in sight;
    /// appends the cells wrapped and gives the number of wrapped or closed
    /// neighbours of the arms' new cells.
    pub fn wrap(&mut self, wrapped: &mut Vec<Point>) -> (r: i64)
        requires
            old(self)@.wf(),
            arms_ok(old(self)@),
        ensures
            final(self)@ == wrap_spec(old(self)@).0,
            final(wrapped)@ == old(wrapped)@ + wrap_spec(old(self)@).1,
            r == wrap_spec(old(self)@).2,
    {
        let ghost p0 = self@;
        let ghost map0 = self.map@;
        let ghost w0 = wrapped@;
        let ghost w = self.width as int;
        let ghost h = self.height as int;
        let i = self.index as usize;
        let ghost b = p0.cur();
        proof {
            assert(body_ok(p0.bodies[i as int], w, h));
            assert(self.bodies@[i as int]@ == b);
        }
        let point = self.bodies[i].point;
        let direction = self.bodies[i].direction;
        proof {
            lemma_grid_index_ok(w, h, map0.len() as int, point.x as int, point.y as int);
        }
        if wrap_at(&mut self.map, point.x, point.y, self.width) {
            wrapped.push(point);
        }
        let ghost m1 = self.map@;
        let ghost first = wrapped@.subrange(w0.len() as int, wrapped@.len() as int);
        proof {
            assert(first =~= wrap_spec(p0).1.take(first.len() as int)) by {
                if !map0[idx(point.x as int, point.y as int, w)].is_wrapped {
                    assert(first =~= seq![point]);
                } else {
                    assert(first =~= Seq::<Point>::empty());
                }
            }
            assert(wrapped@ =~= w0 + first);
            assert(same_walls(map0, m1));
            assert(b.manipulators.take(0) =~= Seq::<Point>::empty());
            assert(manip_cands(map0, w, h, b, Seq::<Point>::empty()) =~= Seq::<(int, int)>::empty());
        }
        let mut border: i64 = 0;
        let n = self.bodies[i].manipulators.len();
        for k in 0..n
            invariant
                n == b.manipulators.len(),
                n < i32::MAX,
                p0.wf(),
                arms_ok(p0),
                i == p0.index,
                b == p0.cur(),
                point == b.point,
                direction == b.direction,
                body_ok(b, w, h),
                w == self.width,
                h == self.height,
                self@ == (PositionModel { map: self.map@, ..p0 }),
                map0 == p0.map,
                self.map@.len() == map0.len(),
                same_walls(map0, self.map@),
                same_walls(map0, m1),
                m1.len() == map0.len(),
                all_in_grid(manip_cands(map0, w, h, b, b.manipulators.take(k as int)), w, h),
                self.map@ == wrap_fold(m1, w, h, manip_cands(map0, w, h, b, b.manipulators.take(k as int))).0,
                wrapped@ == w0 + first + wrap_fold(m1, w, h, manip_cands(map0, w, h, b, b.manipulators.take(k as int))).1,
                border == wrap_fold(m1, w, h, manip_cands(map0, w, h, b, b.manipulators.take(k as int))).2,
                0 <= border <= 4 * k,
        {
            let ghost ms = b.manipulators;
            let ghost prev = manip_cands(map0, w, h, b, ms.take(k as int));
            let arm = self.bodies[i].manipulators[k];
            assert(small(arm)) by {
                assert(ms[k as int] == arm);
            }
            let rp = arm.rotate(direction);
            let x = point.x + rp.x;
            let y = point.y + rp.y;
            proof {
                assert(ms.take(k + 1).drop_last() =~= ms.take(k as int));
                assert(ms.take(k + 1).last() == arm);
                lemma_manip_cands(map0, map0, w, h, b, ms.take(k + 1));
                lemma_wrap_fold(m1, w, h, prev);
                if in_grid(x as int, y as int, w, h) {
                    lemma_sight_same_walls(map0, self.map@, w, h, point.x as int, point.y as int, x as int, y as int);
                }
            }
            let ghost cur = manip_cands(map0, w, h, b, ms.take(k + 1));
            if 0 <= x && x < self.width && 0 <= y && y < self.height && self.is_reachable(x, y, self.width) {
                proof {
                    lemma_grid_index_ok(w, h, self.map@.len() as int, x as int, y as int);
                    assert(cur == prev.push((x as int, y as int)));
                    assert(cur.drop_last() =~= prev);
                    assert(cur.last() == (x as int, y as int));
                }
                if wrap_at(&mut self.map, x, y, self.width) {
                    let mut add: i64 = 0;
                    if self.is_wrapped(x - 1, y) {
                        add = add + 1;
                    }
                    if self.is_wrapped(x, y - 1) {
                        add = add + 1;
                    }
                    if self.is_wrapped(x + 1, y) {
                        add = add + 1;
                    }
                    if self.is_wrapped(x, y + 1) {
                        add = add + 1;
                    }
                    assert(add == border_at(self.map@, w, h, x as int, y as int));
                    border = border + add;
                    wrapped.push(Point { x: x, y: y });
                }
            } else {
                assert(cur == prev);
            }
            proof {
                lemma_wrap_fold(m1, w, h, cur);
                assert(wrapped@ =~= w0 + first + wrap_fold(m1, w, h, cur).1);
            }
        }
        proof {
            assert(b.manipulators.take(n as int) =~= b.manipulators);
            assert(wrapped@ =~= old(wrapped)@ + wrap_spec(p0).1);
        }
        border
    }

    /// The current worker picks up the booster on its cell, if any: its
    /// count goes up (the shared clone count for `C`) and the cell is cleared.
    pub fn get_boost_item(&mut self) -> (r: Option<BoostItem>)
        requires
            old(self)@.wf(),
            old(self)@.cur().rest_b < i32::MAX,
            old(self)@.cur().rest_f < i32::MAX,
            old(self)@.cur().rest_l < i32::MAX,
            old(self)@.cur().rest_r < i32::MAX,
            old(self).rest_c < i32::MAX,
        ensures
            (final(self)@, r) == take_boost(old(self)@),
    {
        let ghost p0 = self@;
        let point = self.get_body().point;
        proof {
            assert(body_ok(p0.bodies[self.index as int], self.width as int, self.height as int));
            lemma_grid_index_ok(self.width as int, self.height as int, self.map@.len() as int, point.x as int, point.y as int);
        }
        let state = get_at(&self.map, point.x, point.y, self.width).state;
        let result = match state {
            CellState::B => {
                let b = self.get_body_mut();
                b.rest_b = b.rest_b + 1;
                Some(BoostItem::B)
            },
            CellState::F => {
                let b = self.get_body_mut();
                b.rest_f = b.rest_f + 1;
                Some(BoostItem::F)
            },
            CellState::L => {
                let b = self.get_body_mut();
                b.rest_l = b.rest_l + 1;
                Some(BoostItem::L)
            },
            CellState::R => {
                let b = self.get_body_mut();
                b.rest_r = b.rest_r + 1;
                Some(BoostItem::R)
            },
            CellState::C => {
                self.rest_c = self.rest_c + 1;
                Some(BoostItem::C)
            },
            _ => None,
        };
        if result.is_some() {
            let cell = get_mut_at(&mut self.map, point.x, point.y, self.width);
            cell.state = CellState::Blank;
        }
        proof {
            let t = take_boost(p0);
            assert(self@.map =~= t.0.map);
            assert(self@.bodies =~= t.0.bodies);
        }
        result
    }

    /// Applies a move of the current worker. A walk that would leave the
    /// grid or enter a wall gives `None` and changes nothing. Under a speed
    /// boost a walk takes a second step where it can. Unless the move is only
    /// tried during a search, the turn passes to the next worker, and after
    /// the last one to the first, taking in clones made meanwhile.
    pub fn apply(&mut self, for_search: bool, mo: &Move) -> (r: Option<MoveResult>)
        requires
            old(self)@.wf(),
            arms_ok(old(self)@),
            old(self)@.can_apply(*mo),
            old(self)@.cur().manipulators.len() + 1 < i32::MAX,
        ensures
            match apply_spec(old(self)@, for_search, *mo) {
                None => r is None && final(self)@ == old(self)@,
                Some(res) => r is Some && final(self)@ == res.0 && r->0@ == res.1,
            },
    {
        let ghost p0 = self@;
        let mut wrapped: Vec<Point> = Vec::new();
        let prev_len = self.len;
        let prev_fast = self.get_body().fast;
        let prev_rest_b = self.get_body().rest_b;
        let prev_rest_f = self.get_body().rest_f;
        let prev_rest_l = self.get_body().rest_l;
        let prev_rest_r = self.get_body().rest_r;
        let prev_rest_c = self.rest_c;
        let first = self.apply_first(mo, &mut wrapped);
        let (boost_item, border_first) = match first {
            None => {
                return None;
            },
            Some(f) => f,
        };
        let ghost f = first_part(p0, *mo)->0;
        proof {
            lemma_first_part_wf(p0, *mo);
        }
        let ghost p1 = self@;
        let ghost w1 = wrapped@;
        let (boost_item2, border_second, move_fast) = self.apply_second(mo, &mut wrapped);
        let border_count = border_first + border_second;
        if !for_search {
            self.index = self.index + 1;
            if self.len == self.index {
                self.len = self.bodies.len() as i32;
                self.index = 0;
            }
        }
        let r = MoveResult {
            len: prev_len,
            border_count,
            wrapped,
            boost_item,
            boost_item2,
            move_fast,
            prev_fast,
            prev_rest_b,
            prev_rest_f,
            prev_rest_l,
            prev_rest_c,
            prev_rest_r,
        };
        proof {
            let res = (apply_spec(p0, for_search, *mo)->0).1;
            assert(r@ == res);
        }
        Some(r)
    }

    /// The first part of a move, as `first_part` states it.
    fn apply_first(&mut self, mo: &Move, wrapped: &mut Vec<Point>) -> (r: Option<(Option<BoostItem>, i64)>)
        requires
            old(self)@.wf(),
            arms_ok(old(self)@),
            old(self)@.can_apply(*mo),
            old(self)@.cur().manipulators.len() + 1 < i32::MAX,
            old(wrapped)@ == Seq::<Point>::empty(),
        ensures
            match first_part(old(self)@, *mo) {
                None => r is None && final(self)@ == old(self)@,
                Some(f) => r is Some && final(self)@ == f.0 && (r->0).0 == f.1 && final(wrapped)@ == f.2 && (r->0).1 == f.3,
            },
    {
        let ghost p0 = self@;
        let point = self.get_body().point;
        let x = point.x;
        let y = point.y;
        proof {
            assert(body_ok(p0.cur(), p0.width as int, p0.height as int));
        }
        match mo {
            Move::W => {
                if self.is_out(x, y - 1) {
                    return None;
                }
                Some(self.walk(0, -1, wrapped))
            },
            Move::A => {
                if self.is_out(x - 1, y) {
                    return None;
                }
                Some(self.walk(-1, 0, wrapped))
            },
            Move::S => {
                if self.is_out(x, y + 1) {
                    return None;
                }
                Some(self.walk(0, 1, wrapped))
            },
            Move::D => {
                if self.is_out(x + 1, y) {
                    return None;
                }
                Some(self.walk(1, 0, wrapped))
            },
            Move::Z => Some((None, 0)),
            Move::Clockwize => {
                {
                    let body = self.get_body_mut();
                    body.direction = body.direction + 1;
                    body.direction = body.direction % 4;
                }
                proof {
                    lemma_wf_with_cur(p0, self@.cur());
                    assert(arms_ok(self@)) by {
                        assert forall|i: int| 0 <= i < self@.bodies.len() implies (#[trigger] self@.bodies[i]).manipulators.len() < i32::MAX by {
                            assert(p0.bodies[i].manipulators.len() < i32::MAX);
                        }
                    }
                }
                self.wrap(wrapped);
                Some((None, 0))
            },
            Move::Anticlockwise => {
                {
                    let body = self.get_body_mut();
                    body.direction = body.direction + 3;
                    body.direction = body.direction % 4;
                }
                proof {
                    lemma_wf_with_cur(p0, self@.cur());
                    assert(arms_ok(self@)) by {
                        assert forall|i: int| 0 <= i < self@.bodies.len() implies (#[trigger] self@.bodies[i]).manipulators.len() < i32::MAX by {
                            assert(p0.bodies[i].manipulators.len() < i32::MAX);
                        }
                    }
                }
                self.wrap(wrapped);
                Some((None, 0))
            },
            Move::B(pt) => {
                let direction = self.get_body().direction;
                let rp = pt.rotate(direction);
                let arm = Point { x: rp.x, y: -rp.y };
                let body = self.get_body_mut();
                body.manipulators.push(arm);
                body.rest_b = body.rest_b - 1;
                Some((None, 0))
            },
            Move::F => {
                let body = self.get_body_mut();
                body.fast = 51;
                body.rest_f = body.rest_f - 1;
                Some((None, 0))
            },
            Move::C => {
                self.rest_c = self.rest_c - 1;
                let direction = self.get_body().direction;
                let mut arms: Vec<Point> = Vec::new();
                arms.push(Point { x: 1, y: -1 });
                arms.push(Point { x: 1, y: 0 });
                arms.push(Point { x: 1, y: 1 });
                assert(arms@ =~= start_arms());
                self.bodies.push(
                    Body {
                        point: point,
                        direction: direction,
                        manipulators: arms,
                        fast: 0,
                        rest_b: 0,
                        rest_f: 0,
                        rest_l: 0,
                        rest_r: 0,
                    },
                );
                proof {
                    assert(self@.bodies =~= (first_part(p0, *mo)->0).0.bodies);
                }
                Some((None, 0))
            },
            Move::L => Some((None, 0)),
        }
    }

    /// The second step of a walk under a speed boost, and the boost's count
    /// down.
    fn apply_second(&mut self, mo: &Move, wrapped: &mut Vec<Point>) -> (r: (Option<BoostItem>, i64, bool))
        requires
            old(self)@.wf(),
            arms_ok(old(self)@),
            old(self)@.cur().rest_b < i32::MAX,
            old(self)@.cur().rest_f < i32::MAX,
            old(self)@.cur().rest_l < i32::MAX,
            old(self)@.cur().rest_r < i32::MAX,
            old(self).rest_c < i32::MAX,
        ensures
            ({
                let p1 = old(self)@;
                let b1 = p1.cur();
                let s = step_of(*mo);
                let stepped = 0 < b1.fast && is_walk(*mo) && !p1.is_out(b1.point.x + s.0, b1.point.y + s.1);
                let p2 = if stepped { walk_step(p1, s).0 } else { p1 };
                let b2 = p2.cur();
                &&& r.2 == stepped
                &&& r.0 == (if stepped { walk_step(p1, s).1 } else { None })
                &&& final(wrapped)@ == old(wrapped)@ + (if stepped { walk_step(p1, s).2 } else { Seq::<Point>::empty() })
                &&& r.1 == (if stepped { walk_step(p1, s).3 } else { 0 })
                &&& final(self)@ == (if 0 < b1.fast { p2.with_cur(BodyModel { fast: (b2.fast - 1) as i32, ..b2 }) } else { p2 })
            }),
            0 <= r.1 <= 4 * i32::MAX,
    {
        let ghost p1 = self@;
        let mut boost_item2: Option<BoostItem> = None;
        let mut border: i64 = 0;
        let mut move_fast = false;
        proof {
            assert(body_ok(p1.cur(), p1.width as int, p1.height as int));
            assert(wrapped@ =~= old(wrapped)@ + Seq::<Point>::empty());
        }
        if 0 < self.get_body().fast {
            let x = self.get_body().point.x;
            let y = self.get_body().point.y;
            match mo {
                Move::W => {
                    if !self.is_out(x, y - 1) {
                        let (item, b) = self.walk(0, -1, wrapped);
                        boost_item2 = item;
                        border = b;
                        move_fast = true;
                    }
                },
                Move::A => {
                    if !self.is_out(x - 1, y) {
                        let (item, b) = self.walk(-1, 0, wrapped);
                        boost_item2 = item;
                        border = b;
                        move_fast = true;
                    }
                },
                Move::S => {
                    if !self.is_out(x, y + 1) {
                        let (item, b) = self.walk(0, 1, wrapped);
                        boost_item2 = item;
                        border = b;
                        move_fast = true;
                    }
                },
                Move::D => {
                    if !self.is_out(x + 1, y) {
                        let (item, b) = self.walk(1, 0, wrapped);
                        boost_item2 = item;
                        border = b;
                        move_fast = true;
                    }
                },
                _ => {},
            }
            let body = self.get_body_mut();
            body.fast = body.fast - 1;
        }
        (boost_item2, border, move_fast)
    }

    /// One walking step of the current worker by `(dx, dy)` onto an open
    /// cell: it moves, picks up the booster there and wraps.
    fn walk(&mut self, dx: i32, dy: i32, wrapped: &mut Vec<Point>) -> (r: (Option<BoostItem>, i64))
        requires
            old(self)@.wf(),
            arms_ok(old(self)@),
            -1 <= dx <= 1,
            -1 <= dy <= 1,
            !old(self)@.is_out(old(self)@.cur().point.x + dx, old(self)@.cur().point.y + dy),
            old(self)@.cur().rest_b < i32::MAX,
            old(self)@.cur().rest_f < i32::MAX,
            old(self)@.cur().rest_l < i32::MAX,
            old(self)@.cur().rest_r < i32::MAX,
            old(self).rest_c < i32::MAX,
        ensures
            final(self)@ == walk_step(old(self)@, (dx as int, dy as int)).0,
            r.0 == walk_step(old(self)@, (dx as int, dy as int)).1,
            final(wrapped)@ == old(wrapped)@ + walk_step(old(self)@, (dx as int, dy as int)).2,
            r.1 == walk_step(old(self)@, (dx as int, dy as int)).3,
            final(self)@.wf(),
            arms_ok(final(self)@),
            0 <= r.1 <= 4 * i32::MAX,
    {
        let ghost p0 = self@;
        proof {
            assert(body_ok(p0.cur(), p0.width as int, p0.height as int));
        }
        {
            let b = self.get_body_mut();
            b.point.x = b.point.x + dx;
            b.point.y = b.point.y + dy;
        }
        let ghost p1 = self@;
        proof {
            assert(p1 == moved(p0, dx as int, dy as int));
            lemma_wf_with_cur(p0, p1.cur());
        }
        let item = self.get_boost_item();
        let ghost p2 = self@;
        proof {
            lemma_take_boost_wf(p1);
            assert(arms_ok(p2)) by {
                assert forall|i: int| 0 <= i < p2.bodies.len() implies (#[trigger] p2.bodies[i]).manipulators.len() < i32::MAX by {
                    assert(p0.bodies[i].manipulators.len() < i32::MAX);
                }
            }
        }
        let border = self.wrap(wrapped);
        proof {
            lemma_wrap_spec(p2);
        }
        (item, border)
    }

    /// The moves the search tries for the current worker: the four walks,
    /// the two turns, and a speed boost when it holds one and is not already
    /// fast.
    pub fn get_available_moves(&self) -> (r: Vec<Move>)
        requires
            0 <= self.index < self.bodies@.len(),
        ensures
            r@ == seq![Move::W, Move::A, Move::S, Move::D, Move::Clockwize, Move::Anticlockwise] + (if 0 < self@.cur().rest_f
                && self@.cur().fast <= 0 {
                seq![Move::F]
            } else {
                Seq::<Move>::empty()
            }),
    {
        let body = self.get_body();
        let mut default_moves = vec![Move::W, Move::A, Move::S, Move::D, Move::Clockwize, Move::Anticlockwise];
        if 0 < body.rest_f && body.fast <= 0 {
            default_moves.push(Move::F);
        }
        proof {
            assert(default_moves@ =~= seq![Move::W, Move::A, Move::S, Move::D, Move::Clockwize, Move::Anticlockwise] + (if 0
                < self@.cur().rest_f && self@.cur().fast <= 0 {
                seq![Move::F]
            } else {
                Seq::<Move>::empty()
            }));
        }
        default_moves
    }

    /// Hands the current worker the boosters bought beforehand; clones go to
    /// the shared count.
    pub fn apply_boosts(&mut self, boosts: &Vec<BoostItem>)
        requires
            0 <= old(self).index < old(self).bodies@.len(),
            old(self)@.cur().rest_b + count_item(boosts@, BoostItem::B) <= i32::MAX,
            old(self)@.cur().rest_f + count_item(boosts@, BoostItem::F) <= i32::MAX,
            old(self)@.cur().rest_l + count_item(boosts@, BoostItem::L) <= i32::MAX,
            old(self)@.cur().rest_r + count_item(boosts@, BoostItem::R) <= i32::MAX,
            old(self).rest_c + count_item(boosts@, BoostItem::C) <= i32::MAX,
        ensures
            ({
                let b = old(self)@.cur();
                final(self)@ == (PositionModel {
                    rest_c: (old(self).rest_c + count_item(boosts@, BoostItem::C)) as i32,
                    ..old(self)@.with_cur(BodyModel {
                        rest_b: (b.rest_b + count_item(boosts@, BoostItem::B)) as i32,
                        rest_f: (b.rest_f + count_item(boosts@, BoostItem::F)) as i32,
                        rest_l: (b.rest_l + count_item(boosts@, BoostItem::L)) as i32,
                        rest_r: (b.rest_r + count_item(boosts@, BoostItem::R)) as i32,
                        ..b
                    })
                })
            }),
    {
        let ghost p0 = self@;
        let ghost b = p0.cur();
        let n = boosts.len();
        for k in 0..n
            invariant
                n == boosts@.len(),
                0 <= self.index < self.bodies@.len(),
                self.index == p0.index,
                b.rest_b + count_item(boosts@, BoostItem::B) <= i32::MAX,
                b.rest_f + count_item(boosts@, BoostItem::F) <= i32::MAX,
                b.rest_l + count_item(boosts@, BoostItem::L) <= i32::MAX,
                b.rest_r + count_item(boosts@, BoostItem::R) <= i32::MAX,
                p0.rest_c + count_item(boosts@, BoostItem::C) <= i32::MAX,
                self@.index == p0.index,
                self@.len == p0.len,
                self@.map == p0.map,
                self@.width == p0.width,
                self@.height == p0.height,
                self@.bodies.len() == p0.bodies.len(),
                forall|i: int| 0 <= i < p0.bodies.len() && i != p0.index ==> #[trigger] self@.bodies[i] == p0.bodies[i],
                self@.cur().point == b.point,
                self@.cur().direction == b.direction,
                self@.cur().manipulators == b.manipulators,
                self@.cur().fast == b.fast,
                self@.cur().rest_b == b.rest_b + count_item(boosts@.take(k as int), BoostItem::B),
                self@.cur().rest_f == b.rest_f + count_item(boosts@.take(k as int), BoostItem::F),
                self@.cur().rest_l == b.rest_l + count_item(boosts@.take(k as int), BoostItem::L),
                self@.cur().rest_r == b.rest_r + count_item(boosts@.take(k as int), BoostItem::R),
                self.rest_c == p0.rest_c + count_item(boosts@.take(k as int), BoostItem::C),
        {
            let ghost pre = boosts@.take(k as int);
            proof {
                assert(boosts@.take(k + 1).drop_last() =~= pre);
                assert(boosts@.take(k + 1).last() == boosts@[k as int]);
                lemma_count_item_prefix(boosts@, k + 1, BoostItem::B);
                lemma_count_item_prefix(boosts@, k + 1, BoostItem::F);
                lemma_count_item_prefix(boosts@, k + 1, BoostItem::L);
                lemma_count_item_prefix(boosts@, k + 1, BoostItem::R);
                lemma_count_item_prefix(boosts@, k + 1, BoostItem::C);
            }
            match boosts[k] {
                BoostItem::B => {
                    let body = self.get_body_mut();
                    body.rest_b = body.rest_b + 1;
                },
                BoostItem::F => {
                    let body = self.get_body_mut();
                    body.rest_f = body.rest_f + 1;
                },
                BoostItem::L => {
                    let body = self.get_body_mut();
                    body.rest_l = body.rest_l + 1;
                },
                BoostItem::R => {
                    let body = self.get_body_mut();
                    body.rest_r = body.rest_r + 1;
                },
                BoostItem::C => {
                    self.rest_c = self.rest_c + 1;
                },
            }
            assert(self@.bodies.len() == self.bodies@.len());
        }
        proof {
            assert(boosts@.take(n as int) =~= boosts@);
            assert(self@.cur() == (BodyModel {
                rest_b: (b.rest_b + count_item(boosts@, BoostItem::B)) as i32,
                rest_f: (b.rest_f + count_item(boosts@, BoostItem::F)) as i32,
                rest_l: (b.rest_l + count_item(boosts@, BoostItem::L)) as i32,
                rest_r: (b.rest_r + count_item(boosts@, BoostItem::R)) as i32,
                ..b
            }));
            assert(self@.bodies =~= p0.with_cur(BodyModel {
                rest_b: (b.rest_b + count_item(boosts@, BoostItem::B)) as i32,
                rest_f: (b.rest_f + count_item(boosts@, BoostItem::F)) as i32,
                rest_l: (b.rest_l + count_item(boosts@, BoostItem::L)) as i32,
                rest_r: (b.rest_r + count_item(boosts@, BoostItem::R)) as i32,
                ..b
            }).bodies);
        }
    }

    /// Puts `item`, if any, back on the current worker's cell.
    fn put_back_boost(&mut self, item: Option<BoostItem>)
        requires
            grid_ok(old(self).width as int, old(self).height as int, old(self).map@.len() as int),
            0 <= old(self).index < old(self).bodies@.len(),
            item is Some ==> in_grid(
                old(self)@.cur().point.x as int,
                old(self)@.cur().point.y as int,
                old(self).width as int,
                old(self).height as int,
            ),
        ensures
            final(self)@ == restore_boost(old(self)@, item),
            final(self).map@.len() == old(self).map@.len(),
    {
        if let Some(it) = item {
            let point = self.get_body().point;
            proof {
                lemma_grid_index_ok(self.width as int, self.height as int, self.map@.len() as int, point.x as int, point.y as int);
            }
            let state = match it {
                BoostItem::B => CellState::B,
                BoostItem::F => CellState::F,
                BoostItem::L => CellState::L,
                BoostItem::R => CellState::R,
                BoostItem::C => CellState::C,
            };
            let cell = get_mut_at(&mut self.map, point.x, point.y, self.width);
            cell.state = state;
        }
    }

    /// Steps the current worker back over a walking move; other moves leave
    /// it where it is.
    fn step_back(&mut self, mo: &Move)
        requires
            0 <= old(self).index < old(self).bodies@.len(),
            i32::MIN < old(self)@.cur().point.x < i32::MAX,
            i32::MIN < old(self)@.cur().point.y < i32::MAX,
        ensures
            final(self)@ == moved(old(self)@, -step_of(*mo).0, -step_of(*mo).1),
    {
        let ghost p0 = self@;
        match mo {
            Move::W => {
                let body = self.get_body_mut();
                body.point.y = body.point.y + 1;
            },
            Move::A => {
                let body = self.get_body_mut();
                body.point.x = body.point.x + 1;
            },
            Move::S => {
                let body = self.get_body_mut();
                body.point.y = body.point.y - 1;
            },
            Move::D => {
                let body = self.get_body_mut();
                body.point.x = body.point.x - 1;
            },
            _ => {
                proof {
                    let b = p0.cur();
                    assert(p0.bodies.update(p0.index as int, b) =~= p0.bodies);
                }
            },
        }
    }

    /// Takes back a move from what `apply` recorded of it: boosters go back
    /// on their cells, the worker steps back, turns back or drops the arm it
    /// grew, the cells wrapped are unwrapped and the counters return to their
    /// recorded values. A clone is not taken back.
    pub fn back(&mut self, mo: &Move, result: &MoveResult)
        requires
            old(self)@.wf(),
            !(*mo is C),
            !(*mo is L),
            points_in_grid(result.wrapped@, old(self).width as int, old(self).height as int),
            result.move_fast && result.boost_item is Some ==> in_grid(
                old(self)@.cur().point.x - step_of(*mo).0,
                old(self)@.cur().point.y - step_of(*mo).1,
                old(self).width as int,
                old(self).height as int,
            ),
        ensures
            final(self)@ == back_spec(old(self)@, *mo, result@),
    {
        let ghost p0 = self@;
        let ghost w = self.width as int;
        let ghost h = self.height as int;
        proof {
            assert(body_ok(p0.cur(), w, h));
        }
        self.len = result.len;
        let ghost p1 = self@;
        assert(p1 == (PositionModel { len: result.len, ..p0 }));
        if result.move_fast {
            self.put_back_boost(result.boost_item2);
        } else {
            self.put_back_boost(result.boost_item);
        }
        let ghost p2 = self@;
        assert(p2 == restore_boost(p1, if result.move_fast { result.boost_item2 } else { result.boost_item }));
        match mo {
            Move::Clockwize => {
                let body = self.get_body_mut();
                body.direction = (body.direction + 3) % 4;
            },
            Move::Anticlockwise => {
                let body = self.get_body_mut();
                body.direction = (body.direction + 1) % 4;
            },
            Move::B(_) => {
                let body = self.get_body_mut();
                let _ = body.manipulators.pop();
                proof {
                    if p2.cur().manipulators.len() == 0 {
                        assert(self@.cur() == p2.cur());
                        assert(self@.bodies =~= p2.bodies);
                    }
                }
            },
            _ => {
                self.step_back(mo);
            },
        }
        let ghost p3 = self@;
        proof {
            let b2 = p2.cur();
            let s = step_of(*mo);
            assert(p3 == match *mo {
                Move::Clockwize => p2.with_cur(BodyModel { direction: ((b2.direction + 3) % 4) as i32, ..b2 }),
                Move::Anticlockwise => p2.with_cur(BodyModel { direction: ((b2.direction + 1) % 4) as i32, ..b2 }),
                Move::B(_) => if b2.manipulators.len() > 0 {
                    p2.with_cur(BodyModel { manipulators: b2.manipulators.drop_last(), ..b2 })
                } else {
                    p2
                },
                _ => moved(p2, -s.0, -s.1),
            });
            assert(p3.bodies.len() == p0.bodies.len());
            assert(self.bodies@.len() == p3.bodies.len());
            assert(p3.map.len() == p0.map.len());
            assert(p3.index == p0.index);
        }
        if result.move_fast {
            self.put_back_boost(result.boost_item);
            self.step_back(mo);
        }
        let ghost p4 = self@;
        proof {
            assert(p4 == (if result.move_fast {
                moved(restore_boost(p3, result.boost_item), -step_of(*mo).0, -step_of(*mo).1)
            } else {
                p3
            }));
            assert(p4.bodies.len() == p0.bodies.len());
            assert(p4.map.len() == p0.map.len());
        }
        let n = result.wrapped.len();
        proof {
            assert(p4.map.len() == p0.map.len());
            assert(result.wrapped@.take(0) =~= Seq::<Point>::empty());
        }
        for k in 0..n
            invariant
                n == result.wrapped@.len(),
                grid_ok(w, h, p4.map.len() as int),
                w == p4.width,
                points_in_grid(result.wrapped@, w, h),
                self@ == (PositionModel { map: unwrap_fold(p4.map, w, result.wrapped@.take(k as int)), ..p4 }),
        {
            let ghost ws = result.wrapped@;
            let point = result.wrapped[k];
            proof {
                assert(in_grid(ws[k as int].x as int, ws[k as int].y as int, w, h));
                let pre = ws.take(k as int);
                assert(points_in_grid(pre, w, h)) by {
                    assert forall|i: int| 0 <= i < pre.len() implies in_grid(#[trigger] pre[i].x as int, pre[i].y as int, w, h) by {
                        assert(pre[i] == ws[i]);
                    }
                }
                lemma_unwrap_fold(p4.map, w, h, pre);
                lemma_grid_index_ok(w, h, self.map@.len() as int, point.x as int, point.y as int);
                assert(ws.take(k + 1).drop_last() =~= pre);
                assert(ws.take(k + 1).last() == point);
            }
            let cell = get_mut_at(&mut self.map, point.x, point.y, self.width);
            cell.is_wrapped = false;
        }
        proof {
            assert(result.wrapped@.take(n as int) =~= result.wrapped@);
        }
        {
            let body = self.get_body_mut();
            body.fast = result.prev_fast;
            body.rest_b = result.prev_rest_b;
            body.rest_f = result.prev_rest_f;
            body.rest_l = result.prev_rest_l;
            body.rest_r = result.prev_rest_r;
        }
        self.rest_c = result.prev_rest_c;
    }
}

/// Wrapping changes only the flags of the cells it lists, which were not
/// wrapped and lie in the grid.
pub(crate) proof fn lemma_wrap_spec(p: PositionModel)
    requires
        p.wf(),
    ensures
        wrap_spec(p).0 == (PositionModel { map: wrap_spec(p).0.map, ..p }),
        wrap_spec(p).0.wf(),
        same_walls(p.map, wrap_spec(p).0.map),
        points_in_grid(wrap_spec(p).1, p.width as int, p.height as int),
        forall|i: int| 0 <= i < p.map.len() ==> (#[trigger] wrap_spec(p).0.map[i]).state == p.map[i].state,
        forall|i: int| 0 <= i < p.map.len() ==> (#[trigger] wrap_spec(p).0.map[i]).is_wrapped == (p.map[i].is_wrapped
            || hits(wrap_spec(p).1, p.width as int, i)),
        forall|k: int| 0 <= k < wrap_spec(p).1.len() ==> !p.map[idx(
            #[trigger] wrap_spec(p).1[k].x as int,
            wrap_spec(p).1[k].y as int,
            p.width as int,
        )].is_wrapped,
        0 <= wrap_spec(p).2 <= 4 * p.cur().manipulators.len(),
{
    let b = p.cur();
    let w = p.width as int;
    let h = p.height as int;
    assert(body_ok(b, w, h));
    lemma_grid_index_ok(w, h, p.map.len() as int, b.point.x as int, b.point.y as int);
    let j = idx(b.point.x as int, b.point.y as int, w);
    let first = if !p.map[j].is_wrapped {
        (p.map.update(j, Cell { is_wrapped: true, ..p.map[j] }), seq![b.point])
    } else {
        (p.map, Seq::<Point>::empty())
    };
    let cs = manip_cands(p.map, w, h, b, b.manipulators);
    lemma_manip_cands(p.map, p.map, w, h, b, b.manipulators);
    lemma_wrap_fold(first.0, w, h, cs);
    let f = wrap_fold(first.0, w, h, cs);
    let ws = first.1 + f.1;
    assert(ws == wrap_spec(p).1);
    assert forall|k: int| 0 <= k < ws.len() implies in_grid(#[trigger] ws[k].x as int, ws[k].y as int, w, h) by {
        if k >= first.1.len() {
            assert(ws[k] == f.1[k - first.1.len()]);
        }
    }
    assert forall|i: int| 0 <= i < p.map.len() implies (#[trigger] f.0[i]).is_wrapped == (p.map[i].is_wrapped || hits(ws, w, i)) by {
        assert(first.0[i].is_wrapped == (p.map[i].is_wrapped || hits(first.1, w, i))) by {
            if first.1.len() > 0 {
                if i == j {
                    assert(first.1[0] == b.point);
                } else {
                    assert(first.0[i] == p.map[i]);
                    if hits(first.1, w, i) {
                        let k = choose|k: int| 0 <= k < first.1.len() && idx(first.1[k].x as int, first.1[k].y as int, w) == i;
                        assert(first.1[k] == b.point);
                    }
                }
            }
        }
        if hits(f.1, w, i) {
            let k = choose|k: int| 0 <= k < f.1.len() && idx(f.1[k].x as int, f.1[k].y as int, w) == i;
            assert(ws[first.1.len() + k] == f.1[k]);
        }
        if hits(first.1, w, i) {
            assert(ws[0] == first.1[0]);
        }
        if hits(ws, w, i) {
            let k = choose|k: int| 0 <= k < ws.len() && idx(ws[k].x as int, ws[k].y as int, w) == i;
            if k >= first.1.len() {
                assert(f.1[k - first.1.len()] == ws[k]);
            } else {
                assert(first.1[k] == ws[k]);
            }
        }
    }
    assert forall|k: int| 0 <= k < ws.len() implies !p.map[idx(#[trigger] ws[k].x as int, ws[k].y as int, w)].is_wrapped by {
        if k >= first.1.len() {
            let k2 = k - first.1.len();
            assert(ws[k] == f.1[k2]);
            let i = idx(f.1[k2].x as int, f.1[k2].y as int, w);
            assert(in_grid(f.1[k2].x as int, f.1[k2].y as int, w, h));
            lemma_grid_index_ok(w, h, p.map.len() as int, f.1[k2].x as int, f.1[k2].y as int);
            assert(!first.0[i].is_wrapped);
            if first.1.len() > 0 && i == j {
                assert(first.0[j].is_wrapped);
            }
            if i != j {
                assert(first.0[i] == p.map[i]);
            }
        } else {
            assert(ws[k] == b.point);
        }
    }
}

/// Picking up a booster keeps the position well formed and the workers'
/// cells, headings and arms.
proof fn lemma_take_boost_wf(p: PositionModel)
    requires
        p.wf(),
    ensures
        take_boost(p).0.wf(),
        take_boost(p).0.bodies.len() == p.bodies.len(),
        forall|i: int| 0 <= i < p.bodies.len() ==> (#[trigger] take_boost(p).0.bodies[i]).point == p.bodies[i].point
            && take_boost(p).0.bodies[i].direction == p.bodies[i].direction && take_boost(p).0.bodies[i].manipulators
            == p.bodies[i].manipulators,
{
    let b = p.cur();
    assert(body_ok(b, p.width as int, p.height as int));
    lemma_grid_index_ok(p.width as int, p.height as int, p.map.len() as int, b.point.x as int, b.point.y as int);
    let t = take_boost(p).0;
    assert(t.map.len() == p.map.len());
    assert forall|i: int| 0 <= i < t.bodies.len() implies body_ok(#[trigger] t.bodies[i], t.width as int, t.height as int) by {
        assert(body_ok(p.bodies[i], p.width as int, p.height as int));
    }
}

/// The first part of a move keeps the position well formed and leaves room
/// for a second step.
proof fn lemma_first_part_wf(p: PositionModel, mo: Move)
    requires
        p.wf(),
        arms_ok(p),
        p.can_apply(mo),
        p.cur().manipulators.len() + 1 < i32::MAX,
        first_part(p, mo) is Some,
    ensures
        (first_part(p, mo)->0).0.wf(),
        arms_ok((first_part(p, mo)->0).0),
        (first_part(p, mo)->0).0.index == p.index,
        (first_part(p, mo)->0).0.len == p.len,
        (first_part(p, mo)->0).0.cur().rest_b < i32::MAX,
        (first_part(p, mo)->0).0.cur().rest_f < i32::MAX,
        (first_part(p, mo)->0).0.cur().rest_l < i32::MAX,
        (first_part(p, mo)->0).0.cur().rest_r < i32::MAX,
        (first_part(p, mo)->0).0.rest_c < i32::MAX,
        0 <= (first_part(p, mo)->0).3 <= 4 * i32::MAX,
{
    let b = p.cur();
    let w = p.width as int;
    let h = p.height as int;
    assert(body_ok(b, w, h));
    let f = first_part(p, mo)->0;
    match mo {
        Move::Clockwize | Move::Anticlockwise => {
            let d = if mo is Clockwize { ((b.direction + 1) % 4) as i32 } else { ((b.direction + 3) % 4) as i32 };
            let q = p.with_cur(BodyModel { direction: d, ..b });
            lemma_wf_with_cur(p, q.cur());
            lemma_wrap_spec(q);
            assert forall|i: int| 0 <= i < f.0.bodies.len() implies (#[trigger] f.0.bodies[i]).manipulators.len() < i32::MAX by {
                assert(p.bodies[i].manipulators.len() < i32::MAX);
            }
        },
        Move::B(pt) => {
            let r = rotate_spec(pt, b.direction as int);
            let arm = Point { x: r.0 as i32, y: (-r.1) as i32 };
            let nb = BodyModel { manipulators: b.manipulators.push(arm), rest_b: (b.rest_b - 1) as i32, ..b };
            assert(body_ok(nb, w, h)) by {
                assert forall|i: int| 0 <= i < nb.manipulators.len() implies small(#[trigger] nb.manipulators[i]) by {
                    if i < b.manipulators.len() {
                        assert(nb.manipulators[i] == b.manipulators[i]);
                    }
                }
            }
            lemma_wf_with_cur(p, nb);
            assert forall|i: int| 0 <= i < f.0.bodies.len() implies (#[trigger] f.0.bodies[i]).manipulators.len() < i32::MAX by {
                assert(p.bodies[i].manipulators.len() < i32::MAX);
            }
        },
        Move::F => {
            let nb = BodyModel { fast: 51, rest_f: (b.rest_f - 1) as i32, ..b };
            lemma_wf_with_cur(p, nb);
            assert forall|i: int| 0 <= i < f.0.bodies.len() implies (#[trigger] f.0.bodies[i]).manipulators.len() < i32::MAX by {
                assert(p.bodies[i].manipulators.len() < i32::MAX);
            }
        },
        Move::C => {
            let nb = BodyModel {
                point: b.point,
                direction: b.direction,
                manipulators: start_arms(),
                fast: 0,
                rest_b: 0,
                rest_f: 0,
                rest_l: 0,
                rest_r: 0,
            };
            assert(body_ok(nb, w, h));
            assert forall|i: int| 0 <= i < f.0.bodies.len() implies body_ok(#[trigger] f.0.bodies[i], w, h) by {
                if i < p.bodies.len() {
                    assert(f.0.bodies[i] == p.bodies[i]);
                }
            }
            assert forall|i: int| 0 <= i < f.0.bodies.len() implies (#[trigger] f.0.bodies[i]).manipulators.len() < i32::MAX by {
                if i < p.bodies.len() {
                    assert(f.0.bodies[i] == p.bodies[i]);
                }
            }
            assert(f.0.cur() == b);
        },
        Move::Z => {},
        Move::L => {},
        _ => {
            let s = step_of(mo);
            let q = moved(p, s.0, s.1);
            lemma_wf_with_cur(p, q.cur());
            lemma_take_boost_wf(q);
            let t = take_boost(q).0;
            assert(arms_ok(t)) by {
                assert forall|i: int| 0 <= i < t.bodies.len() implies (#[trigger] t.bodies[i]).manipulators.len() < i32::MAX by {
                    assert(p.bodies[i].manipulators.len() < i32::MAX);
                }
            }
            lemma_wrap_spec(t);
            assert(t.cur().manipulators.len() < i32::MAX);
        },
    }
}

/// Replacing the current worker by one in the grid with a heading and arms
/// in reach keeps the position well formed.
proof fn lemma_wf_with_cur(p: PositionModel, b: BodyModel)
    requires
        p.wf(),
        body_ok(b, p.width as int, p.height as int),
    ensures
        p.with_cur(b).wf(),
{
    let q = p.with_cur(b);
    assert forall|i: int| 0 <= i < q.bodies.len() implies body_ok(#[trigger] q.bodies[i], q.width as int, q.height as int) by {
        if i != p.index {
            assert(q.bodies[i] == p.bodies[i]);
        }
    }
}


/// The state a cell gets back when the booster `item`, if any, is returned
/// to it.
pub open spec fn restored(st: CellState, item: Option<BoostItem>) -> CellState {
    match item {
        Some(it) => boost_state(it),
        None => st,
    }
}

/// Returns the booster `item`, if any, to cell `j`.
pub open spec fn restore_at(m: Seq<Cell>, j: int, item: Option<BoostItem>) -> Seq<Cell> {
    match item {
        Some(it) => m.update(j, Cell { state: boost_state(it), ..m[j] }),
        None => m,
    }
}

/// `m1` is `m0` with the cells `ws` newly wrapped and, at cell `j` only, a
/// booster `item` taken.
pub open spec fn map_step(m0: Seq<Cell>, m1: Seq<Cell>, width: int, height: int, ws: Seq<Point>, j: int, item: Option<BoostItem>) -> bool {
    &&& m1.len() == m0.len()
    &&& grid_ok(width, height, m0.len() as int)
    &&& 0 <= j < m0.len()
    &&& points_in_grid(ws, width, height)
    &&& forall|i: int| 0 <= i < m0.len() ==> (#[trigger] m1[i]).is_wrapped == (m0[i].is_wrapped || hits(ws, width, i))
    &&& forall|i: int| 0 <= i < m0.len() && hits(ws, width, i) ==> !(#[trigger] m0[i]).is_wrapped
    &&& forall|i: int| 0 <= i < m0.len() && i != j ==> (#[trigger] m1[i]).state == m0[i].state
    &&& restored(m1[j].state, item) == m0[j].state
}

pub(crate) proof fn lemma_hits_concat(a: Seq<Point>, b: Seq<Point>, width: int, i: int)
    ensures
        hits(a + b, width, i) == (hits(a, width, i) || hits(b, width, i)),
{
    let ab = a + b;
    if hits(ab, width, i) {
        let k = choose|k: int| 0 <= k < ab.len() && idx(ab[k].x as int, ab[k].y as int, width) == i;
        if k < a.len() {
            assert(ab[k] == a[k]);
        } else {
            assert(ab[k] == b[k - a.len()]);
        }
    }
    if hits(a, width, i) {
        let k = choose|k: int| 0 <= k < a.len() && idx(a[k].x as int, a[k].y as int, width) == i;
        assert(ab[k] == a[k]);
    }
    if hits(b, width, i) {
        let k = choose|k: int| 0 <= k < b.len() && idx(b[k].x as int, b[k].y as int, width) == i;
        assert(ab[k + a.len()] == b[k]);
    }
}

/// Two steps, each wrapping cells and taking at most one booster, are taken
/// back by returning the boosters, the later first, and unwrapping all the
/// cells wrapped.
pub(crate) proof fn lemma_map_back(
    m0: Seq<Cell>,
    m1: Seq<Cell>,
    m2: Seq<Cell>,
    width: int,
    height: int,
    ws1: Seq<Point>,
    ws2: Seq<Point>,
    j1: int,
    j2: int,
    item1: Option<BoostItem>,
    item2: Option<BoostItem>,
)
    requires
        map_step(m0, m1, width, height, ws1, j1, item1),
        map_step(m1, m2, width, height, ws2, j2, item2),
        j1 != j2 || item2 is None,
    ensures
        unwrap_fold(restore_at(restore_at(m2, j2, item2), j1, item1), width, ws1 + ws2) == m0,
{
    let ws = ws1 + ws2;
    let r = restore_at(restore_at(m2, j2, item2), j1, item1);
    assert(points_in_grid(ws, width, height)) by {
        assert forall|k: int| 0 <= k < ws.len() implies in_grid(#[trigger] ws[k].x as int, ws[k].y as int, width, height) by {
            if k < ws1.len() {
                assert(ws[k] == ws1[k]);
            } else {
                assert(ws[k] == ws2[k - ws1.len()]);
            }
        }
    }
    assert(r.len() == m0.len());
    lemma_unwrap_fold(r, width, height, ws);
    let u = unwrap_fold(r, width, ws);
    assert forall|i: int| 0 <= i < m0.len() implies #[trigger] u[i] == m0[i] by {
        lemma_hits_concat(ws1, ws2, width, i);
        assert(m1[i].is_wrapped == (m0[i].is_wrapped || hits(ws1, width, i)));
        assert(m2[i].is_wrapped == (m1[i].is_wrapped || hits(ws2, width, i)));
        assert(r[i].is_wrapped == m2[i].is_wrapped);
        if i != j1 && i != j2 {
            assert(m1[i].state == m0[i].state);
            assert(m2[i].state == m1[i].state);
        }
        assert(u[i].state == m0[i].state);
        assert(u[i].is_wrapped == m0[i].is_wrapped);
    }
    assert(u =~= m0);
}


/// `q` differs from `p` at most in the current worker, the map and the
/// shared clone count.
pub open spec fn only_cur_changed(p: PositionModel, q: PositionModel) -> bool {
    &&& q.index == p.index
    &&& q.len == p.len
    &&& q.width == p.width
    &&& q.height == p.height
    &&& q.bodies.len() == p.bodies.len()
    &&& forall|i: int| 0 <= i < p.bodies.len() && i != p.index ==> #[trigger] q.bodies[i] == p.bodies[i]
}

pub(crate) proof fn lemma_map_step_same(m: Seq<Cell>, width: int, height: int, j: int)
    requires
        grid_ok(width, height, m.len() as int),
        0 <= j < m.len(),
    ensures
        map_step(m, m, width, height, Seq::<Point>::empty(), j, None),
{
}

pub(crate) proof fn lemma_map_step_compose(
    m0: Seq<Cell>,
    m1: Seq<Cell>,
    m2: Seq<Cell>,
    width: int,
    height: int,
    ws1: Seq<Point>,
    ws2: Seq<Point>,
    j: int,
    item: Option<BoostItem>,
)
    requires
        map_step(m0, m1, width, height, ws1, j, item),
        map_step(m1, m2, width, height, ws2, j, None),
    ensures
        map_step(m0, m2, width, height, ws1 + ws2, j, item),
{
    let ws = ws1 + ws2;
    assert forall|k: int| 0 <= k < ws.len() implies in_grid(#[trigger] ws[k].x as int, ws[k].y as int, width, height) by {
        if k < ws1.len() {
            assert(ws[k] == ws1[k]);
        } else {
            assert(ws[k] == ws2[k - ws1.len()]);
        }
    }
    assert forall|i: int| 0 <= i < m0.len() implies (#[trigger] m2[i]).is_wrapped == (m0[i].is_wrapped || hits(ws, width, i)) by {
        lemma_hits_concat(ws1, ws2, width, i);
        assert(m1[i].is_wrapped == (m0[i].is_wrapped || hits(ws1, width, i)));
    }
    assert forall|i: int| 0 <= i < m0.len() && hits(ws, width, i) implies !(#[trigger] m0[i]).is_wrapped by {
        lemma_hits_concat(ws1, ws2, width, i);
        assert(m1[i].is_wrapped == (m0[i].is_wrapped || hits(ws1, width, i)));
    }
    assert forall|i: int| 0 <= i < m0.len() && i != j implies (#[trigger] m2[i]).state == m0[i].state by {
        assert(m1[i].state == m0[i].state);
    }
}

/// Taking a booster changes the map at the worker's cell only, and in its
/// state only.
proof fn lemma_take_boost_map(p: PositionModel)
    requires
        p.wf(),
    ensures
        map_step(
            p.map,
            take_boost(p).0.map,
            p.width as int,
            p.height as int,
            Seq::<Point>::empty(),
            idx(p.cur().point.x as int, p.cur().point.y as int, p.width as int),
            take_boost(p).1,
        ),
        only_cur_changed(p, take_boost(p).0),
        take_boost(p).0.cur().point == p.cur().point,
        take_boost(p).0.cur().direction == p.cur().direction,
        take_boost(p).0.cur().manipulators == p.cur().manipulators,
        take_boost(p).0.cur().fast == p.cur().fast,
{
    let b = p.cur();
    assert(body_ok(b, p.width as int, p.height as int));
    lemma_grid_index_ok(p.width as int, p.height as int, p.map.len() as int, b.point.x as int, b.point.y as int);
}

/// Wrapping is a map step with no booster taken.
pub(crate) proof fn lemma_wrap_map(p: PositionModel)
    requires
        p.wf(),
    ensures
        map_step(
            p.map,
            wrap_spec(p).0.map,
            p.width as int,
            p.height as int,
            wrap_spec(p).1,
            idx(p.cur().point.x as int, p.cur().point.y as int, p.width as int),
            None,
        ),
        wrap_spec(p).0 == (PositionModel { map: wrap_spec(p).0.map, ..p }),
        wrap_spec(p).0.wf(),
{
    let b = p.cur();
    let w = p.width as int;
    assert(body_ok(b, w, p.height as int));
    lemma_grid_index_ok(w, p.height as int, p.map.len() as int, b.point.x as int, b.point.y as int);
    lemma_wrap_spec(p);
    let ws = wrap_spec(p).1;
    assert forall|i: int| 0 <= i < p.map.len() && hits(ws, w, i) implies !(#[trigger] p.map[i]).is_wrapped by {
        let k = choose|k: int| 0 <= k < ws.len() && idx(ws[k].x as int, ws[k].y as int, w) == i;
        assert(!p.map[idx(ws[k].x as int, ws[k].y as int, w)].is_wrapped);
    }
}

/// A walking step moves the worker, takes at most the booster of its new
/// cell and wraps.
proof fn lemma_walk_step_facts(p: PositionModel, s: (int, int))
    requires
        p.wf(),
        -1 <= s.0 <= 1,
        -1 <= s.1 <= 1,
        !p.is_out(p.cur().point.x + s.0, p.cur().point.y + s.1),
    ensures
        map_step(
            p.map,
            walk_step(p, s).0.map,
            p.width as int,
            p.height as int,
            walk_step(p, s).2,
            idx(p.cur().point.x + s.0, p.cur().point.y + s.1, p.width as int),
            walk_step(p, s).1,
        ),
        only_cur_changed(p, walk_step(p, s).0),
        walk_step(p, s).0.wf(),
        walk_step(p, s).0.cur().point.x == p.cur().point.x + s.0,
        walk_step(p, s).0.cur().point.y == p.cur().point.y + s.1,
        walk_step(p, s).0.cur().direction == p.cur().direction,
        walk_step(p, s).0.cur().manipulators == p.cur().manipulators,
        walk_step(p, s).0.cur().fast == p.cur().fast,
{
    let b = p.cur();
    assert(body_ok(b, p.width as int, p.height as int));
    let q = moved(p, s.0, s.1);
    lemma_wf_with_cur(p, q.cur());
    lemma_take_boost_wf(q);
    lemma_take_boost_map(q);
    let t = take_boost(q).0;
    lemma_wrap_map(t);
    lemma_map_step_compose(
        q.map,
        t.map,
        wrap_spec(t).0.map,
        p.width as int,
        p.height as int,
        Seq::<Point>::empty(),
        wrap_spec(t).1,
        idx(p.cur().point.x + s.0, p.cur().point.y + s.1, p.width as int),
        take_boost(q).1,
    );
    assert(Seq::<Point>::empty() + wrap_spec(t).1 =~= wrap_spec(t).1);
}


/// Taking back a move tried during a search gives the position it was tried
/// on, for every move but a clone; the record of the move meets what `back`
/// asks of it.
#[verifier::spinoff_prover]
#[verifier::rlimit(60)]
pub proof fn lemma_back_undoes_apply(p: PositionModel, mo: Move)
    requires
        p.wf(),
        arms_ok(p),
        p.can_apply(mo),
        p.cur().manipulators.len() + 1 < i32::MAX,
        !(mo is C),
        apply_spec(p, true, mo) is Some,
    ensures
        ({
            let q = (apply_spec(p, true, mo)->0).0;
            let r = (apply_spec(p, true, mo)->0).1;
            &&& q.wf()
            &&& points_in_grid(r.wrapped, q.width as int, q.height as int)
            &&& (r.move_fast && r.boost_item is Some ==> in_grid(
                q.cur().point.x - step_of(mo).0,
                q.cur().point.y - step_of(mo).1,
                q.width as int,
                q.height as int,
            ))
            &&& back_spec(q, mo, r) == p
        }),
{
    let b = p.cur();
    let w = p.width as int;
    let h = p.height as int;
    assert(body_ok(b, w, h));
    let s = step_of(mo);
    lemma_first_part_wf(p, mo);
    let f = first_part(p, mo)->0;
    let p1 = f.0;
    let b1 = p1.cur();
    lemma_grid_index_ok(w, h, p.map.len() as int, b.point.x as int, b.point.y as int);
    let j1 = idx(b1.point.x as int, b1.point.y as int, w);
    if is_walk(mo) {
        lemma_walk_step_facts(p, s);
    } else if mo is Clockwize || mo is Anticlockwise {
        let d = if mo is Clockwize { ((b.direction + 1) % 4) as i32 } else { ((b.direction + 3) % 4) as i32 };
        let pr = p.with_cur(BodyModel { direction: d, ..b });
        lemma_wf_with_cur(p, pr.cur());
        lemma_wrap_map(pr);
    } else {
        lemma_map_step_same(p.map, w, h, j1);
    }
    assert(map_step(p.map, p1.map, w, h, f.2, j1, f.1));
    assert(only_cur_changed(p, p1));
    assert(body_ok(b1, w, h));
    let stepped = 0 < b1.fast && is_walk(mo) && !p1.is_out(b1.point.x + s.0, b1.point.y + s.1);
    let p2 = if stepped { walk_step(p1, s).0 } else { p1 };
    if stepped {
        lemma_walk_step_facts(p1, s);
        let t = walk_step(p1, s);
        let j2 = idx(b1.point.x + s.0, b1.point.y + s.1, w);
        if j1 == j2 {
            lemma_index_injective(b1.point.x as int, b1.point.y as int, b1.point.x + s.0, b1.point.y + s.1, w);
        }
        lemma_map_back(p.map, p1.map, t.0.map, w, h, f.2, t.2, j1, j2, f.1, t.1);
    } else {
        lemma_map_step_same(p1.map, w, h, j1);
        lemma_map_back(p.map, p1.map, p1.map, w, h, f.2, Seq::<Point>::empty(), j1, j1, f.1, None);
        assert(f.2 + Seq::<Point>::empty() =~= f.2);
    }
    let q = (apply_spec(p, true, mo)->0).0;
    let r = (apply_spec(p, true, mo)->0).1;
    let bk = back_spec(q, mo, r);
    assert(bk.map =~= p.map);
    assert(bk.cur().point == b.point);
    assert(bk.cur().direction == b.direction);
    assert(bk.cur().manipulators =~= b.manipulators);
    assert(bk.cur().fast == b.fast);
    assert(bk.cur() == b);
    assert(bk.bodies =~= p.bodies);
}


/// Every move the worker may take, tried or made, leaves the position well
/// formed, with room for the arms of each worker: the turn stays with the
/// worker when the move is only tried, passes to the next worker when it is
/// made, and after the last of the round to the first, with every worker,
/// those that cloning added too, in the next round.
pub proof fn lemma_apply_keeps_wf(p: PositionModel, for_search: bool, mo: Move)
    requires
        p.wf(),
        arms_ok(p),
        p.can_apply(mo),
        p.cur().manipulators.len() + 1 < i32::MAX,
        apply_spec(p, for_search, mo) is Some,
    ensures
        (apply_spec(p, for_search, mo)->0).0.wf(),
        arms_ok((apply_spec(p, for_search, mo)->0).0),
        ({
            let q = (apply_spec(p, for_search, mo)->0).0;
            &&& (apply_spec(p, for_search, mo)->0).1.len == p.len
            &&& for_search ==> q.index == p.index && q.len == p.len
            &&& !for_search && p.index + 1 == p.len ==> q.index == 0 && q.len == q.bodies.len()
            &&& !for_search && p.index + 1 < p.len ==> q.index == p.index + 1 && q.len == p.len
        }),
{
    lemma_first_part_wf(p, mo);
    let f = first_part(p, mo)->0;
    let p1 = f.0;
    let b1 = p1.cur();
    let s = step_of(mo);
    assert(body_ok(b1, p1.width as int, p1.height as int));
    let stepped = 0 < b1.fast && is_walk(mo) && !p1.is_out(b1.point.x + s.0, b1.point.y + s.1);
    let p2 = if stepped { walk_step(p1, s).0 } else { p1 };
    if stepped {
        lemma_walk_step_facts(p1, s);
        assert(only_cur_changed(p1, p2));
        assert forall|i: int| 0 <= i < p2.bodies.len() implies (#[trigger] p2.bodies[i]).manipulators.len() < i32::MAX by {
            assert(p1.bodies[i].manipulators.len() < i32::MAX);
            if i != p1.index {
                assert(p2.bodies[i] == p1.bodies[i]);
            }
        }
    }
    let b2 = p2.cur();
    assert(body_ok(b2, p2.width as int, p2.height as int));
    let p3 = if 0 < b1.fast { p2.with_cur(BodyModel { fast: (b2.fast - 1) as i32, ..b2 }) } else { p2 };
    if 0 < b1.fast {
        lemma_wf_with_cur(p2, p3.cur());
        assert forall|i: int| 0 <= i < p3.bodies.len() implies (#[trigger] p3.bodies[i]).manipulators.len() < i32::MAX by {
            assert(p2.bodies[i].manipulators.len() < i32::MAX);
        }
    }
    let q = (apply_spec(p, for_search, mo)->0).0;
    assert(q.bodies == p3.bodies);
    assert forall|i: int| 0 <= i < q.bodies.len() implies body_ok(#[trigger] q.bodies[i], q.width as int, q.height as int) by {
        assert(body_ok(p3.bodies[i], p3.width as int, p3.height as int));
    }
}

/// How many times `it` occurs in `s`.
pub open spec fn count_item(s: Seq<BoostItem>, it: BoostItem) -> nat
    decreases s.len(),
{
    if s.len() == 0 {
        0
    } else {
        count_item(s.drop_last(), it) + if s.last() == it {
            1nat
        } else {
            0nat
        }
    }
}

/// A prefix holds no more of an item than the whole.
proof fn lemma_count_item_prefix(s: Seq<BoostItem>, k: int, it: BoostItem)
    requires
        0 <= k <= s.len(),
    ensures
        count_item(s.take(k), it) <= count_item(s, it),
    decreases s.len() - k,
{
    if k < s.len() {
        lemma_count_item_prefix(s, k + 1, it);
        assert(s.take(k + 1).drop_last() =~= s.take(k));
    } else {
        assert(s.take(k) =~= s);
    }
}


/// The cells of a map that are not walls.
pub open spec fn open_cells(map: Seq<Cell>) -> Seq<bool> {
    map.map_values(|c: Cell| c.state != CellState::Wall)
}

/// The cells of a map that are not wrapped yet.
pub open spec fn unwrapped_cells(map: Seq<Cell>) -> Seq<bool> {
    map.map_values(|c: Cell| !c.is_wrapped)
}

/// The direction code of a walking move: 0 up, 1 left, 2 down, 3 right.
pub open spec fn move_code(mo: Move) -> u8 {
    match mo {
        Move::W => 0,
        Move::A => 1,
        Move::S => 2,
        _ => 3,
    }
}

/// Where the walks `moves` lead worker `b`, with its boost counting down a
/// step at a time; `None` where one would leave the grid or enter a wall.
pub open spec fn route_end(p: PositionModel, b: BodyModel, moves: Seq<Move>) -> Option<(int, int)> {
    walk_to(
        open_cells(p.map),
        p.width as int,
        p.height as int,
        b.point.x as int,
        b.point.y as int,
        b.fast as int,
        moves.map_values(|m: Move| move_code(m)),
    )
}

/// Some route of walks leads worker `b` to a cell that `goal` marks.
pub open spec fn goal_reachable(p: PositionModel, b: BodyModel, goal: Seq<bool>) -> bool {
    exists|path: Seq<u8>|
        #![trigger walk_to(open_cells(p.map), p.width as int, p.height as int, b.point.x as int, b.point.y as int, b.fast as int, path)]
        walk_to(open_cells(p.map), p.width as int, p.height as int, b.point.x as int, b.point.y as int, b.fast as int, path) is Some
            && goal[idx(
            (walk_to(open_cells(p.map), p.width as int, p.height as int, b.point.x as int, b.point.y as int, b.fast as int, path)->0).0,
            (walk_to(open_cells(p.map), p.width as int, p.height as int, b.point.x as int, b.point.y as int, b.fast as int, path)->0).1,
            p.width as int,
        )]
}

/// Every move of `moves` is a walk.
pub open spec fn all_walks(moves: Seq<Move>) -> bool {
    forall|i: int| 0 <= i < moves.len() ==> is_walk(#[trigger] moves[i])
}

/// A route the current worker may head for: its moves and the cell it ends
/// on.
pub struct Candidate {
    pub moves: std::collections::VecDeque<Move>,
    pub x: i32,
    pub y: i32,
}

/// The walking move of a direction code.
fn code_move(d: u8) -> (r: Move)
    requires
        d < 4,
    ensures
        move_code(r) == d,
        is_walk(r),
{
    if d == 0 {
        Move::W
    } else if d == 1 {
        Move::A
    } else if d == 2 {
        Move::S
    } else {
        Move::D
    }
}

/// The moves of a route of direction codes.
pub(crate) fn moves_of(path: &Vec<u8>) -> (r: std::collections::VecDeque<Move>)
    requires
        forall|i: int| 0 <= i < path@.len() ==> #[trigger] path@[i] < 4,
    ensures
        r@.map_values(|m: Move| move_code(m)) == path@,
        all_walks(r@),
{
    let mut r: std::collections::VecDeque<Move> = std::collections::VecDeque::new();
    let n = path.len();
    for i in 0..n
        invariant
            n == path@.len(),
            forall|i: int| 0 <= i < path@.len() ==> #[trigger] path@[i] < 4,
            r@.len() == i,
            forall|k: int| 0 <= k < i ==> move_code(#[trigger] r@[k]) == path@[k],
            forall|k: int| 0 <= k < i ==> is_walk(#[trigger] r@[k]),
    {
        r.push_back(code_move(path[i]));
    }
    assert(r@.map_values(|m: Move| move_code(m)) =~= path@);
    r
}

/// The masks of the open cells and of those whose state is `state`, or,
/// with `state` absent, of the unwrapped ones.
pub(crate) fn masks(map: &Vec<Cell>, state: Option<CellState>) -> (r: (Vec<bool>, Vec<bool>))
    ensures
        r.0@ == open_cells(map@),
        r.1@ == (match state {
            Some(st) => map@.map_values(|c: Cell| c.state == st),
            None => unwrapped_cells(map@),
        }),
{
    let n = map.len();
    let mut open: Vec<bool> = Vec::new();
    let mut goal: Vec<bool> = Vec::new();
    for i in 0..n
        invariant
            n == map@.len(),
            open@.len() == i,
            goal@.len() == i,
            forall|k: int| 0 <= k < i ==> #[trigger] open@[k] == (map@[k].state != CellState::Wall),
            forall|k: int| 0 <= k < i ==> #[trigger] goal@[k] == (match state {
                Some(st) => map@[k].state == st,
                None => !map@[k].is_wrapped,
            }),
    {
        open.push(map[i].state != CellState::Wall);
        match state {
            Some(st) => goal.push(map[i].state == st),
            None => goal.push(!map[i].is_wrapped),
        }
    }
    proof {
        assert(open@ =~= open_cells(map@));
        match state {
            Some(st) => assert(goal@ =~= map@.map_values(|c: Cell| c.state == st)),
            None => assert(goal@ =~= unwrapped_cells(map@)),
        }
    }
    (open, goal)
}

/// The goals that the search for candidates gives: from the current worker,
/// trying left, up, down and right in turn, the unwrapped cells it takes from
/// its queue among the hundred entries from the first such cell on.
pub open spec fn candidate_goals(p: PositionModel) -> Seq<Entry> {
    searched(
        Field {
            open: open_cells(p.map),
            width: p.width as int,
            height: p.height as int,
            starts: seq![(p.cur().point.x, p.cur().point.y, p.cur().fast)],
        },
        seq![1u8, 0u8, 2u8, 3u8],
        unwrapped_cells(p.map),
        true,
    )
}

impl Position {
    /// The routes of walks to unwrapped cells that a breadth first search
    /// from the current worker meets from the first such cell on, within the
    /// hundred cells it takes from the queue after that one, trying left, up,
    /// down and right in turn; the worker's boost doubles steps while it
    /// lasts. Which of them to head for is weighed by the caller. Without
    /// boost, no route to an unwrapped cell is shorter than the first.
    pub fn target_candidates(&self) -> (r: Vec<Candidate>)
        requires
            self@.wf(),
        ensures
            forall|k: int|
                0 <= k < r@.len() ==> {
                    let c = #[trigger] r@[k];
                    &&& all_walks(c.moves@)
                    &&& in_grid(c.x as int, c.y as int, self.width as int, self.height as int)
                    &&& route_end(self@, self@.cur(), c.moves@) == Some((c.x as int, c.y as int))
                    &&& !cell_at(self@.map, c.x as int, c.y as int, self.width as int).is_wrapped
                },
            r@.len() == 0 && self@.cur().fast <= 0 ==> !goal_reachable(self@, self@.cur(), unwrapped_cells(self@.map)),
            r@.len() > 0 ==> nearest(
                open_cells(self@.map),
                unwrapped_cells(self@.map),
                self.width as int,
                self.height as int,
                seq![(self@.cur().point.x, self@.cur().point.y, self@.cur().fast)],
                r@[0].moves@.len(),
            ),
            r@.len() == candidate_goals(self@).len(),
            forall|k: int|
                0 <= k < r@.len() ==> {
                    let e = candidate_goals(self@)[k];
                    &&& (#[trigger] r@[k]).moves@.map_values(|m: Move| move_code(m)) == e.path
                    &&& r@[k].x == e.x
                    &&& r@[k].y == e.y
                },
    {
        let ghost w = self.width as int;
        let ghost h = self.height as int;
        let (open, goal) = masks(&self.map, None);
        let body = self.get_body();
        proof {
            assert(body_ok(self@.cur(), w, h));
        }
        let starts = vec![(body.point.x, body.point.y, body.fast)];
        let order: Vec<u8> = vec![1u8, 0u8, 2u8, 3u8];
        proof {
            assert(order@[1] == 0u8 && order@[0] == 1u8 && order@[2] == 2u8 && order@[3] == 3u8);
            assert(covers(order@));
        }
        let found = explore(&open, &goal, self.width, self.height, &starts, &order, true);
        proof {
            assert(order@ =~= seq![1u8, 0u8, 2u8, 3u8]);
            assert(starts@ =~= seq![(self@.cur().point.x, self@.cur().point.y, self@.cur().fast)]);
            assert(open@ == open_cells(self@.map));
            assert(goal@ == unwrapped_cells(self@.map));
            assert(found_entries(found@) == candidate_goals(self@));
        }
        let mut r: Vec<Candidate> = Vec::new();
        let n = found.len();
        for k in 0..n
            invariant
                n == found@.len(),
                found_entries(found@) == candidate_goals(self@),
                forall|j: int|
                    0 <= j < k ==> {
                        let e = candidate_goals(self@)[j];
                        &&& (#[trigger] r@[j]).moves@.map_values(|m: Move| move_code(m)) == e.path
                        &&& r@[j].x == e.x
                        &&& r@[j].y == e.y
                    },
                w == self.width,
                h == self.height,
                grid_ok(w, h, self.map@.len() as int),
                open@ == open_cells(self@.map),
                goal@ == unwrapped_cells(self@.map),
                starts@ == seq![(self@.cur().point.x, self@.cur().point.y, self@.cur().fast)],
                forall|j: int| 0 <= j < found@.len() ==> found_ok(open@, goal@, w, h, starts@, #[trigger] found@[j]),
                found@.len() > 0 ==> nearest(open@, goal@, w, h, starts@, found@[0].path@.len()),
                forall|j: int| 0 <= j < k ==> (#[trigger] r@[j]).moves@.len() == found@[j].path@.len(),
                r@.len() == k,
                forall|j: int|
                    0 <= j < k ==> {
                        let c = #[trigger] r@[j];
                        &&& all_walks(c.moves@)
                        &&& in_grid(c.x as int, c.y as int, w, h)
                        &&& route_end(self@, self@.cur(), c.moves@) == Some((c.x as int, c.y as int))
                        &&& !cell_at(self@.map, c.x as int, c.y as int, w).is_wrapped
                    },
        {
            proof {
                assert(found_ok(open@, goal@, w, h, starts@, found@[k as int]));
                let f = found@[k as int];
                lemma_grid_index_ok(w, h, self.map@.len() as int, f.x as int, f.y as int);
                assert(goal@[idx(f.x as int, f.y as int, w)]);
            }
            let moves = moves_of(&found[k].path);
            proof {
                assert(moves@.map_values(|m: Move| move_code(m)).len() == moves@.len());
            }
            r.push(Candidate { moves, x: found[k].x, y: found[k].y });
            proof {
                assert(found_entries(found@)[k as int] == found@[k as int]@);
            }
        }
        proof {
            if r@.len() == 0 && self@.cur().fast <= 0 {
                assert(no_boost(starts@));
                if goal_reachable(self@, self@.cur(), unwrapped_cells(self@.map)) {
                    let b = self@.cur();
                    let path = choose|path: Seq<u8>|
                        #![trigger walk_to(open_cells(self@.map), w, h, b.point.x as int, b.point.y as int, b.fast as int, path)]
                        walk_to(open_cells(self@.map), w, h, b.point.x as int, b.point.y as int, b.fast as int, path) is Some
                            && unwrapped_cells(self@.map)[idx(
                            (walk_to(open_cells(self@.map), w, h, b.point.x as int, b.point.y as int, b.fast as int, path)->0).0,
                            (walk_to(open_cells(self@.map), w, h, b.point.x as int, b.point.y as int, b.fast as int, path)->0).1,
                            w,
                        )];
                    assert(walk_to(open@, w, h, starts@[0].0 as int, starts@[0].1 as int, starts@[0].2 as int, path) is Some);
                    assert(false);
                }
            }
        }
        r
    }
}


/// The cell of a grid code: wrapped where it lies outside the mine or holds
/// the worker; a wall outside the mine, a booster where one lies, else blank.
pub open spec fn grid_cell(code: i32, inside: i32, worker: bool) -> Cell {
    Cell {
        is_wrapped: inside != 1 || worker,
        state: if code == 3 {
            CellState::B
        } else if code == 4 {
            CellState::F
        } else if code == 5 {
            CellState::L
        } else if code == 6 {
            CellState::X
        } else if code == 7 {
            CellState::R
        } else if code == 8 {
            CellState::C
        } else if inside == 1 {
            CellState::Blank
        } else {
            CellState::Wall
        },
    }
}

/// The cells of a laid out grid.
pub open spec fn grid_cells(g: Grid) -> Seq<Cell> {
    Seq::new(
        g.cells@.len(),
        |i: int| grid_cell(g.cells@[i], g.inside@[i], i == g.worker.1 * g.width + g.worker.0),
    )
}

/// The cells of a laid out grid, computed.
pub(crate) fn cells_of(grid: &Grid) -> (r: Vec<Cell>)
    requires
        playable(*grid),
        grid.worker.0 < grid.width,
    ensures
        r@ == grid_cells(*grid),
{
    let n = grid.cells.len();
    assert(grid.worker.1 * grid.width + grid.worker.0 < grid.width * grid.height) by (nonlinear_arith)
        requires
            grid.worker.0 < grid.width,
            grid.worker.1 < grid.height,
    ;
    let wi = grid.worker.1 * grid.width + grid.worker.0;
    let mut r: Vec<Cell> = Vec::new();
    for i in 0..n
        invariant
            n == grid.cells@.len(),
            n == grid.inside@.len(),
            wi == grid.worker.1 * grid.width + grid.worker.0,
            r@.len() == i,
            forall|k: int| 0 <= k < i ==> #[trigger] r@[k] == grid_cells(*grid)[k],
    {
        let code = grid.cells[i];
        let inside = grid.inside[i];
        let state = if code == 3 {
            CellState::B
        } else if code == 4 {
            CellState::F
        } else if code == 5 {
            CellState::L
        } else if code == 6 {
            CellState::X
        } else if code == 7 {
            CellState::R
        } else if code == 8 {
            CellState::C
        } else if inside == 1 {
            CellState::Blank
        } else {
            CellState::Wall
        };
        r.push(Cell { is_wrapped: inside != 1 || i == wi, state });
    }
    assert(r@ =~= grid_cells(*grid));
    r
}

/// The position that starts on a laid out grid.
pub open spec fn start_model(g: Grid) -> PositionModel {
    PositionModel {
        index: 0,
        len: 1,
        bodies: seq![BodyModel {
            point: Point { x: g.worker.0 as i32, y: g.worker.1 as i32 },
            direction: 0,
            manipulators: start_arms(),
            fast: 0,
            rest_b: 0,
            rest_f: 0,
            rest_l: 0,
            rest_r: 0,
        }],
        map: grid_cells(g),
        width: g.width as i32,
        height: g.height as i32,
        rest_c: 0,
    }
}

impl Position {
    /// The position of a laid out grid: one worker on its cell, heading
    /// right with its three starting arms, and no boosters held.
    pub fn from_grid(grid: &Grid) -> (r: Position)
        requires
            playable(*grid),
            grid.worker.0 < grid.width,
        ensures
            r@.wf(),
            arms_ok(r@),
            r@.map == grid_cells(*grid),
            r.width == grid.width,
            r.height == grid.height,
            r.index == 0,
            r.len == 1,
            r.rest_c == 0,
            r@.bodies == seq![BodyModel {
                point: Point { x: grid.worker.0 as i32, y: grid.worker.1 as i32 },
                direction: 0,
                manipulators: start_arms(),
                fast: 0,
                rest_b: 0,
                rest_f: 0,
                rest_l: 0,
                rest_r: 0,
            }],
            r@ == start_model(*grid),
    {
        let map = cells_of(grid);
        let arms = vec![Point { x: 1, y: -1 }, Point { x: 1, y: 0 }, Point { x: 1, y: 1 }];
        let body = Body {
            point: Point { x: grid.worker.0 as i32, y: grid.worker.1 as i32 },
            direction: 0,
            manipulators: arms,
            fast: 0,
            rest_b: 0,
            rest_f: 0,
            rest_l: 0,
            rest_r: 0,
        };
        let r = Position {
            index: 0,
            len: 1,
            bodies: vec![body],
            map,
            width: grid.width as i32,
            height: grid.height as i32,
            rest_c: 0,
        };
        proof {
            assert(arms@ =~= start_arms());
            assert(r@.bodies =~= seq![body@]);
            assert(grid_ok(r.width as int, r.height as int, r.map@.len() as int));
        }
        r
    }

    /// Reads a task description into the position it starts from; a worker
    /// whose column lies past the grid's width is refused, as a position
    /// keeps its worker on the grid.
    pub fn from_desc(text: &[u8]) -> (r: Result<Position, DescError>)
        ensures
            match desc_of(text@) {
                None => r == Err::<Position, DescError>(DescError::Syntax),
                Some(d) => match layout_spec(d) {
                    None => r is Err,
                    Some(g) => if d.worker.0 < g.0 {
                        r is Ok && (r->Ok_0)@.wf() && (r->Ok_0).width == g.0 && (r->Ok_0).height == g.1 && exists|gr: Grid|
                            #[trigger] laid(d, gr) && (r->Ok_0)@ == start_model(gr)
                    } else {
                        r == Err::<Position, DescError>(DescError::OutOfMap(d.worker.0 as usize, d.worker.1 as usize))
                    },
                },
            },
            r matches Ok(p) ==> p@.wf() && arms_ok(p@),
    {
        let desc = parse_desc(text)?;
        let grid = layout(&desc)?;
        if grid.worker.0 >= grid.width {
            return Err(DescError::OutOfMap(desc.worker.0, desc.worker.1));
        }
        let r = Position::from_grid(&grid);
        assert(laid(desc@, grid));
        Ok(r)
    }
}

/// Boosters keep their letters from the description to the position: the
/// letters B, F, L, X, R and C, and no others, name boosters, and the cell a
/// booster's letter is laid out as reads back as that same letter.
pub proof fn lemma_booster_letters(letter: u8)
    ensures
        booster_code(letter) is Some <==> (letter == 66 || letter == 70 || letter == 76 || letter == 88 || letter == 82 || letter
            == 67),
        booster_code(letter) is Some ==> crate::cells::glyph_of(grid_cell(booster_code(letter)->0, 1, false)) == letter,
{
}

} // verus!
