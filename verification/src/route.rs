//! Breadth-first search for routes on a grid: from one or more workers, in
//! a fixed order of the four walking directions, where a worker still under
//! a speed boost covers two cells in a step when both are open.
use vstd::prelude::*;
use crate::grid::{idx, in_grid, lemma_index, lemma_index_injective, REACH};

verus! {

/// The step of a direction code: 0 up, 1 left, 2 down, 3 right.
pub open spec fn step_vec(d: int) -> (int, int) {
    if d == 0 {
        (0, -1)
    } else if d == 1 {
        (-1, 0)
    } else if d == 2 {
        (0, 1)
    } else {
        (1, 0)
    }
}

/// The grid has a size whose indices, and offsets a little beyond it, fit
/// in 32 bits.
pub open spec fn area_ok(width: int, height: int, len: int) -> bool {
    &&& 0 < width
    &&& 0 < height
    &&& width * height <= i32::MAX
    &&& width + REACH <= i32::MAX
    &&& height + REACH <= i32::MAX
    &&& len == width * height
}

/// `(x, y)` lies outside the grid or on a cell that is not open.
pub open spec fn blocked(open: Seq<bool>, width: int, height: int, x: int, y: int) -> bool {
    !in_grid(x, y, width, height) || !open[idx(x, y, width)]
}

/// Where one step in direction `d` from `(x, y)` lands: two cells on when
/// the boost lasts and both are open, else one.
pub open spec fn hop(open: Seq<bool>, width: int, height: int, x: int, y: int, fast: int, d: int) -> (int, int) {
    let s = step_vec(d);
    if fast > 0 && !blocked(open, width, height, x + s.0, y + s.1) && !blocked(
        open,
        width,
        height,
        x + 2 * s.0,
        y + 2 * s.1,
    ) {
        (x + 2 * s.0, y + 2 * s.1)
    } else {
        (x + s.0, y + s.1)
    }
}

/// Where the directions `path` lead from `(x, y)` with `fast` boosted steps
/// left, one fewer after each step; `None` where a step lands on a blocked
/// cell.
pub open spec fn walk_to(open: Seq<bool>, width: int, height: int, x: int, y: int, fast: int, path: Seq<u8>) -> Option<(int, int)>
    decreases path.len(),
{
    if path.len() == 0 {
        Some((x, y))
    } else {
        match walk_to(open, width, height, x, y, fast, path.drop_last()) {
            None => None,
            Some(q) => {
                let t = hop(open, width, height, q.0, q.1, fast - (path.len() - 1), path.last() as int);
                if blocked(open, width, height, t.0, t.1) {
                    None
                } else {
                    Some(t)
                }
            },
        }
    }
}

/// A goal reached: the worker it was reached from, the cell and the
/// directions that lead there.
pub struct Found {
    pub start: usize,
    pub x: i32,
    pub y: i32,
    pub path: Vec<u8>,
}

/// `f` is a route from its worker to a goal cell.
pub open spec fn found_ok(open: Seq<bool>, goal: Seq<bool>, width: int, height: int, starts: Seq<(i32, i32, i32)>, f: Found) -> bool {
    &&& f.start < starts.len()
    &&& in_grid(f.x as int, f.y as int, width, height)
    &&& forall|i: int| 0 <= i < f.path@.len() ==> #[trigger] f.path@[i] < 4
    &&& goal[idx(f.x as int, f.y as int, width)]
    &&& walk_to(
        open,
        width,
        height,
        starts[f.start as int].0 as int,
        starts[f.start as int].1 as int,
        starts[f.start as int].2 as int,
        f.path@,
    ) == Some((f.x as int, f.y as int))
}

/// A cell waiting in the queue, with the route that found it.
struct Hop {
    start: usize,
    x: i32,
    y: i32,
    fast: i64,
    path: Vec<u8>,
}

spec fn hop_ok(open: Seq<bool>, width: int, height: int, starts: Seq<(i32, i32, i32)>, h: Hop, bound: int) -> bool {
    &&& h.start < starts.len()
    &&& in_grid(h.x as int, h.y as int, width, height)
    &&& forall|i: int| 0 <= i < h.path@.len() ==> #[trigger] h.path@[i] < 4
    &&& h.path@.len() <= bound
    &&& h.fast == starts[h.start as int].2 - h.path@.len()
    &&& walk_to(
        open,
        width,
        height,
        starts[h.start as int].0 as int,
        starts[h.start as int].1 as int,
        starts[h.start as int].2 as int,
        h.path@,
    ) == Some((h.x as int, h.y as int))
}

/// A queue entry as a value: the worker it was found from, its cell and the
/// route that leads there.
pub struct Entry {
    pub start: int,
    pub x: int,
    pub y: int,
    pub path: Seq<u8>,
}

impl View for Found {
    type V = Entry;

    open spec fn view(&self) -> Entry {
        Entry { start: self.start as int, x: self.x as int, y: self.y as int, path: self.path@ }
    }
}

/// The routes of a list of found goals, as values.
pub open spec fn found_entries(r: Seq<Found>) -> Seq<Entry> {
    r.map_values(|f: Found| f@)
}

/// What a search runs on: the open cells and the size of the grid, and the
/// workers with the boosted steps each has left.
pub struct Field {
    pub open: Seq<bool>,
    pub width: int,
    pub height: int,
    pub starts: Seq<(i32, i32, i32)>,
}

/// A state of the search: its queue, and which cells are marked.
pub struct Sweep {
    pub queue: Seq<Entry>,
    pub seen: Seq<bool>,
}

/// The search with the cells of the first `k` workers queued and marked.
pub open spec fn seeded(f: Field, k: nat) -> Sweep
    decreases k,
{
    if k == 0 {
        Sweep { queue: Seq::empty(), seen: Seq::new(f.open.len(), |i: int| false) }
    } else {
        let s = seeded(f, (k - 1) as nat);
        let w = f.starts[k - 1];
        Sweep {
            queue: s.queue.push(Entry { start: k - 1, x: w.0 as int, y: w.1 as int, path: Seq::empty() }),
            seen: s.seen.update(idx(w.0 as int, w.1 as int, f.width), true),
        }
    }
}

/// Direction `d` tried from entry `cur`: the cell it leads to is queued,
/// with the route one step longer, and marked, unless it is blocked or
/// marked already.
pub open spec fn try_dir(f: Field, s: Sweep, cur: int, d: int) -> Sweep {
    let e = s.queue[cur];
    let t = hop(f.open, f.width, f.height, e.x, e.y, f.starts[e.start].2 - e.path.len(), d);
    if blocked(f.open, f.width, f.height, t.0, t.1) || s.seen[idx(t.0, t.1, f.width)] {
        s
    } else {
        Sweep {
            queue: s.queue.push(Entry { start: e.start, x: t.0, y: t.1, path: e.path.push(d as u8) }),
            seen: s.seen.update(idx(t.0, t.1, f.width), true),
        }
    }
}

/// The first `t` directions of `order` tried from entry `cur`.
pub open spec fn try_dirs(f: Field, order: Seq<u8>, s: Sweep, cur: int, t: nat) -> Sweep
    decreases t,
{
    if t == 0 {
        s
    } else {
        try_dir(f, try_dirs(f, order, s, cur, (t - 1) as nat), cur, order[t - 1] as int)
    }
}

/// The search once the first `k` entries of the queue, as far as there are
/// that many, have been taken and expanded.
pub open spec fn swept(f: Field, order: Seq<u8>, k: nat) -> Sweep
    decreases k,
{
    if k == 0 {
        seeded(f, f.starts.len())
    } else {
        let s = swept(f, order, (k - 1) as nat);
        if k - 1 < s.queue.len() {
            try_dirs(f, order, s, k - 1, 4)
        } else {
            s
        }
    }
}

/// The `k`th entry taken from the queue.
pub open spec fn taken(f: Field, order: Seq<u8>, k: int) -> Entry {
    swept(f, order, k as nat).queue[k]
}

/// A `k`th entry is taken from the queue, and it lies on a goal cell.
pub open spec fn goal_at(f: Field, order: Seq<u8>, goal: Seq<bool>, k: int) -> bool {
    &&& 0 <= k < swept(f, order, k as nat).queue.len()
    &&& goal[idx(taken(f, order, k).x, taken(f, order, k).y, f.width)]
}

/// The goal entries among those taken `a` to `b - 1`, in the order taken.
pub open spec fn goals_in(f: Field, order: Seq<u8>, goal: Seq<bool>, a: int, b: int) -> Seq<Entry>
    decreases b - a,
{
    if b <= a {
        Seq::empty()
    } else if goal_at(f, order, goal, b - 1) {
        goals_in(f, order, goal, a, b - 1).push(taken(f, order, b - 1))
    } else {
        goals_in(f, order, goal, a, b - 1)
    }
}

/// Some entry taken is a goal, with none before it.
pub open spec fn has_first_goal(f: Field, order: Seq<u8>, goal: Seq<bool>) -> bool {
    exists|k: int| #[trigger] goal_at(f, order, goal, k) && forall|j: int| 0 <= j < k ==> !goal_at(f, order, goal, j)
}

/// The first goal entry taken.
pub open spec fn first_goal(f: Field, order: Seq<u8>, goal: Seq<bool>) -> int {
    choose|k: int| #[trigger] goal_at(f, order, goal, k) && forall|j: int| 0 <= j < k ==> !goal_at(f, order, goal, j)
}

/// What the search gives: nothing where no entry taken is a goal; else the
/// first goal taken, or, in a window, the goals among the hundred entries
/// taken from the first goal on, in the order taken.
pub open spec fn searched(f: Field, order: Seq<u8>, goal: Seq<bool>, window: bool) -> Seq<Entry> {
    if has_first_goal(f, order, goal) {
        let g = first_goal(f, order, goal);
        if window {
            goals_in(f, order, goal, g, g + 100)
        } else {
            seq![taken(f, order, g)]
        }
    } else {
        Seq::empty()
    }
}

/// The first goal is the only goal entry with no goal before it.
proof fn lemma_first_goal(f: Field, order: Seq<u8>, goal: Seq<bool>, g: int)
    requires
        goal_at(f, order, goal, g),
        forall|j: int| 0 <= j < g ==> !goal_at(f, order, goal, j),
    ensures
        has_first_goal(f, order, goal),
        first_goal(f, order, goal) == g,
{
    let c = first_goal(f, order, goal);
    assert(goal_at(f, order, goal, c) && forall|j: int| 0 <= j < c ==> !goal_at(f, order, goal, j));
    if c < g {
        assert(!goal_at(f, order, goal, c));
    }
    if g < c {
        assert(!goal_at(f, order, goal, g));
    }
}

/// Once the queue is spent, the search stays as it is.
proof fn lemma_swept_done(f: Field, order: Seq<u8>, k: nat, m: nat)
    requires
        swept(f, order, k).queue.len() <= k,
        k <= m,
    ensures
        swept(f, order, m) == swept(f, order, k),
    decreases m,
{
    if m > k {
        lemma_swept_done(f, order, k, (m - 1) as nat);
    }
}

/// Entries past the goals add nothing to the goals taken.
proof fn lemma_goals_tail(f: Field, order: Seq<u8>, goal: Seq<bool>, a: int, b: int, c: int)
    requires
        a <= b <= c,
        forall|j: int| b <= j < c ==> !goal_at(f, order, goal, j),
    ensures
        goals_in(f, order, goal, a, c) == goals_in(f, order, goal, a, b),
    decreases c - b,
{
    if c > b {
        lemma_goals_tail(f, order, goal, a, b, c - 1);
        assert(!goal_at(f, order, goal, c - 1));
    }
}

impl Hop {
    spec fn entry(self) -> Entry {
        Entry { start: self.start as int, x: self.x as int, y: self.y as int, path: self.path@ }
    }
}

/// Each of the four directions occurs in `order`.
pub open spec fn covers(order: Seq<u8>) -> bool {
    &&& order.contains(0u8)
    &&& order.contains(1u8)
    &&& order.contains(2u8)
    &&& order.contains(3u8)
}

/// No worker has boosted steps left.
pub open spec fn no_boost(starts: Seq<(i32, i32, i32)>) -> bool {
    forall|k: int| 0 <= k < starts.len() ==> (#[trigger] starts[k]).2 <= 0
}

/// No route from a worker without boost reaches a goal cell.
pub open spec fn no_goal_reachable(open: Seq<bool>, goal: Seq<bool>, width: int, height: int, starts: Seq<(i32, i32, i32)>) -> bool {
    forall|k: int, path: Seq<u8>|
        0 <= k < starts.len() && (#[trigger] walk_to(open, width, height, starts[k].0 as int, starts[k].1 as int, starts[k].2 as int, path)) is Some
            ==> !goal[idx(
            (walk_to(open, width, height, starts[k].0 as int, starts[k].1 as int, starts[k].2 as int, path)->0).0,
            (walk_to(open, width, height, starts[k].0 as int, starts[k].1 as int, starts[k].2 as int, path)->0).1,
            width,
        )]
}

/// Without boost, no route from a worker to a goal cell is shorter than
/// `len` steps.
pub open spec fn nearest(open: Seq<bool>, goal: Seq<bool>, width: int, height: int, starts: Seq<(i32, i32, i32)>, len: nat) -> bool {
    no_boost(starts) ==> forall|k: int, path: Seq<u8>|
        0 <= k < starts.len() && (#[trigger] walk_to(open, width, height, starts[k].0 as int, starts[k].1 as int, starts[k].2 as int, path)) is Some
            && goal[idx(
            (walk_to(open, width, height, starts[k].0 as int, starts[k].1 as int, starts[k].2 as int, path)->0).0,
            (walk_to(open, width, height, starts[k].0 as int, starts[k].1 as int, starts[k].2 as int, path)->0).1,
            width,
        )] ==> len <= path.len()
}

/// Every open neighbour of `(x, y)` is in `vis`.
spec fn expanded(open: Seq<bool>, width: int, height: int, vis: Set<int>, x: int, y: int) -> bool {
    forall|d: int|
        0 <= d < 4 && !blocked(open, width, height, x + (#[trigger] step_vec(d)).0, y + step_vec(d).1) ==> vis.contains(
            idx(x + step_vec(d).0, y + step_vec(d).1, width),
        )
}

/// `vis` holds every open neighbour of each of its cells.
spec fn closed(open: Seq<bool>, width: int, height: int, vis: Set<int>) -> bool {
    forall|x: int, y: int| in_grid(x, y, width, height) && #[trigger] vis.contains(idx(x, y, width)) ==> expanded(open, width, height, vis, x, y)
}

/// Without boost, a route from a cell of a closed set stays in it.
proof fn lemma_walk_stays(open: Seq<bool>, width: int, height: int, vis: Set<int>, x: int, y: int, fast: int, path: Seq<u8>)
    requires
        closed(open, width, height, vis),
        in_grid(x, y, width, height),
        vis.contains(idx(x, y, width)),
        fast <= 0,
        walk_to(open, width, height, x, y, fast, path) is Some,
    ensures
        ({
            let q = walk_to(open, width, height, x, y, fast, path)->0;
            in_grid(q.0, q.1, width, height) && vis.contains(idx(q.0, q.1, width))
        }),
    decreases path.len(),
{
    if path.len() > 0 {
        let prev = path.drop_last();
        lemma_walk_stays(open, width, height, vis, x, y, fast, prev);
        let q0 = walk_to(open, width, height, x, y, fast, prev)->0;
        let d = path.last() as int;
        let dd = if d < 4 { d } else { 3 };
        assert(step_vec(d) == step_vec(dd));
        assert(expanded(open, width, height, vis, q0.0, q0.1));
    }
}

/// Whether `(x, y)`, at most a couple of cells off the grid, is blocked.
fn is_blocked(open: &Vec<bool>, width: i32, height: i32, x: i32, y: i32) -> (r: bool)
    requires
        area_ok(width as int, height as int, open@.len() as int),
    ensures
        r == blocked(open@, width as int, height as int, x as int, y as int),
{
    if x < 0 || width <= x || y < 0 || height <= y {
        return true;
    }
    proof {
        lemma_index(x as int, y as int, width as int, height as int);
    }
    !open[(y * width + x) as usize]
}

/// The directions of `path` followed by `d`.
fn extended(path: &Vec<u8>, d: u8) -> (r: Vec<u8>)
    ensures
        r@ == path@.push(d),
{
    let mut r: Vec<u8> = Vec::new();
    let n = path.len();
    for i in 0..n
        invariant
            n == path@.len(),
            r@ == path@.take(i as int),
    {
        r.push(path[i]);
        proof {
            assert(path@.take(i + 1) =~= path@.take(i as int).push(path@[i as int]));
        }
    }
    r.push(d);
    proof {
        assert(path@.take(n as int) =~= path@);
    }
    r
}

/// The cells marked so far and the queue of cells found, with, for each
/// marked cell, the queue entry that found it.
struct Frontier {
    visited: Vec<bool>,
    nodes: Vec<Hop>,
    owner: Ghost<Map<int, int>>,
}

/// The indices whose flag is set.
spec fn marked(visited: Seq<bool>) -> Set<int> {
    Set::new(|i: int| 0 <= i < visited.len() && visited[i])
}

proof fn lemma_marked_len(visited: Seq<bool>)
    ensures
        marked(visited).finite(),
        marked(visited).len() <= visited.len(),
{
    vstd::set_lib::lemma_int_range(0, visited.len() as int);
    assert(marked(visited).subset_of(vstd::set_lib::set_int_range(0, visited.len() as int)));
    vstd::set_lib::lemma_len_subset(marked(visited), vstd::set_lib::set_int_range(0, visited.len() as int));
}

proof fn lemma_marked_set(visited: Seq<bool>, j: int)
    requires
        0 <= j < visited.len(),
        !visited[j],
    ensures
        marked(visited.update(j, true)) == marked(visited).insert(j),
        marked(visited.update(j, true)).len() == marked(visited).len() + 1,
{
    lemma_marked_len(visited);
    assert(marked(visited.update(j, true)) =~= marked(visited).insert(j));
}

proof fn lemma_expanded_mono(open: Seq<bool>, width: int, height: int, v1: Set<int>, v2: Set<int>, x: int, y: int)
    requires
        expanded(open, width, height, v1, x, y),
        v1.subset_of(v2),
    ensures
        expanded(open, width, height, v2, x, y),
{
}

/// The routes of the queue never get shorter along it.
spec fn monotone(nodes: Seq<Hop>) -> bool {
    forall|i: int, j: int| 0 <= i <= j < nodes.len() ==> (#[trigger] nodes[i]).path@.len() <= (#[trigger] nodes[j]).path@.len()
}

/// No route of the queue is longer than `b`.
spec fn bounded(nodes: Seq<Hop>, b: nat) -> bool {
    forall|j: int| 0 <= j < nodes.len() ==> (#[trigger] nodes[j]).path@.len() <= b
}

impl Frontier {
    spec fn inv(&self, open: Seq<bool>, width: int, height: int, starts: Seq<(i32, i32, i32)>) -> bool {
        &&& area_ok(width, height, open.len() as int)
        &&& starts.len() < i32::MAX
        &&& self.visited@.len() == open.len()
        &&& self.nodes@.len() <= starts.len() + marked(self.visited@).len()
        &&& forall|j: int| 0 <= j < self.nodes@.len() ==> hop_ok(open, width, height, starts, #[trigger] self.nodes@[j], j)
        &&& forall|i: int|
            0 <= i < self.visited@.len() && #[trigger] self.visited@[i] ==> self.owner@.dom().contains(i) && 0 <= self.owner@[i]
                < self.nodes@.len() && idx(self.nodes@[self.owner@[i]].x as int, self.nodes@[self.owner@[i]].y as int, width) == i
    }

    /// The queue and the marks as values.
    spec fn sweep(&self) -> Sweep {
        Sweep { queue: self.nodes@.map_values(|h: Hop| h.entry()), seen: self.visited@ }
    }

    /// The length of the route that marked cell `i`.
    spec fn owner_len(&self, i: int) -> nat {
        self.nodes@[self.owner@[i]].path@.len()
    }

    /// `(x, y)` is blocked, or marked by a route of at most `b` steps.
    spec fn reached(&self, open: Seq<bool>, width: int, height: int, x: int, y: int, b: nat) -> bool {
        !blocked(open, width, height, x, y) ==> self.visited@[idx(x, y, width)] && self.owner_len(idx(x, y, width)) <= b
    }

    /// Queues the cell `(tx, ty)`, found from entry `cur` by direction `d`,
    /// unless it is marked already.
    fn visit(
        &mut self,
        open: &Vec<bool>,
        width: i32,
        height: i32,
        starts: &Vec<(i32, i32, i32)>,
        cur: usize,
        d: u8,
        tx: i32,
        ty: i32,
    )
        requires
            old(self).inv(open@, width as int, height as int, starts@),
            cur < old(self).nodes@.len(),
            d < 4,
            in_grid(tx as int, ty as int, width as int, height as int),
            !blocked(open@, width as int, height as int, tx as int, ty as int),
            ({
                let hp = old(self).nodes@[cur as int];
                (tx as int, ty as int) == hop(open@, width as int, height as int, hp.x as int, hp.y as int, hp.fast as int, d as int)
            }),
        ensures
            final(self).inv(open@, width as int, height as int, starts@),
            final(self).nodes@.len() >= old(self).nodes@.len(),
            forall|j: int| 0 <= j < old(self).nodes@.len() ==> final(self).nodes@[j] == old(self).nodes@[j],
            marked(old(self).visited@).subset_of(marked(final(self).visited@)),
            final(self).visited@[idx(tx as int, ty as int, width as int)],
            forall|i: int|
                0 <= i < old(self).visited@.len() && #[trigger] old(self).visited@[i] ==> final(self).owner@[i] == old(self).owner@[i],
            monotone(old(self).nodes@) && bounded(old(self).nodes@, old(self).nodes@[cur as int].path@.len() + 1) ==> monotone(
                final(self).nodes@,
            ) && bounded(final(self).nodes@, old(self).nodes@[cur as int].path@.len() + 1) && final(self).reached(
                open@,
                width as int,
                height as int,
                tx as int,
                ty as int,
                old(self).nodes@[cur as int].path@.len() + 1,
            ),
            final(self).sweep() == try_dir(
                Field { open: open@, width: width as int, height: height as int, starts: starts@ },
                old(self).sweep(),
                cur as int,
                d as int,
            ),
    {
        let ghost w = width as int;
        let ghost h = height as int;
        let ghost s0 = self.sweep();
        proof {
            lemma_index(tx as int, ty as int, w, h);
        }
        let j = (ty * width + tx) as usize;
        if !self.visited[j] {
            let ghost hp = self.nodes@[cur as int];
            let ghost p = hp.path@;
            proof {
                assert(hop_ok(open@, w, h, starts@, hp, cur as int));
            }
            let path = extended(&self.nodes[cur].path, d);
            let len = self.nodes.len();
            proof {
                assert(path@.drop_last() =~= p);
                assert(path@.last() == d);
                lemma_marked_set(self.visited@, j as int);
                lemma_marked_len(self.visited@.update(j as int, true));
            }
            let start = self.nodes[cur].start;
            let fast = self.nodes[cur].fast;
            self.nodes.push(Hop { start, x: tx, y: ty, fast: fast - 1, path });
            self.visited.set(j, true);
            proof {
                self.owner@ = self.owner@.insert(j as int, len as int);
                assert(hop_ok(open@, w, h, starts@, self.nodes@[len as int], len as int));
                assert(self.nodes@[len as int].path@.len() == hp.path@.len() + 1);
                assert(s0.queue[cur as int] == hp.entry());
                assert(self.sweep().queue =~= s0.queue.push(
                    Entry { start: hp.start as int, x: tx as int, y: ty as int, path: p.push(d) },
                ));
                assert forall|i: int|
                    0 <= i < old(self).visited@.len() && #[trigger] old(self).visited@[i] implies self.owner@[i] == old(self).owner@[i] by {
                    assert(i != j);
                }
                if monotone(old(self).nodes@) && bounded(old(self).nodes@, hp.path@.len() + 1) {
                    assert forall|a: int, b: int| 0 <= a <= b < self.nodes@.len() implies (#[trigger] self.nodes@[a]).path@.len()
                        <= (#[trigger] self.nodes@[b]).path@.len() by {
                        if b == len {
                            assert(old(self).nodes@[a] == self.nodes@[a] || a == len);
                        } else {
                            assert(old(self).nodes@[a] == self.nodes@[a] && old(self).nodes@[b] == self.nodes@[b]);
                        }
                    }
                    assert forall|a: int| 0 <= a < self.nodes@.len() implies (#[trigger] self.nodes@[a]).path@.len() <= hp.path@.len() + 1 by {
                        if a < len {
                            assert(old(self).nodes@[a] == self.nodes@[a]);
                        }
                    }
                    assert(self.owner@[j as int] == len);
                }
            }
        } else {
            proof {
                assert(self.visited@ =~= old(self).visited@);
                if monotone(old(self).nodes@) && bounded(old(self).nodes@, old(self).nodes@[cur as int].path@.len() + 1) {
                    let o = self.owner@[j as int];
                    assert(0 <= o < self.nodes@.len());
                    assert(self.nodes@[o].path@.len() <= old(self).nodes@[cur as int].path@.len() + 1);
                }
            }
        }
    }

    /// Queues, in `order`, the cells one step from entry `cur`.
    fn expand(
        &mut self,
        open: &Vec<bool>,
        width: i32,
        height: i32,
        starts: &Vec<(i32, i32, i32)>,
        order: &Vec<u8>,
        cur: usize,
    )
        requires
            old(self).inv(open@, width as int, height as int, starts@),
            cur < old(self).nodes@.len(),
            order@.len() == 4,
            forall|i: int| 0 <= i < 4 ==> #[trigger] order@[i] < 4,
        ensures
            final(self).inv(open@, width as int, height as int, starts@),
            final(self).nodes@.len() >= old(self).nodes@.len(),
            forall|j: int| 0 <= j < old(self).nodes@.len() ==> final(self).nodes@[j] == old(self).nodes@[j],
            marked(old(self).visited@).subset_of(marked(final(self).visited@)),
            no_boost(starts@) && covers(order@) ==> expanded(
                open@,
                width as int,
                height as int,
                marked(final(self).visited@),
                old(self).nodes@[cur as int].x as int,
                old(self).nodes@[cur as int].y as int,
            ),
            forall|i: int|
                0 <= i < old(self).visited@.len() && #[trigger] old(self).visited@[i] ==> final(self).owner@[i] == old(self).owner@[i],
            monotone(old(self).nodes@) && bounded(old(self).nodes@, old(self).nodes@[cur as int].path@.len() + 1) ==> {
                let hp = old(self).nodes@[cur as int];
                &&& monotone(final(self).nodes@)
                &&& bounded(final(self).nodes@, hp.path@.len() + 1)
                &&& covers(order@) ==> forall|d: int|
                    0 <= d < 4 ==> #[trigger] final(self).reached(
                        open@,
                        width as int,
                        height as int,
                        hop(open@, width as int, height as int, hp.x as int, hp.y as int, hp.fast as int, d).0,
                        hop(open@, width as int, height as int, hp.x as int, hp.y as int, hp.fast as int, d).1,
                        hp.path@.len() + 1,
                    )
            },
            final(self).sweep() == try_dirs(
                Field { open: open@, width: width as int, height: height as int, starts: starts@ },
                order@,
                old(self).sweep(),
                cur as int,
                4,
            ),
    {
        let ghost fld = Field { open: open@, width: width as int, height: height as int, starts: starts@ };
        let ghost s0 = self.sweep();
        let ghost w = width as int;
        let ghost h = height as int;
        let ghost old_nodes = self.nodes@;
        let ghost old_marked = marked(self.visited@);
        let ghost old_visited = self.visited@;
        let ghost old_owner = self.owner@;
        let ghost lim = self.nodes@[cur as int].path@.len() + 1;
        let ghost ok = monotone(self.nodes@) && bounded(self.nodes@, lim);
        let x = self.nodes[cur].x;
        let y = self.nodes[cur].y;
        let fast = self.nodes[cur].fast;
        proof {
            assert(hop_ok(open@, w, h, starts@, self.nodes@[cur as int], cur as int));
        }
        for t in 0..4usize
            invariant
                self.inv(open@, w, h, starts@),
                w == width,
                h == height,
                order@.len() == 4,
                cur < old_nodes.len(),
                forall|i: int| 0 <= i < 4 ==> #[trigger] order@[i] < 4,
                self.nodes@.len() >= old_nodes.len(),
                forall|j: int| 0 <= j < old_nodes.len() ==> self.nodes@[j] == old_nodes[j],
                old_marked.subset_of(marked(self.visited@)),
                old_nodes[cur as int].x == x,
                old_nodes[cur as int].y == y,
                old_nodes[cur as int].fast == fast,
                hop_ok(open@, w, h, starts@, old_nodes[cur as int], cur as int),
                no_boost(starts@) ==> forall|t2: int|
                    0 <= t2 < t && !blocked(open@, w, h, x + step_vec(order@[t2] as int).0, y + step_vec(order@[t2] as int).1)
                        ==> marked(self.visited@).contains(idx(x + step_vec(#[trigger] order@[t2] as int).0, y + step_vec(order@[t2] as int).1, w)),
                old_visited.len() == self.visited@.len(),
                old_marked == marked(old_visited),
                forall|i: int| 0 <= i < old_visited.len() && #[trigger] old_visited[i] ==> self.owner@[i] == old_owner[i],
                lim == old_nodes[cur as int].path@.len() + 1,
                ok ==> monotone(self.nodes@) && bounded(self.nodes@, lim),
                ok ==> forall|t2: int|
                    0 <= t2 < t ==> #[trigger] self.reached(
                        open@,
                        w,
                        h,
                        hop(open@, w, h, x as int, y as int, fast as int, order@[t2] as int).0,
                        hop(open@, w, h, x as int, y as int, fast as int, order@[t2] as int).1,
                        lim,
                    ),
                fld == (Field { open: open@, width: w, height: h, starts: starts@ }),
                s0.queue.len() == old_nodes.len(),
                s0.queue[cur as int] == old_nodes[cur as int].entry(),
                self.sweep() == try_dirs(fld, order@, s0, cur as int, t as nat),
        {
            let d = order[t];
            let (dx, dy): (i32, i32) = if d == 0 {
                (0, -1)
            } else if d == 1 {
                (-1, 0)
            } else if d == 2 {
                (0, 1)
            } else {
                (1, 0)
            };
            let mut tx = x + dx;
            let mut ty = y + dy;
            if fast > 0 && !is_blocked(open, width, height, tx, ty) && !is_blocked(open, width, height, x + 2 * dx, y + 2 * dy) {
                tx = x + 2 * dx;
                ty = y + 2 * dy;
            }
            let ghost before = marked(self.visited@);
            let ghost prev = *self;
            if !is_blocked(open, width, height, tx, ty) {
                self.visit(open, width, height, starts, cur, d, tx, ty);
            }
            proof {
                let sp = prev.sweep();
                assert(sp.queue[cur as int] == prev.nodes@[cur as int].entry());
                assert(prev.nodes@[cur as int] == old_nodes[cur as int]);
                assert(try_dirs(fld, order@, s0, cur as int, (t + 1) as nat) == try_dir(fld, sp, cur as int, d as int));
            }
            proof {
                assert((tx as int, ty as int) == hop(open@, w, h, x as int, y as int, fast as int, d as int));
                if ok {
                    assert forall|t2: int| 0 <= t2 < t + 1 implies #[trigger] self.reached(
                        open@,
                        w,
                        h,
                        hop(open@, w, h, x as int, y as int, fast as int, order@[t2] as int).0,
                        hop(open@, w, h, x as int, y as int, fast as int, order@[t2] as int).1,
                        lim,
                    ) by {
                        let q = hop(open@, w, h, x as int, y as int, fast as int, order@[t2] as int);
                        if t2 < t {
                            assert(prev.reached(open@, w, h, q.0, q.1, lim));
                            if !blocked(open@, w, h, q.0, q.1) {
                                lemma_index(q.0, q.1, w, h);
                                let i = idx(q.0, q.1, w);
                                assert(prev.visited@[i]);
                                assert(marked(prev.visited@).contains(i));
                                assert(marked(self.visited@).contains(i));
                                assert(self.owner@[i] == prev.owner@[i]);
                                assert(self.nodes@[prev.owner@[i]] == prev.nodes@[prev.owner@[i]]);
                            }
                        }
                    }
                }
                assert forall|i: int| 0 <= i < old_visited.len() && #[trigger] old_visited[i] implies self.owner@[i] == old_owner[i] by {
                    assert(prev.owner@[i] == old_owner[i]);
                    assert(marked(old_visited).contains(i));
                    assert(old_marked.contains(i));
                    assert(before.contains(i));
                    assert(marked(prev.visited@).contains(i));
                    assert(prev.visited@[i]);
                }
            }
            proof {
                let after = marked(self.visited@);
                assert forall|t2: int|
                    0 <= t2 < t + 1 && !blocked(open@, w, h, x + step_vec(order@[t2] as int).0, y + step_vec(order@[t2] as int).1)
                        && no_boost(starts@) implies after.contains(
                    idx(x + step_vec(#[trigger] order@[t2] as int).0, y + step_vec(order@[t2] as int).1, w),
                ) by {
                    if t2 < t {
                        assert(before.contains(idx(x + step_vec(order@[t2] as int).0, y + step_vec(order@[t2] as int).1, w)));
                    } else {
                        let hp = old_nodes[cur as int];
                        assert(starts@[hp.start as int].2 <= 0);
                        assert(fast <= 0);
                        lemma_index(tx as int, ty as int, w, h);
                    }
                }
            }
        }
        proof {
            if ok && covers(order@) {
                let hp = old_nodes[cur as int];
                assert forall|d: int| 0 <= d < 4 implies #[trigger] self.reached(
                    open@,
                    w,
                    h,
                    hop(open@, w, h, hp.x as int, hp.y as int, hp.fast as int, d).0,
                    hop(open@, w, h, hp.x as int, hp.y as int, hp.fast as int, d).1,
                    lim,
                ) by {
                    assert(order@.contains(d as u8));
                    let i = choose|i: int| 0 <= i < order@.len() && order@[i] == d as u8;
                    assert(order@[i] as int == d);
                }
            }
            if no_boost(starts@) && covers(order@) {
                let fin = marked(self.visited@);
                assert forall|d: int|
                    0 <= d < 4 && !blocked(open@, w, h, x + (#[trigger] step_vec(d)).0, y + step_vec(d).1) implies fin.contains(
                        idx(x + step_vec(d).0, y + step_vec(d).1, w),
                    ) by {
                    assert(order@.contains(d as u8));
                    let i = choose|i: int| 0 <= i < order@.len() && order@[i] == d as u8;
                    assert(order@[i] as int == d);
                }
            }
        }
    }
}

/// Searches breadth first from every worker of `starts` (its cell and the
/// boosted steps it has left) for cells that `goal` marks, trying the
/// directions in `order` from each cell, and each cell once. With `window`
/// unset it stops at the first goal; with it set, it goes on for 99 more
/// cells after the first goal and gives every goal met, in the order met.
/// What it gives is `searched`: the goal entries of the queue in the order
/// taken, each with its worker, cell and route. Every route given leads from
/// its worker to its goal; where no worker has boosted steps left and `order`
/// holds all four directions, no goal is given only where no route reaches
/// one, and no route to a goal is shorter than the first one given.
pub fn explore(
    open: &Vec<bool>,
    goal: &Vec<bool>,
    width: i32,
    height: i32,
    starts: &Vec<(i32, i32, i32)>,
    order: &Vec<u8>,
    window: bool,
) -> (r: Vec<Found>)
    requires
        area_ok(width as int, height as int, open@.len() as int),
        goal@.len() == open@.len(),
        order@.len() == 4,
        forall|i: int| 0 <= i < 4 ==> #[trigger] order@[i] < 4,
        starts@.len() < i32::MAX,
        forall|k: int| 0 <= k < starts@.len() ==> in_grid(#[trigger] starts@[k].0 as int, starts@[k].1 as int, width as int, height as int),
    ensures
        forall|k: int| 0 <= k < r@.len() ==> found_ok(open@, goal@, width as int, height as int, starts@, #[trigger] r@[k]),
        !window ==> r@.len() <= 1,
        r@.len() == 0 && no_boost(starts@) && covers(order@) ==> no_goal_reachable(open@, goal@, width as int, height as int, starts@),
        r@.len() > 0 && covers(order@) ==> nearest(open@, goal@, width as int, height as int, starts@, r@[0].path@.len()),
        found_entries(r@) == searched(
            Field { open: open@, width: width as int, height: height as int, starts: starts@ },
            order@,
            goal@,
            window,
        ),
{
    let ghost w = width as int;
    let ghost h = height as int;
    let ghost fld = Field { open: open@, width: w, height: h, starts: starts@ };
    let ghost mut g0: int = 0;
    let mut fr = start_frontier(open, width, height, starts);
    let mut head: usize = 0;
    let mut found: Vec<Found> = Vec::new();
    let mut started = false;
    let mut left: u32 = 0;
    let m = starts.len();
    let n = open.len();
    proof {
        lemma_marked_len(fr.visited@);
    }
    loop
        invariant_except_break
            !window ==> found@.len() == 0,
            started ==> left >= 1,
            no_boost(starts@) && covers(order@) ==> forall|j: int|
                0 <= j < head ==> expanded(open@, w, h, marked(fr.visited@), #[trigger] fr.nodes@[j].x as int, fr.nodes@[j].y as int),
            found@.len() == 0 ==> forall|j: int| 0 <= j < head ==> !goal@[idx(#[trigger] fr.nodes@[j].x as int, fr.nodes@[j].y as int, w)],
            covers(order@) ==> hops_reached(fr, open@, w, h, head as int),
            fr.sweep() == swept(fld, order@, head as nat),
            found@.len() > 0 ==> started,
            !started ==> forall|j: int| 0 <= j < head ==> !goal_at(fld, order@, goal@, j),
            started ==> {
                &&& window
                &&& 0 <= g0 < head
                &&& goal_at(fld, order@, goal@, g0)
                &&& forall|j: int| 0 <= j < g0 ==> !goal_at(fld, order@, goal@, j)
                &&& head + left == g0 + 101
                &&& found_entries(found@) == goals_in(fld, order@, goal@, g0, head as int)
            },
        invariant
            fld == (Field { open: open@, width: w, height: h, starts: starts@ }),
            fr.inv(open@, w, h, starts@),
            m == starts@.len(),
            n == open@.len(),
            n == goal@.len(),
            w == width,
            h == height,
            order@.len() == 4,
            forall|i: int| 0 <= i < 4 ==> #[trigger] order@[i] < 4,
            head <= fr.nodes@.len(),
            forall|k: int| 0 <= k < found@.len() ==> found_ok(open@, goal@, w, h, starts@, #[trigger] found@[k]),
            !window ==> found@.len() <= 1,
            started ==> found@.len() > 0,
            forall|k2: int| 0 <= k2 < m ==> fr.visited@[idx(#[trigger] starts@[k2].0 as int, starts@[k2].1 as int, w)],
            forall|k: int| 0 <= k < starts@.len() ==> in_grid(#[trigger] starts@[k].0 as int, starts@[k].1 as int, w, h),
            monotone(fr.nodes@),
            head < fr.nodes@.len() ==> bounded(fr.nodes@, fr.nodes@[head as int].path@.len() + 1),
            starts_marked(fr, w, starts@),
            covers(order@) && found@.len() > 0 ==> nearest(open@, goal@, w, h, starts@, found@[0].path@.len()),
        ensures
            found@.len() == 0 ==> head == fr.nodes@.len(),
            found@.len() == 0 && no_boost(starts@) && covers(order@) ==> forall|j: int|
                0 <= j < head ==> expanded(open@, w, h, marked(fr.visited@), #[trigger] fr.nodes@[j].x as int, fr.nodes@[j].y as int),
            found@.len() == 0 ==> forall|j: int| 0 <= j < head ==> !goal@[idx(#[trigger] fr.nodes@[j].x as int, fr.nodes@[j].y as int, w)],
            found_entries(found@) == searched(fld, order@, goal@, window),
        decreases m + n - head,
    {
        proof {
            lemma_marked_len(fr.visited@);
        }
        if head >= fr.nodes.len() {
            proof {
                lemma_search_ends(fld, order@, goal@, head as nat, started, g0, found_entries(found@), window);
            }
            break;
        }
        if started {
            left = left - 1;
            if left == 0 {
                proof {
                    lemma_first_goal(fld, order@, goal@, g0);
                }
                break;
            }
        }
        let cur = head;
        assert(hop_ok(open@, w, h, starts@, fr.nodes@[cur as int], cur as int));
        let x = fr.nodes[cur].x;
        let y = fr.nodes[cur].y;
        proof {
            lemma_index(x as int, y as int, w, h);
        }
        let cell = (y * width + x) as usize;
        let ghost sw0 = fr.sweep();
        proof {
            assert(sw0.queue[cur as int] == fr.nodes@[cur as int].entry());
            assert(taken(fld, order@, cur as int) == fr.nodes@[cur as int].entry());
            assert(goal_at(fld, order@, goal@, cur as int) == goal@[cell as int]);
        }
        let ghost found0 = found@;
        head = head + 1;
        if goal[cell] {
            let path = copy_path(&fr.nodes[cur].path);
            let f = Found { start: fr.nodes[cur].start, x, y, path };
            proof {
                if covers(order@) && found@.len() == 0 {
                    lemma_nearest(fr, open@, goal@, w, h, starts@, cur as int);
                }
            }
            found.push(f);
            proof {
                assert(found_ok(open@, goal@, w, h, starts@, found@[found@.len() - 1]));
            }
            proof {
                assert(found@ =~= found0.push(f));
                assert(f@ == taken(fld, order@, cur as int));
                assert(found_entries(found@) =~= found_entries(found0).push(f@));
            }
            if !window {
                proof {
                    lemma_first_goal(fld, order@, goal@, cur as int);
                    assert(found_entries(found@) =~= seq![taken(fld, order@, cur as int)]);
                }
                break;
            }
            if !started {
                started = true;
                left = 100;
                proof {
                    g0 = cur as int;
                    assert(goals_in(fld, order@, goal@, g0, g0) =~= Seq::<Entry>::empty());
                    assert(found_entries(found0) =~= Seq::<Entry>::empty());
                }
            }
        }
        let ghost before = marked(fr.visited@);
        let ghost nodes0 = fr.nodes@;
        let ghost fr0 = fr;
        fr.expand(open, width, height, starts, order, cur);
        proof {
            assert(swept(fld, order@, (cur + 1) as nat) == try_dirs(fld, order@, sw0, cur as int, 4));
        }
        proof {
            lemma_frontier_grows(fr0, fr, open@, w, h, starts@, if covers(order@) { cur as int } else { 0 });
            if covers(order@) {
                assert forall|j: int, d: int| 0 <= j < head && 0 <= d < 4 implies #[trigger] fr.reached(
                    open@,
                    w,
                    h,
                    hop(open@, w, h, fr.nodes@[j].x as int, fr.nodes@[j].y as int, fr.nodes@[j].fast as int, d).0,
                    hop(open@, w, h, fr.nodes@[j].x as int, fr.nodes@[j].y as int, fr.nodes@[j].fast as int, d).1,
                    fr.nodes@[j].path@.len() + 1,
                ) by {
                    if j == cur {
                        assert(fr.nodes@[j] == fr0.nodes@[cur as int]);
                    }
                }
            }
            if head < fr.nodes@.len() {
                assert(fr.nodes@[cur as int].path@.len() <= fr.nodes@[head as int].path@.len());
                assert forall|j: int| 0 <= j < fr.nodes@.len() implies (#[trigger] fr.nodes@[j]).path@.len() <= fr.nodes@[head as int].path@.len()
                    + 1 by {
                }
            }
            let after = marked(fr.visited@);
            if no_boost(starts@) && covers(order@) {
                assert forall|j: int| 0 <= j < head implies expanded(open@, w, h, after, #[trigger] fr.nodes@[j].x as int, fr.nodes@[j].y as int) by {
                    assert(fr.nodes@[j] == nodes0[j]);
                    if j < cur {
                        lemma_expanded_mono(open@, w, h, before, after, nodes0[j].x as int, nodes0[j].y as int);
                    }
                }
            }
            assert forall|k2: int| 0 <= k2 < m implies fr.visited@[idx(#[trigger] starts@[k2].0 as int, starts@[k2].1 as int, w)] by {
                let i = idx(starts@[k2].0 as int, starts@[k2].1 as int, w);
                assert(in_grid(starts@[k2].0 as int, starts@[k2].1 as int, w, h));
                lemma_index(starts@[k2].0 as int, starts@[k2].1 as int, w, h);
                assert(before.contains(i));
            }
            if found@.len() == 0 {
                assert forall|j: int| 0 <= j < head implies !goal@[idx(#[trigger] fr.nodes@[j].x as int, fr.nodes@[j].y as int, w)] by {
                    assert(fr.nodes@[j] == nodes0[j]);
                }
            }
        }
    }
    proof {
        if found@.len() == 0 && no_boost(starts@) && covers(order@) {
            lemma_no_goal(open@, goal@, w, h, starts@, fr);
        }
    }
    found
}

/// With the queue spent after `head` entries, no later entry is taken, so
/// the goals given are those taken before.
proof fn lemma_search_ends(
    fld: Field,
    order: Seq<u8>,
    goal: Seq<bool>,
    head: nat,
    started: bool,
    g0: int,
    found: Seq<Entry>,
    window: bool,
)
    requires
        swept(fld, order, head).queue.len() <= head,
        !started ==> found.len() == 0 && forall|j: int| 0 <= j < head ==> !goal_at(fld, order, goal, j),
        started ==> {
            &&& window
            &&& 0 <= g0 < head <= g0 + 100
            &&& goal_at(fld, order, goal, g0)
            &&& forall|j: int| 0 <= j < g0 ==> !goal_at(fld, order, goal, j)
            &&& found == goals_in(fld, order, goal, g0, head as int)
        },
    ensures
        found == searched(fld, order, goal, window),
{
    assert forall|j: int| head <= j implies !goal_at(fld, order, goal, j) by {
        lemma_swept_done(fld, order, head, j as nat);
    }
    if started {
        lemma_first_goal(fld, order, goal, g0);
        lemma_goals_tail(fld, order, goal, g0, head as int, g0 + 100);
    } else if has_first_goal(fld, order, goal) {
        let k = first_goal(fld, order, goal);
        assert(goal_at(fld, order, goal, k));
        assert(false);
    }
}

/// The queue of the workers' own cells, each marked.
fn start_frontier(open: &Vec<bool>, width: i32, height: i32, starts: &Vec<(i32, i32, i32)>) -> (fr: Frontier)
    requires
        area_ok(width as int, height as int, open@.len() as int),
        starts@.len() < i32::MAX,
        forall|k: int| 0 <= k < starts@.len() ==> in_grid(#[trigger] starts@[k].0 as int, starts@[k].1 as int, width as int, height as int),
    ensures
        fr.inv(open@, width as int, height as int, starts@),
        fr.nodes@.len() == starts@.len(),
        forall|k: int| 0 <= k < starts@.len() ==> fr.visited@[idx(#[trigger] starts@[k].0 as int, starts@[k].1 as int, width as int)],
        forall|j: int| 0 <= j < fr.nodes@.len() ==> (#[trigger] fr.nodes@[j]).path@.len() == 0,
        starts_marked(fr, width as int, starts@),
        fr.sweep() == seeded(Field { open: open@, width: width as int, height: height as int, starts: starts@ }, starts@.len()),
{
    let ghost w = width as int;
    let ghost h = height as int;
    let ghost fld = Field { open: open@, width: w, height: h, starts: starts@ };
    let n = open.len();
    let mut visited: Vec<bool> = Vec::new();
    for i in 0..n
        invariant
            visited@.len() == i,
            forall|j: int| 0 <= j < i ==> !#[trigger] visited@[j],
    {
        visited.push(false);
    }
    proof {
        assert(marked(visited@) =~= Set::<int>::empty());
    }
    let mut fr = Frontier { visited, nodes: Vec::new(), owner: Ghost(Map::empty()) };
    proof {
        assert(fr.sweep().queue =~= seeded(fld, 0).queue);
        assert(fr.sweep().seen =~= seeded(fld, 0).seen);
    }
    let m = starts.len();
    for k in 0..m
        invariant
            m == starts@.len(),
            fr.inv(open@, w, h, starts@),
            fr.nodes@.len() == k,
            w == width,
            h == height,
            forall|k2: int| 0 <= k2 < starts@.len() ==> in_grid(#[trigger] starts@[k2].0 as int, starts@[k2].1 as int, w, h),
            forall|k2: int| 0 <= k2 < k ==> fr.visited@[idx(#[trigger] starts@[k2].0 as int, starts@[k2].1 as int, w)],
            forall|j: int| 0 <= j < fr.nodes@.len() ==> (#[trigger] fr.nodes@[j]).path@.len() == 0,
            forall|k2: int| 0 <= k2 < k ==> fr.owner_len(idx(#[trigger] starts@[k2].0 as int, starts@[k2].1 as int, w)) == 0,
            fld == (Field { open: open@, width: w, height: h, starts: starts@ }),
            fr.sweep() == seeded(fld, k as nat),
    {
        let (x, y, f) = starts[k];
        let ghost prev = fr;
        proof {
            assert(in_grid(starts@[k as int].0 as int, starts@[k as int].1 as int, w, h));
            lemma_index(x as int, y as int, w, h);
            lemma_marked_len(fr.visited@);
            if !fr.visited@[idx(x as int, y as int, w)] {
                lemma_marked_set(fr.visited@, idx(x as int, y as int, w));
            } else {
                assert(fr.visited@.update(idx(x as int, y as int, w), true) =~= fr.visited@);
            }
        }
        let j = (y * width + x) as usize;
        fr.visited.set(j, true);
        proof {
            fr.owner@ = fr.owner@.insert(j as int, k as int);
        }
        fr.nodes.push(Hop { start: k, x, y, fast: f as i64, path: Vec::new() });
        proof {
            let sp = seeded(fld, k as nat);
            assert(fr.sweep().queue =~= sp.queue.push(Entry { start: k as int, x: x as int, y: y as int, path: Seq::empty() }));
            assert(seeded(fld, (k + 1) as nat).queue == sp.queue.push(
                Entry { start: k as int, x: x as int, y: y as int, path: Seq::empty() },
            ));
            assert(hop_ok(open@, w, h, starts@, fr.nodes@[k as int], k as int));
            assert forall|k2: int| 0 <= k2 < k + 1 implies fr.visited@[idx(#[trigger] starts@[k2].0 as int, starts@[k2].1 as int, w)] by {
                if k2 < k {
                    lemma_index(starts@[k2].0 as int, starts@[k2].1 as int, w, h);
                }
            }
            assert forall|k2: int| 0 <= k2 < k + 1 implies fr.owner_len(idx(#[trigger] starts@[k2].0 as int, starts@[k2].1 as int, w))
                == 0 by {
                let i = idx(starts@[k2].0 as int, starts@[k2].1 as int, w);
                if i != j {
                    assert(fr.owner@[i] == prev.owner@[i]);
                    lemma_index(starts@[k2].0 as int, starts@[k2].1 as int, w, h);
                    assert(prev.visited@[i]);
                    assert(fr.nodes@[prev.owner@[i]] == prev.nodes@[prev.owner@[i]]);
                }
            }
        }
    }
    proof {
        assert(starts_marked(fr, w, starts@));
    }
    fr
}

/// Once the queue is spent with no goal met and no boost, every cell marked
/// has its open neighbours marked, so no route leaves the marked cells, and
/// none of them is a goal.
proof fn lemma_no_goal(open: Seq<bool>, goal: Seq<bool>, w: int, h: int, starts: Seq<(i32, i32, i32)>, fr: Frontier)
    requires
        fr.inv(open, w, h, starts),
        goal.len() == open.len(),
        no_boost(starts),
        forall|k2: int| 0 <= k2 < starts.len() ==> in_grid(#[trigger] starts[k2].0 as int, starts[k2].1 as int, w, h),
        forall|k2: int| 0 <= k2 < starts.len() ==> fr.visited@[idx(#[trigger] starts[k2].0 as int, starts[k2].1 as int, w)],
        forall|j: int| 0 <= j < fr.nodes@.len() ==> expanded(open, w, h, marked(fr.visited@), #[trigger] fr.nodes@[j].x as int, fr.nodes@[j].y as int),
        forall|j: int| 0 <= j < fr.nodes@.len() ==> !goal[idx(#[trigger] fr.nodes@[j].x as int, fr.nodes@[j].y as int, w)],
    ensures
        no_goal_reachable(open, goal, w, h, starts),
{
    let vis = marked(fr.visited@);
    assert(closed(open, w, h, vis)) by {
        assert forall|x: int, y: int| in_grid(x, y, w, h) && #[trigger] vis.contains(idx(x, y, w)) implies expanded(open, w, h, vis, x, y) by {
            let j = fr.owner@[idx(x, y, w)];
            let hp = fr.nodes@[j];
            assert(hop_ok(open, w, h, starts, hp, j));
            lemma_index_injective(hp.x as int, hp.y as int, x, y, w);
        }
    }
    assert forall|k: int, path: Seq<u8>|
        0 <= k < starts.len() && (#[trigger] walk_to(open, w, h, starts[k].0 as int, starts[k].1 as int, starts[k].2 as int, path)) is Some
            implies !goal[idx(
        (walk_to(open, w, h, starts[k].0 as int, starts[k].1 as int, starts[k].2 as int, path)->0).0,
        (walk_to(open, w, h, starts[k].0 as int, starts[k].1 as int, starts[k].2 as int, path)->0).1,
        w,
    )] by {
        let s0 = starts[k];
        assert(s0.2 <= 0);
        assert(in_grid(s0.0 as int, s0.1 as int, w, h));
        lemma_index(s0.0 as int, s0.1 as int, w, h);
        assert(vis.contains(idx(s0.0 as int, s0.1 as int, w)));
        lemma_walk_stays(open, w, h, vis, s0.0 as int, s0.1 as int, s0.2 as int, path);
        let q = walk_to(open, w, h, s0.0 as int, s0.1 as int, s0.2 as int, path)->0;
        lemma_index(q.0, q.1, w, h);
        let j = fr.owner@[idx(q.0, q.1, w)];
        let hp = fr.nodes@[j];
        assert(hop_ok(open, w, h, starts, hp, j));
        assert(!goal[idx(hp.x as int, hp.y as int, w)]);
    }
}

/// A route that can be walked can be walked up to each of its steps.
proof fn lemma_walk_prefix(open: Seq<bool>, w: int, h: int, x: int, y: int, fast: int, path: Seq<u8>, n: int)
    requires
        walk_to(open, w, h, x, y, fast, path) is Some,
        0 <= n <= path.len(),
    ensures
        walk_to(open, w, h, x, y, fast, path.take(n)) is Some,
    decreases path.len(),
{
    if n < path.len() {
        lemma_walk_prefix(open, w, h, x, y, fast, path.drop_last(), n);
        assert(path.drop_last().take(n) =~= path.take(n));
    } else {
        assert(path.take(n) =~= path);
    }
}

/// Every cell of the queue that lies `d` ways from an expanded entry is
/// marked by a route at most one step longer than the entry's.
spec fn hops_reached(fr: Frontier, open: Seq<bool>, w: int, h: int, upto: int) -> bool {
    forall|j: int, d: int|
        0 <= j < upto && 0 <= d < 4 ==> #[trigger] fr.reached(
            open,
            w,
            h,
            hop(open, w, h, fr.nodes@[j].x as int, fr.nodes@[j].y as int, fr.nodes@[j].fast as int, d).0,
            hop(open, w, h, fr.nodes@[j].x as int, fr.nodes@[j].y as int, fr.nodes@[j].fast as int, d).1,
            fr.nodes@[j].path@.len() + 1,
        )
}

/// The workers' cells are marked by their empty routes.
spec fn starts_marked(fr: Frontier, w: int, starts: Seq<(i32, i32, i32)>) -> bool {
    forall|k: int|
        0 <= k < starts.len() ==> fr.visited@[idx(#[trigger] starts[k].0 as int, starts[k].1 as int, w)] && fr.owner_len(
            idx(starts[k].0 as int, starts[k].1 as int, w),
        ) == 0
}

/// Without boost, the cell `n` steps along a route from a worker is marked
/// by a route of at most `n` steps, as long as `n` is at most the length of
/// the route of entry `cur`, whose predecessors are all expanded.
proof fn lemma_marked_along(
    fr: Frontier,
    open: Seq<bool>,
    w: int,
    h: int,
    starts: Seq<(i32, i32, i32)>,
    cur: int,
    k: int,
    path: Seq<u8>,
    n: int,
)
    requires
        fr.inv(open, w, h, starts),
        monotone(fr.nodes@),
        0 <= cur < fr.nodes@.len(),
        hops_reached(fr, open, w, h, cur),
        starts_marked(fr, w, starts),
        forall|k2: int| 0 <= k2 < starts.len() ==> in_grid(#[trigger] starts[k2].0 as int, starts[k2].1 as int, w, h),
        no_boost(starts),
        0 <= k < starts.len(),
        0 <= n <= path.len(),
        n <= fr.nodes@[cur].path@.len(),
        walk_to(open, w, h, starts[k].0 as int, starts[k].1 as int, starts[k].2 as int, path.take(n)) is Some,
    ensures
        ({
            let q = walk_to(open, w, h, starts[k].0 as int, starts[k].1 as int, starts[k].2 as int, path.take(n))->0;
            in_grid(q.0, q.1, w, h) && fr.visited@[idx(q.0, q.1, w)] && fr.owner_len(idx(q.0, q.1, w)) <= n
        }),
    decreases n,
{
    let s0 = starts[k];
    if n == 0 {
        assert(path.take(0) =~= Seq::<u8>::empty());
        assert(in_grid(s0.0 as int, s0.1 as int, w, h));
    } else {
        let p1 = path.take(n);
        assert(p1.drop_last() =~= path.take(n - 1));
        lemma_marked_along(fr, open, w, h, starts, cur, k, path, n - 1);
        let q0 = walk_to(open, w, h, s0.0 as int, s0.1 as int, s0.2 as int, path.take(n - 1))->0;
        lemma_index(q0.0, q0.1, w, h);
        let i0 = idx(q0.0, q0.1, w);
        let j = fr.owner@[i0];
        let hp = fr.nodes@[j];
        assert(hop_ok(open, w, h, starts, hp, j));
        assert(starts[hp.start as int].2 <= 0);
        lemma_index_injective(hp.x as int, hp.y as int, q0.0, q0.1, w);
        if j >= cur {
            assert(fr.nodes@[cur].path@.len() <= fr.nodes@[j].path@.len());
        }
        let d = p1.last() as int;
        let dd = if d < 4 { d } else { 3 };
        assert(step_vec(d) == step_vec(dd));
        assert(fr.reached(
            open,
            w,
            h,
            hop(open, w, h, hp.x as int, hp.y as int, hp.fast as int, dd).0,
            hop(open, w, h, hp.x as int, hp.y as int, hp.fast as int, dd).1,
            hp.path@.len() + 1,
        ));
        let q = walk_to(open, w, h, s0.0 as int, s0.1 as int, s0.2 as int, p1)->0;
        assert(q == hop(open, w, h, hp.x as int, hp.y as int, hp.fast as int, dd));
    }
}

/// The first goal taken from the queue, with no goal and every entry
/// expanded before it, lies at the end of a shortest route to a goal.
proof fn lemma_nearest(fr: Frontier, open: Seq<bool>, goal: Seq<bool>, w: int, h: int, starts: Seq<(i32, i32, i32)>, cur: int)
    requires
        fr.inv(open, w, h, starts),
        goal.len() == open.len(),
        monotone(fr.nodes@),
        0 <= cur < fr.nodes@.len(),
        hops_reached(fr, open, w, h, cur),
        starts_marked(fr, w, starts),
        forall|k2: int| 0 <= k2 < starts.len() ==> in_grid(#[trigger] starts[k2].0 as int, starts[k2].1 as int, w, h),
        forall|j: int| 0 <= j < cur ==> !goal[idx(#[trigger] fr.nodes@[j].x as int, fr.nodes@[j].y as int, w)],
    ensures
        nearest(open, goal, w, h, starts, fr.nodes@[cur].path@.len()),
{
    let len = fr.nodes@[cur].path@.len();
    if no_boost(starts) {
        assert forall|k: int, path: Seq<u8>|
            0 <= k < starts.len() && (#[trigger] walk_to(open, w, h, starts[k].0 as int, starts[k].1 as int, starts[k].2 as int, path))
                is Some && goal[idx(
                (walk_to(open, w, h, starts[k].0 as int, starts[k].1 as int, starts[k].2 as int, path)->0).0,
                (walk_to(open, w, h, starts[k].0 as int, starts[k].1 as int, starts[k].2 as int, path)->0).1,
                w,
            )] implies len <= path.len() by {
            if path.len() < len {
                assert(path.take(path.len() as int) =~= path);
                lemma_marked_along(fr, open, w, h, starts, cur, k, path, path.len() as int);
                let q = walk_to(open, w, h, starts[k].0 as int, starts[k].1 as int, starts[k].2 as int, path)->0;
                lemma_index(q.0, q.1, w, h);
                let j = fr.owner@[idx(q.0, q.1, w)];
                let hp = fr.nodes@[j];
                assert(hop_ok(open, w, h, starts, hp, j));
                lemma_index_injective(hp.x as int, hp.y as int, q.0, q.1, w);
                if j >= cur {
                    assert(fr.nodes@[cur].path@.len() <= fr.nodes@[j].path@.len());
                }
                assert(!goal[idx(fr.nodes@[j].x as int, fr.nodes@[j].y as int, w)]);
            }
        }
    }
}

/// What the queue's expanded entries reached stays reached as the queue
/// grows: marks are kept, with the entries that made them.
proof fn lemma_frontier_grows(f1: Frontier, f2: Frontier, open: Seq<bool>, w: int, h: int, starts: Seq<(i32, i32, i32)>, upto: int)
    requires
        f1.inv(open, w, h, starts),
        f2.inv(open, w, h, starts),
        marked(f1.visited@).subset_of(marked(f2.visited@)),
        forall|i: int| 0 <= i < f1.visited@.len() && #[trigger] f1.visited@[i] ==> f2.owner@[i] == f1.owner@[i],
        f2.nodes@.len() >= f1.nodes@.len(),
        forall|j: int| 0 <= j < f1.nodes@.len() ==> f2.nodes@[j] == f1.nodes@[j],
        0 <= upto <= f1.nodes@.len(),
        hops_reached(f1, open, w, h, upto),
        starts_marked(f1, w, starts),
        forall|k2: int| 0 <= k2 < starts.len() ==> in_grid(#[trigger] starts[k2].0 as int, starts[k2].1 as int, w, h),
    ensures
        hops_reached(f2, open, w, h, upto),
        starts_marked(f2, w, starts),
{
    assert forall|j: int, d: int| 0 <= j < upto && 0 <= d < 4 implies #[trigger] f2.reached(
        open,
        w,
        h,
        hop(open, w, h, f2.nodes@[j].x as int, f2.nodes@[j].y as int, f2.nodes@[j].fast as int, d).0,
        hop(open, w, h, f2.nodes@[j].x as int, f2.nodes@[j].y as int, f2.nodes@[j].fast as int, d).1,
        f2.nodes@[j].path@.len() + 1,
    ) by {
        let hp = f1.nodes@[j];
        assert(f2.nodes@[j] == hp);
        let q = hop(open, w, h, hp.x as int, hp.y as int, hp.fast as int, d);
        assert(f1.reached(open, w, h, q.0, q.1, hp.path@.len() + 1));
        if !blocked(open, w, h, q.0, q.1) {
            lemma_index(q.0, q.1, w, h);
            let i = idx(q.0, q.1, w);
            assert(marked(f1.visited@).contains(i));
            assert(marked(f2.visited@).contains(i));
            let o = f1.owner@[i];
            assert(f2.nodes@[o] == f1.nodes@[o]);
        }
    }
    assert forall|k: int| 0 <= k < starts.len() implies f2.visited@[idx(#[trigger] starts[k].0 as int, starts[k].1 as int, w)]
        && f2.owner_len(idx(starts[k].0 as int, starts[k].1 as int, w)) == 0 by {
        assert(in_grid(starts[k].0 as int, starts[k].1 as int, w, h));
        lemma_index(starts[k].0 as int, starts[k].1 as int, w, h);
        let i = idx(starts[k].0 as int, starts[k].1 as int, w);
        assert(f1.visited@[i]);
        assert(marked(f1.visited@).contains(i));
        assert(marked(f2.visited@).contains(i));
        let o = f1.owner@[i];
        assert(f2.nodes@[o] == f1.nodes@[o]);
    }
}

/// A copy of a route.
fn copy_path(path: &Vec<u8>) -> (r: Vec<u8>)
    ensures
        r@ == path@,
{
    let mut r: Vec<u8> = Vec::new();
    let n = path.len();
    for i in 0..n
        invariant
            n == path@.len(),
            r@ == path@.take(i as int),
    {
        r.push(path[i]);
        proof {
            assert(path@.take(i + 1) =~= path@.take(i as int).push(path@[i as int]));
        }
    }
    proof {
        assert(path@.take(n as int) =~= path@);
    }
    r
}

} // verus!
