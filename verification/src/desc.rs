//! The task description format: the mine's contour, the worker's cell, the
//! obstacles' contours and the boosters, separated by `#`; a contour is a
//! comma-separated list of points `(x,y)`, contours and boosters are
//! separated by `;`, and a booster is a letter followed by its point.
use vstd::prelude::*;

verus! {

pub open spec fn is_digit(b: u8) -> bool {
    48 <= b <= 57
}

/// `s` holds a digit at `m`.
pub open spec fn digit_at(s: Seq<u8>, m: int) -> bool {
    0 <= m < s.len() && is_digit(s[m])
}

/// The end of the run of digits that starts at `i`.
pub open spec fn digits_end(s: Seq<u8>, i: int) -> int
    decreases s.len() - i,
{
    if 0 <= i < s.len() && is_digit(s[i]) {
        digits_end(s, i + 1)
    } else {
        i
    }
}

/// The value of the decimal digits `s[i..j]`.
pub open spec fn value_of(s: Seq<u8>, i: int, j: int) -> nat
    decreases j - i,
{
    if j <= i {
        0
    } else {
        value_of(s, i, j - 1) * 10 + (s[j - 1] - 48) as nat
    }
}

/// A number at `i`, of at most 31 bits: its value and where it ends.
pub open spec fn number_at(s: Seq<u8>, i: int) -> Option<(nat, int)> {
    let j = digits_end(s, i);
    if j == i || value_of(s, i, j) > i32::MAX {
        None
    } else {
        Some((value_of(s, i, j), j))
    }
}

/// Whether `s` holds the byte `b` at `i`.
pub open spec fn byte_at(s: Seq<u8>, i: int, b: u8) -> bool {
    0 <= i < s.len() && s[i] == b
}

/// A point `(x,y)` at `i`: its coordinates and where it ends.
pub open spec fn point_at(s: Seq<u8>, i: int) -> Option<((nat, nat), int)> {
    if byte_at(s, i, 40) {
        match number_at(s, i + 1) {
            Some((x, j)) => if byte_at(s, j, 44) {
                match number_at(s, j + 1) {
                    Some((y, k)) => if byte_at(s, k, 41) {
                        Some(((x, y), k + 1))
                    } else {
                        None
                    },
                    None => None,
                }
            } else {
                None
            },
            None => None,
        }
    } else {
        None
    }
}

/// A contour at `i`: one or more points separated by commas, and where it
/// ends.
pub open spec fn contour_at(s: Seq<u8>, i: int) -> Option<(Seq<(nat, nat)>, int)>
    decreases s.len() - i,
{
    match point_at(s, i) {
        Some((p, j)) => if byte_at(s, j, 44) && j > i {
            match contour_at(s, j + 1) {
                Some((ps, k)) => Some((seq![p] + ps, k)),
                None => None,
            }
        } else {
            Some((seq![p], j))
        },
        None => None,
    }
}

/// One or more contours at `i`, separated by semicolons, and where they end.
pub open spec fn contours_at(s: Seq<u8>, i: int) -> Option<(Seq<Seq<(nat, nat)>>, int)>
    decreases s.len() - i,
{
    match contour_at(s, i) {
        Some((c, j)) => if byte_at(s, j, 59) && j > i {
            match contours_at(s, j + 1) {
                Some((cs, k)) => Some((seq![c] + cs, k)),
                None => None,
            }
        } else {
            Some((seq![c], j))
        },
        None => None,
    }
}

/// A booster at `i`: its letter and point, and where it ends.
pub open spec fn booster_at(s: Seq<u8>, i: int) -> Option<((u8, nat, nat), int)> {
    if 0 <= i < s.len() {
        match point_at(s, i + 1) {
            Some((p, j)) => Some(((s[i], p.0, p.1), j)),
            None => None,
        }
    } else {
        None
    }
}

/// One or more boosters at `i`, separated by semicolons, and where they end.
pub open spec fn boosters_at(s: Seq<u8>, i: int) -> Option<(Seq<(u8, nat, nat)>, int)>
    decreases s.len() - i,
{
    match booster_at(s, i) {
        Some((b, j)) => if byte_at(s, j, 59) && j > i {
            match boosters_at(s, j + 1) {
                Some((bs, k)) => Some((seq![b] + bs, k)),
                None => None,
            }
        } else {
            Some((seq![b], j))
        },
        None => None,
    }
}

/// The parts of a description.
pub struct DescModel {
    pub mine: Seq<(nat, nat)>,
    pub worker: (nat, nat),
    pub obstacles: Seq<Seq<(nat, nat)>>,
    pub boosters: Seq<(u8, nat, nat)>,
}

/// What the whole of `s` describes: the mine's contour, `#`, the worker's
/// point, `#`, the obstacles (none where the part is empty), `#`, the
/// boosters (none where the part is empty).
pub open spec fn desc_of(s: Seq<u8>) -> Option<DescModel> {
    match contour_at(s, 0) {
        Some((mine, a)) => if byte_at(s, a, 35) {
            match point_at(s, a + 1) {
                Some((worker, b)) => if byte_at(s, b, 35) {
                    let obs = if byte_at(s, b + 1, 35) {
                        Some((Seq::<Seq<(nat, nat)>>::empty(), b + 1))
                    } else {
                        contours_at(s, b + 1)
                    };
                    match obs {
                        Some((obstacles, c)) => if byte_at(s, c, 35) {
                            let bst = if c + 1 == s.len() {
                                Some((Seq::<(u8, nat, nat)>::empty(), c + 1))
                            } else {
                                boosters_at(s, c + 1)
                            };
                            match bst {
                                Some((boosters, d)) => if d == s.len() {
                                    Some(DescModel { mine, worker, obstacles, boosters })
                                } else {
                                    None
                                },
                                None => None,
                            }
                        } else {
                            None
                        },
                        None => None,
                    }
                } else {
                    None
                },
                None => None,
            }
        } else {
            None
        },
        None => None,
    }
}


proof fn lemma_digits_end(s: Seq<u8>, i: int, j: int)
    requires
        0 <= i <= j,
        forall|m: int| i <= m < j ==> #[trigger] digit_at(s, m),
    ensures
        digits_end(s, i) == digits_end(s, j),
        digits_end(s, i) >= j,
    decreases j - i,
{
    if i < j {
        assert(digit_at(s, i));
        lemma_digits_end(s, i + 1, j);
    } else {
        lemma_digits_end_ge(s, j);
    }
}

proof fn lemma_digits_end_ge(s: Seq<u8>, i: int)
    ensures
        digits_end(s, i) >= i,
        digits_end(s, i) <= i || (0 <= i < s.len() && is_digit(s[i])),
        i >= 0 ==> (digits_end(s, i) <= s.len() || digits_end(s, i) == i),
    decreases s.len() - i,
{
    if 0 <= i < s.len() && is_digit(s[i]) {
        lemma_digits_end_ge(s, i + 1);
    }
}

proof fn lemma_value_grows(s: Seq<u8>, i: int, j: int, k: int)
    requires
        i <= j <= k,
        forall|m: int| i <= m < k ==> #[trigger] digit_at(s, m),
    ensures
        value_of(s, i, j) <= value_of(s, i, k),
    decreases k - j,
{
    if j < k {
        lemma_value_grows(s, i, j, k - 1);
        assert(digit_at(s, k - 1));
    }
}

/// The number at `i`, as `number_at` gives it.
fn number(s: &[u8], i: usize) -> (r: Option<(usize, usize)>)
    ensures
        match number_at(s@, i as int) {
            Some((v, j)) => i < j <= s@.len() && v <= i32::MAX && r == Some((v as usize, j as usize)),
            None => r is None,
        },
{
    let n = s.len();
    let mut j = i;
    let mut val: u64 = 0;
    proof {
        lemma_digits_end(s@, i as int, i as int);
    }
    while j < n && 48 <= s[j] && s[j] <= 57
        invariant
            n == s@.len(),
            i <= j,
            j <= n || j == i,
            forall|m: int| i <= m < j ==> #[trigger] digit_at(s@, m),
            digits_end(s@, i as int) == digits_end(s@, j as int),
            val == value_of(s@, i as int, j as int),
            val <= i32::MAX,
        decreases n - j,
    {
        let d = (s[j] - 48) as u64;
        val = val * 10 + d;
        j = j + 1;
        proof {
            lemma_digits_end(s@, i as int, j as int);
        }
        if val > 0x7fff_ffff {
            proof {
                lemma_digits_end_ge(s@, j as int);
                let e = digits_end(s@, i as int);
                assert forall|m: int| i <= m < e implies #[trigger] digit_at(s@, m) by {
                    lemma_digits_prefix(s@, i as int, m);
                }
                lemma_value_grows(s@, i as int, j as int, e);
            }
            return None;
        }
    }
    proof {
        assert(digits_end(s@, j as int) == j as int);
    }
    if j == i {
        return None;
    }
    Some((val as usize, j))
}

proof fn lemma_digits_prefix(s: Seq<u8>, i: int, m: int)
    requires
        0 <= i <= m < digits_end(s, i),
    ensures
        digit_at(s, m),
    decreases m - i,
{
    if i < s.len() && is_digit(s[i]) {
        if m > i {
            lemma_digits_prefix(s, i + 1, m);
        }
    }
}

/// The point at `i`, as `point_at` gives it.
fn point(s: &[u8], i: usize) -> (r: Option<((usize, usize), usize)>)
    ensures
        match point_at(s@, i as int) {
            Some((p, j)) => i < j <= s@.len() && p.0 <= i32::MAX && p.1 <= i32::MAX && r == Some(((p.0 as usize, p.1 as usize), j as usize)),
            None => r is None,
        },
{
    let n = s.len();
    if !(i < n && s[i] == 40) {
        return None;
    }
    match number(s, i + 1) {
        Some((x, j)) => {
            if !(j < n && s[j] == 44) {
                return None;
            }
            match number(s, j + 1) {
                Some((y, k)) => {
                    if !(k < n && s[k] == 41) {
                        return None;
                    }
                    Some(((x, y), k + 1))
                },
                None => None,
            }
        },
        None => None,
    }
}

/// A point seen as the pair of its natural coordinates.
pub open spec fn nat_point(p: (usize, usize)) -> (nat, nat) {
    (p.0 as nat, p.1 as nat)
}

/// The contour at `i`, as `contour_at` gives it.
fn contour(s: &[u8], i: usize) -> (r: Option<(Vec<(usize, usize)>, usize)>)
    ensures
        match contour_at(s@, i as int) {
            Some((ps, j)) => r is Some && nat_contour((r->0).0) == ps && (r->0).1 == j,
            None => r is None,
        },
{
    let n = s.len();
    let mut acc: Vec<(usize, usize)> = Vec::new();
    let mut cur = i;
    loop
        invariant
            n == s@.len(),
            i <= cur,
            contour_at(s@, i as int) == match contour_at(s@, cur as int) {
                Some((ps, k)) => Some((acc@.map_values(|p: (usize, usize)| nat_point(p)) + ps, k)),
                None => None::<(Seq<(nat, nat)>, int)>,
            },
        decreases n + 1 - cur,
    {
        match point(s, cur) {
            Some((p, j)) => {
                if j < n && s[j] == 44 && j > cur {
                    let ghost before = acc@;
                    acc.push(p);
                    proof {
                        assert(acc@.map_values(|p: (usize, usize)| nat_point(p)) =~= before.map_values(
                            |p: (usize, usize)| nat_point(p),
                        ) + seq![nat_point(p)]);
                        assert forall|ps: Seq<(nat, nat)>| #![auto] before.map_values(|p: (usize, usize)| nat_point(p)) + (seq![nat_point(p)] + ps)
                            =~= acc@.map_values(|p: (usize, usize)| nat_point(p)) + ps by {}
                    }
                    cur = j + 1;
                } else {
                    let ghost before = acc@;
                    acc.push(p);
                    proof {
                        assert(acc@.map_values(|p: (usize, usize)| nat_point(p)) =~= before.map_values(
                            |p: (usize, usize)| nat_point(p),
                        ) + seq![nat_point(p)]);
                    }
                    return Some((acc, j));
                }
            },
            None => {
                return None;
            },
        }
    }
}


/// A contour seen as its natural points.
pub open spec fn nat_contour(c: Vec<(usize, usize)>) -> Seq<(nat, nat)> {
    c@.map_values(|p: (usize, usize)| nat_point(p))
}

/// The contours at `i`, as `contours_at` gives them.
fn contours(s: &[u8], i: usize) -> (r: Option<(Vec<Vec<(usize, usize)>>, usize)>)
    ensures
        match contours_at(s@, i as int) {
            Some((cs, j)) => r is Some && (r->0).0@.map_values(|c: Vec<(usize, usize)>| nat_contour(c)) == cs && (r->0).1 == j,
            None => r is None,
        },
{
    let n = s.len();
    let mut acc: Vec<Vec<(usize, usize)>> = Vec::new();
    let mut cur = i;
    loop
        invariant
            n == s@.len(),
            i <= cur,
            contours_at(s@, i as int) == match contours_at(s@, cur as int) {
                Some((cs, k)) => Some((acc@.map_values(|c: Vec<(usize, usize)>| nat_contour(c)) + cs, k)),
                None => None::<(Seq<Seq<(nat, nat)>>, int)>,
            },
        decreases n + 1 - cur,
    {
        match contour(s, cur) {
            Some((c, j)) => {
                let ghost before = acc@;
                let ghost cv = nat_contour(c);
                let more = j < n && s[j] == 59 && j > cur;
                acc.push(c);
                proof {
                    assert(acc@.map_values(|c: Vec<(usize, usize)>| nat_contour(c)) =~= before.map_values(
                        |c: Vec<(usize, usize)>| nat_contour(c),
                    ) + seq![cv]);
                    assert forall|cs: Seq<Seq<(nat, nat)>>| #![auto] before.map_values(|c: Vec<(usize, usize)>| nat_contour(c)) + (seq![cv] + cs)
                        =~= acc@.map_values(|c: Vec<(usize, usize)>| nat_contour(c)) + cs by {}
                }
                if more {
                    cur = j + 1;
                } else {
                    return Some((acc, j));
                }
            },
            None => {
                return None;
            },
        }
    }
}

/// A booster seen as its letter and natural coordinates.
pub open spec fn nat_booster(b: (u8, usize, usize)) -> (u8, nat, nat) {
    (b.0, b.1 as nat, b.2 as nat)
}

/// The boosters at `i`, as `boosters_at` gives them.
fn boosters(s: &[u8], i: usize) -> (r: Option<(Vec<(u8, usize, usize)>, usize)>)
    ensures
        match boosters_at(s@, i as int) {
            Some((bs, j)) => r is Some && (r->0).0@.map_values(|b: (u8, usize, usize)| nat_booster(b)) == bs && (r->0).1 == j,
            None => r is None,
        },
{
    let n = s.len();
    let mut acc: Vec<(u8, usize, usize)> = Vec::new();
    let mut cur = i;
    loop
        invariant
            n == s@.len(),
            i <= cur,
            boosters_at(s@, i as int) == match boosters_at(s@, cur as int) {
                Some((bs, k)) => Some((acc@.map_values(|b: (u8, usize, usize)| nat_booster(b)) + bs, k)),
                None => None::<(Seq<(u8, nat, nat)>, int)>,
            },
        decreases n + 1 - cur,
    {
        if cur >= n {
            return None;
        }
        let letter = s[cur];
        match point(s, cur + 1) {
            Some((p, j)) => {
                let b = (letter, p.0, p.1);
                let ghost before = acc@;
                let more = j < n && s[j] == 59 && j > cur;
                acc.push(b);
                proof {
                    assert(acc@.map_values(|b: (u8, usize, usize)| nat_booster(b)) =~= before.map_values(
                        |b: (u8, usize, usize)| nat_booster(b),
                    ) + seq![nat_booster(b)]);
                    assert forall|bs: Seq<(u8, nat, nat)>| #![auto] before.map_values(|b: (u8, usize, usize)| nat_booster(b)) + (seq![nat_booster(b)] + bs)
                        =~= acc@.map_values(|b: (u8, usize, usize)| nat_booster(b)) + bs by {}
                }
                if more {
                    cur = j + 1;
                } else {
                    return Some((acc, j));
                }
            },
            None => {
                return None;
            },
        }
    }
}

/// The parts of a task description: the mine's contour, the worker's
/// point, the obstacles' contours and the boosters with their letters.
pub struct Desc {
    pub mine: Vec<(usize, usize)>,
    pub worker: (usize, usize),
    pub obstacles: Vec<Vec<(usize, usize)>>,
    pub boosters: Vec<(u8, usize, usize)>,
}

impl View for Desc {
    type V = DescModel;

    open spec fn view(&self) -> DescModel {
        DescModel {
            mine: nat_contour(self.mine),
            worker: nat_point(self.worker),
            obstacles: self.obstacles@.map_values(|c: Vec<(usize, usize)>| nat_contour(c)),
            boosters: self.boosters@.map_values(|b: (u8, usize, usize)| nat_booster(b)),
        }
    }
}

/// Why a description was refused.
#[derive(Clone, Copy, PartialEq, Eq, Structural, Debug)]
pub enum DescError {
    /// The text does not follow the format.
    Syntax,
    /// A booster's letter names no booster.
    UnknownBooster(u8),
    /// A booster lies outside the mine, on the worker or on another booster.
    Conflict(usize, usize),
    /// A point lies outside the grid that the mine spans.
    OutOfMap(usize, usize),
    /// The grid would be empty, or too large to index in 31 bits.
    TooLarge,
    /// A contour has an odd number of corners, fewer than two, or a corner
    /// outside the grid.
    BadContour,
}

/// Reads a task description. A text that does not follow the format, or
/// with a number of more than 31 bits, is refused.
pub fn parse_desc(text: &[u8]) -> (r: Result<Desc, DescError>)
    ensures
        match desc_of(text@) {
            Some(d) => r is Ok && (r->Ok_0)@ == d,
            None => r == Err::<Desc, DescError>(DescError::Syntax),
        },
{
    let n = text.len();
    let (mine, a) = match contour(text, 0) {
        Some(v) => v,
        None => return Err(DescError::Syntax),
    };
    if !(a < n && text[a] == 35) {
        return Err(DescError::Syntax);
    }
    let (worker, b) = match point(text, a + 1) {
        Some(v) => v,
        None => return Err(DescError::Syntax),
    };
    if !(b < n && text[b] == 35) {
        return Err(DescError::Syntax);
    }
    let (obstacles, c) = if b + 1 < n && text[b + 1] == 35 {
        (Vec::new(), b + 1)
    } else {
        match contours(text, b + 1) {
            Some(v) => v,
            None => return Err(DescError::Syntax),
        }
    };
    proof {
        if b + 1 < n && text@[b + 1] == 35 {
            assert(obstacles@.map_values(|c: Vec<(usize, usize)>| nat_contour(c)) =~= Seq::<Seq<(nat, nat)>>::empty());
        }
    }
    if !(c < n && text[c] == 35) {
        return Err(DescError::Syntax);
    }
    let (boosts, d) = if c + 1 == n {
        (Vec::new(), c + 1)
    } else {
        match boosters(text, c + 1) {
            Some(v) => v,
            None => return Err(DescError::Syntax),
        }
    };
    proof {
        if c + 1 == n {
            assert(boosts@.map_values(|b: (u8, usize, usize)| nat_booster(b)) =~= Seq::<(u8, nat, nat)>::empty());
        }
    }
    if d != n {
        return Err(DescError::Syntax);
    }
    Ok(Desc { mine, worker, obstacles, boosters: boosts })
}


/// One or more numbers at `i`, separated by commas, and where they end.
pub open spec fn numbers_at(s: Seq<u8>, i: int) -> Option<(Seq<nat>, int)>
    decreases s.len() - i,
{
    match number_at(s, i) {
        Some((v, j)) => if byte_at(s, j, 44) && j > i {
            match numbers_at(s, j + 1) {
                Some((vs, k)) => Some((seq![v] + vs, k)),
                None => None,
            }
        } else {
            Some((seq![v], j))
        },
        None => None,
    }
}

/// The parts of a puzzle's conditions: its numbers, and the cells the
/// region must cover and must avoid.
pub struct CondModel {
    pub params: Seq<nat>,
    pub white: Seq<(nat, nat)>,
    pub black: Seq<(nat, nat)>,
}

/// What the whole of `s` states: at least eleven numbers, `#`, the cells to
/// cover, `#`, the cells to avoid.
pub open spec fn cond_of(s: Seq<u8>) -> Option<CondModel> {
    match numbers_at(s, 0) {
        Some((params, a)) => if params.len() >= 11 && byte_at(s, a, 35) {
            match contour_at(s, a + 1) {
                Some((white, b)) => if byte_at(s, b, 35) {
                    match contour_at(s, b + 1) {
                        Some((black, c)) => if c == s.len() {
                            Some(CondModel { params, white, black })
                        } else {
                            None
                        },
                        None => None,
                    }
                } else {
                    None
                },
                None => None,
            }
        } else {
            None
        },
        None => None,
    }
}

/// The numbers at `i`, as `numbers_at` gives them.
fn numbers(s: &[u8], i: usize) -> (r: Option<(Vec<usize>, usize)>)
    ensures
        match numbers_at(s@, i as int) {
            Some((vs, j)) => r is Some && (r->0).0@.map_values(|v: usize| v as nat) == vs && (r->0).1 == j,
            None => r is None,
        },
{
    let n = s.len();
    let mut acc: Vec<usize> = Vec::new();
    let mut cur = i;
    loop
        invariant
            n == s@.len(),
            i <= cur,
            numbers_at(s@, i as int) == match numbers_at(s@, cur as int) {
                Some((vs, k)) => Some((acc@.map_values(|v: usize| v as nat) + vs, k)),
                None => None::<(Seq<nat>, int)>,
            },
        decreases n + 1 - cur,
    {
        match number(s, cur) {
            Some((v, j)) => {
                let ghost before = acc@;
                let more = j < n && s[j] == 44 && j > cur;
                acc.push(v);
                proof {
                    assert(acc@.map_values(|v: usize| v as nat) =~= before.map_values(|v: usize| v as nat) + seq![v as nat]);
                    assert forall|vs: Seq<nat>| #![auto] before.map_values(|v: usize| v as nat) + (seq![v as nat] + vs)
                        =~= acc@.map_values(|v: usize| v as nat) + vs by {}
                }
                if more {
                    cur = j + 1;
                } else {
                    return Some((acc, j));
                }
            },
            None => {
                return None;
            },
        }
    }
}

/// The parts of a puzzle's conditions.
pub struct Cond {
    pub params: Vec<usize>,
    pub white: Vec<(usize, usize)>,
    pub black: Vec<(usize, usize)>,
}

/// Reads a puzzle's conditions; a text that does not follow the format, or
/// with a number of more than 31 bits, is refused.
pub fn parse_cond(text: &[u8]) -> (r: Result<Cond, DescError>)
    ensures
        match cond_of(text@) {
            Some(c) => r is Ok && (r->Ok_0).params@.map_values(|v: usize| v as nat) == c.params && nat_contour((r->Ok_0).white)
                == c.white && nat_contour((r->Ok_0).black) == c.black,
            None => r == Err::<Cond, DescError>(DescError::Syntax),
        },
{
    let n = text.len();
    let (params, a) = match numbers(text, 0) {
        Some(v) => v,
        None => return Err(DescError::Syntax),
    };
    if !(params.len() >= 11 && a < n && text[a] == 35) {
        return Err(DescError::Syntax);
    }
    let (white, b) = match contour(text, a + 1) {
        Some(v) => v,
        None => return Err(DescError::Syntax),
    };
    if !(b < n && text[b] == 35) {
        return Err(DescError::Syntax);
    }
    let (black, c) = match contour(text, b + 1) {
        Some(v) => v,
        None => return Err(DescError::Syntax),
    };
    if c != n {
        return Err(DescError::Syntax);
    }
    Ok(Cond { params, white, black })
}

} // verus!
