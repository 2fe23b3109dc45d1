//! Directions on the virtual screen, and the search for the nearest candidate
//! in a direction.
//!
//! Virtual screen coordinates grow to the right (x) and downwards (y).
use vstd::prelude::*;
use crate::geometry::{Point, Rect};
use crate::text::{chars_of, eq_chars, lit, string_from, to_upper, upper};

verus! {

/// A direction on the screen.
#[derive(Clone, Copy, PartialEq, Eq, Structural, Debug, Hash)]
pub enum Direction {
    LEFT,
    DOWN,
    UP,
    RIGHT,
}

/// The direction that a (case-insensitive) name denotes.
pub open spec fn direction_named(s: Seq<char>) -> Option<Direction> {
    if upper(s) == "LEFT"@ {
        Some(Direction::LEFT)
    } else if upper(s) == "DOWN"@ {
        Some(Direction::DOWN)
    } else if upper(s) == "UP"@ {
        Some(Direction::UP)
    } else if upper(s) == "RIGHT"@ {
        Some(Direction::RIGHT)
    } else {
        None
    }
}

/// The four directions, in the order LEFT, DOWN, UP, RIGHT.
pub fn all_directions() -> (r: [Direction; 4])
    ensures
        r@ == seq![Direction::LEFT, Direction::DOWN, Direction::UP, Direction::RIGHT],
{
    [Direction::LEFT, Direction::DOWN, Direction::UP, Direction::RIGHT]
}

/// Something that can be found by direction: a window or a monitor, with the
/// rectangle whose top-left corner is its position.
pub struct DirectionCandidate {
    pub id: isize,
    pub name: String,
    pub rect: Rect,
    pub offset_x: Option<u32>,
    pub offset_y: Option<u32>,
}

/// The nearest candidate found in a direction.
#[derive(Clone, Copy, PartialEq, Eq, Structural, Debug)]
pub struct DirectionResult {
    pub id: isize,
    pub distance: i32,
    pub point: Point,
}

/// `|x|`.
pub open spec fn abs(x: int) -> int {
    if x < 0 {
        -x
    } else {
        x
    }
}

/// An optional offset read as a signed 32-bit number, absent meaning 0.
pub open spec fn offset_value(o: Option<u32>) -> int {
    match o {
        Some(v) => (v as i32) as int,
        None => 0,
    }
}

/// Horizontal distance from the origin's position to the candidate's.
pub open spec fn delta_x(origin: &DirectionCandidate, c: &DirectionCandidate) -> int {
    c.rect.left - origin.rect.left
}

/// Vertical distance from the origin's position to the candidate's.
pub open spec fn delta_y(origin: &DirectionCandidate, c: &DirectionCandidate) -> int {
    c.rect.top - origin.rect.top
}

/// `r` is the integer square root of `n`, rounded down.
pub open spec fn is_sqrt_floor(n: int, r: int) -> bool {
    0 <= r && r * r <= n && n < (r + 1) * (r + 1)
}

/// The integer square root of `n`, rounded down.
pub open spec fn int_sqrt(n: int) -> int {
    choose|r: int| is_sqrt_floor(n, r)
}

/// The distance from the origin to a candidate: the Euclidean distance,
/// rounded down to a whole number.
pub open spec fn distance(origin: &DirectionCandidate, c: &DirectionCandidate) -> int {
    int_sqrt(delta_x(origin, c) * delta_x(origin, c) + delta_y(origin, c) * delta_y(origin, c))
}

/// The result reported for a candidate.
pub open spec fn result_for(origin: &DirectionCandidate, c: &DirectionCandidate) -> DirectionResult {
    DirectionResult {
        id: c.id,
        distance: distance(origin, c) as i32,
        point: Point { x: c.rect.left, y: c.rect.top },
    }
}

/// The integer square root is unique.
pub proof fn lemma_sqrt_unique(n: int, a: int, b: int)
    requires
        is_sqrt_floor(n, a),
        is_sqrt_floor(n, b),
    ensures
        a == b,
{
    if a < b {
        assert((a + 1) * (a + 1) <= b * b) by (nonlinear_arith)
            requires
                0 <= a + 1 <= b,
        ;
    } else if b < a {
        assert((b + 1) * (b + 1) <= a * a) by (nonlinear_arith)
            requires
                0 <= b + 1 <= a,
        ;
    }
}

/// The integer square root, rounded down, of a non-negative 32-bit number.
pub fn isqrt(n: u32) -> (r: u32)
    ensures
        is_sqrt_floor(n as int, r as int),
        r as int == int_sqrt(n as int),
{
    let mut r: u64 = 0;
    let nn: u64 = n as u64;
    let mut next_sq: u64 = 1;
    while next_sq <= nn
        invariant
            nn == n,
            nn <= u32::MAX,
            r * r <= nn,
            next_sq == (r + 1) * (r + 1),
        decreases nn - r * r,
    {
        assert((r + 1) * (r + 1) > r * r) by (nonlinear_arith)
            requires
                r >= 0,
        ;
        assert(r + 1 <= 65536) by (nonlinear_arith)
            requires
                (r + 1) * (r + 1) <= nn,
                nn <= u32::MAX,
                r >= 0,
        ;
        r = r + 1;
        assert((r + 1) * (r + 1) == r * r + 2 * r + 1) by (nonlinear_arith);
        next_sq = next_sq + 2 * r + 1;
    }
    proof {
        assert(is_sqrt_floor(n as int, r as int));
        assert(is_sqrt_floor(n as int, int_sqrt(n as int)));
        lemma_sqrt_unique(n as int, r as int, int_sqrt(n as int));
    }
    assert(r <= u32::MAX) by (nonlinear_arith)
        requires
            r * r <= nn,
            nn <= u32::MAX,
            r >= 0,
    ;
    r as u32
}

impl Direction {
    /// The lower-case name of the direction, as it is displayed.
    pub open spec fn name(self) -> Seq<char> {
        match self {
            Direction::LEFT => "left"@,
            Direction::DOWN => "down"@,
            Direction::UP => "up"@,
            Direction::RIGHT => "right"@,
        }
    }

    /// Parses a direction name, ignoring ASCII case.
    pub fn from_str(input: &str) -> (r: Result<Direction, ()>)
        ensures
            r == (match direction_named(input@) {
                Some(d) => Ok(d),
                None => Err(()),
            }),
    {
        let up = to_upper(&chars_of(input));
        if eq_chars(&up, &lit("LEFT")) {
            Ok(Direction::LEFT)
        } else if eq_chars(&up, &lit("DOWN")) {
            Ok(Direction::DOWN)
        } else if eq_chars(&up, &lit("UP")) {
            Ok(Direction::UP)
        } else if eq_chars(&up, &lit("RIGHT")) {
            Ok(Direction::RIGHT)
        } else {
            Err(())
        }
    }

    /// The displayed name of the direction.
    pub fn to_string(&self) -> (r: String)
        ensures
            r@ == self.name(),
    {
        match self {
            Direction::LEFT => string_from(&lit("left")),
            Direction::DOWN => string_from(&lit("down")),
            Direction::UP => string_from(&lit("up")),
            Direction::RIGHT => string_from(&lit("right")),
        }
    }

    /// The first test of a candidate: it does not lie on the wrong side of the origin.
    pub open spec fn on_side(self, origin: &DirectionCandidate, c: &DirectionCandidate) -> bool {
        match self {
            Direction::LEFT => !(origin.rect.left < c.rect.left),
            Direction::RIGHT => !(origin.rect.left > c.rect.left),
            Direction::UP => !(origin.rect.top < c.rect.top),
            Direction::DOWN => !(origin.rect.top > c.rect.top),
        }
    }

    /// The distance along this direction's axis.
    pub open spec fn axis_delta(self, origin: &DirectionCandidate, c: &DirectionCandidate) -> int {
        match self {
            Direction::LEFT | Direction::RIGHT => delta_x(origin, c),
            Direction::UP | Direction::DOWN => delta_y(origin, c),
        }
    }

    /// The candidate's own offset along this direction's axis.
    pub open spec fn axis_offset(self, c: &DirectionCandidate) -> int {
        match self {
            Direction::LEFT | Direction::RIGHT => offset_value(c.offset_x),
            Direction::UP | Direction::DOWN => offset_value(c.offset_y),
        }
    }

    /// The candidate lies in this direction from the origin, further along the
    /// axis than its own offset (closer ones are ambiguous and left out).
    pub open spec fn keeps(self, origin: &DirectionCandidate, c: &DirectionCandidate) -> bool {
        self.on_side(origin, c) && !(abs(self.axis_delta(origin, c)) <= self.axis_offset(c))
    }

    /// The search over this candidate stays within 32-bit arithmetic.
    pub open spec fn within_range(self, origin: &DirectionCandidate, c: &DirectionCandidate) -> bool {
        &&& i32::MIN <= delta_x(origin, c) <= i32::MAX
        &&& i32::MIN <= delta_y(origin, c) <= i32::MAX
        &&& self.on_side(origin, c) ==> self.axis_delta(origin, c) != i32::MIN
        &&& self.keeps(origin, c) ==> delta_x(origin, c) * delta_x(origin, c) + delta_y(origin, c)
            * delta_y(origin, c) <= i32::MAX
    }

    /// `i` is the first candidate kept in this direction whose distance is the smallest.
    pub open spec fn is_nearest(
        self,
        origin: &DirectionCandidate,
        cs: Seq<DirectionCandidate>,
        i: int,
    ) -> bool {
        &&& 0 <= i < cs.len()
        &&& self.keeps(origin, &cs[i])
        &&& forall|j: int|
            0 <= j < cs.len() && self.keeps(origin, &cs[j]) ==> distance(origin, &cs[i]) <= distance(
                origin,
                &cs[j],
            )
        &&& forall|j: int|
            0 <= j < i && self.keeps(origin, &cs[j]) ==> distance(origin, &cs[i]) < distance(
                origin,
                &cs[j],
            )
    }

    /// Finds the candidate nearest to `origin` in this direction: among the
    /// candidates that lie in this direction (see `keeps`), the first one with
    /// the smallest distance; `None` if no candidate lies in this direction.
    pub fn find_nearest(&self, origin: &DirectionCandidate, candidates: Vec<DirectionCandidate>) -> (r:
        Option<DirectionResult>)
        requires
            forall|i: int|
                0 <= i < candidates.len() ==> self.within_range(origin, &#[trigger] candidates@[i]),
        ensures
            match r {
                None => forall|i: int|
                    0 <= i < candidates.len() ==> !self.keeps(origin, &#[trigger] candidates@[i]),
                Some(res) => exists|i: int|
                    #![trigger candidates@[i]]
                    self.is_nearest(origin, candidates@, i) && res == result_for(
                        origin,
                        &candidates@[i],
                    ) && res.distance as int == distance(origin, &candidates@[i]),
            },
            r matches Some(res) ==> match *self {
                Direction::LEFT => res.point.x <= origin.rect.left,
                Direction::RIGHT => res.point.x >= origin.rect.left,
                Direction::UP => res.point.y <= origin.rect.top,
                Direction::DOWN => res.point.y >= origin.rect.top,
            },
            r is None ==> forall|i: int|
                0 <= i < candidates.len() ==> !lies_beyond(*self, origin, &#[trigger] candidates@[i]),
    {
        proof {
            assert forall|i: int| 0 <= i < candidates.len() implies self.keeps(origin, &#[trigger] candidates@[i])
                == lies_beyond(*self, origin, &candidates@[i]) by {
                lemma_keeps_lies_beyond(*self, origin, &candidates@[i]);
            }
        }
        let r = self.find_nearest_kept(origin, candidates);
        proof {
            if let Some(res) = r {
                let i = choose|i: int|
                    #![trigger candidates@[i]]
                    self.is_nearest(origin, candidates@, i) && res == result_for(origin, &candidates@[i]);
                lemma_keeps_lies_beyond(*self, origin, &candidates@[i]);
            }
        }
        r
    }

    /// See `find_nearest`.
    fn find_nearest_kept(&self, origin: &DirectionCandidate, candidates: Vec<DirectionCandidate>) -> (r:
        Option<DirectionResult>)
        requires
            forall|i: int|
                0 <= i < candidates.len() ==> self.within_range(origin, &#[trigger] candidates@[i]),
        ensures
            match r {
                None => forall|i: int|
                    0 <= i < candidates.len() ==> !self.keeps(origin, &#[trigger] candidates@[i]),
                Some(res) => exists|i: int|
                    #![trigger candidates@[i]]
                    self.is_nearest(origin, candidates@, i) && res == result_for(
                        origin,
                        &candidates@[i],
                    ) && res.distance as int == distance(origin, &candidates@[i]),
            },
    {
        let ox = origin.rect.left;
        let oy = origin.rect.top;
        let mut best: Option<(usize, u32)> = None;
        let mut i: usize = 0;
        while i < candidates.len()
            invariant
                0 <= i <= candidates.len(),
                ox == origin.rect.left,
                oy == origin.rect.top,
                forall|k: int|
                    0 <= k < candidates.len() ==> self.within_range(origin, &#[trigger] candidates@[k]),
                match best {
                    None => forall|k: int|
                        0 <= k < i ==> !self.keeps(origin, &#[trigger] candidates@[k]),
                    Some((b, d)) => {
                        &&& b < i
                        &&& d <= 46341
                        &&& d as int == distance(origin, &candidates@[b as int])
                        &&& self.keeps(origin, &candidates@[b as int])
                        &&& forall|k: int|
                            0 <= k < i && self.keeps(origin, &#[trigger] candidates@[k]) ==> d
                                <= distance(origin, &candidates@[k])
                        &&& forall|k: int|
                            0 <= k < b && self.keeps(origin, &#[trigger] candidates@[k]) ==> d
                                < distance(origin, &candidates@[k])
                    },
                },
            decreases candidates.len() - i,
        {
            let c = &candidates[i];
            let cx = c.rect.left;
            let cy = c.rect.top;
            let off_x: i32 = match c.offset_x {
                Some(v) => #[verifier::truncate] (v as i32),
                None => 0,
            };
            let off_y: i32 = match c.offset_y {
                Some(v) => #[verifier::truncate] (v as i32),
                None => 0,
            };
            let dx: i32 = cx - ox;
            let dy: i32 = cy - oy;
            let keep = match self {
                Direction::LEFT => {
                    if ox < cx {
                        false
                    } else {
                        let a: i32 = if dx < 0 {
                            -dx
                        } else {
                            dx
                        };
                        !(a <= off_x)
                    }
                },
                Direction::RIGHT => {
                    if ox > cx {
                        false
                    } else {
                        let a: i32 = if dx < 0 {
                            -dx
                        } else {
                            dx
                        };
                        !(a <= off_x)
                    }
                },
                Direction::UP => {
                    if oy < cy {
                        false
                    } else {
                        let a: i32 = if dy < 0 {
                            -dy
                        } else {
                            dy
                        };
                        !(a <= off_y)
                    }
                },
                Direction::DOWN => {
                    if oy > cy {
                        false
                    } else {
                        let a: i32 = if dy < 0 {
                            -dy
                        } else {
                            dy
                        };
                        !(a <= off_y)
                    }
                },
            };
            assert(keep == self.keeps(origin, &candidates@[i as int]));
            if keep {
                proof {
                    assert(0 <= dx * dx) by (nonlinear_arith);
                    assert(0 <= dy * dy) by (nonlinear_arith);
                }
                let sq: i32 = dx * dx + dy * dy;
                let d = isqrt(sq as u32);
                assert(d <= 46341) by (nonlinear_arith)
                    requires
                        d * d <= sq,
                        sq <= i32::MAX,
                ;
                match best {
                    None => {
                        best = Some((i, d));
                    },
                    Some((b, bd)) => {
                        if d < bd {
                            best = Some((i, d));
                        }
                    },
                }
            }
            i = i + 1;
        }
        match best {
            None => None,
            Some((b, d)) => {
                let c = &candidates[b];
                let res = DirectionResult {
                    id: c.id,
                    distance: d as i32,
                    point: Point { x: c.rect.left, y: c.rect.top },
                };
                assert(self.is_nearest(origin, candidates@, b as int));
                Some(res)
            },
        }
    }

    /// The position next to `pos` in a list of `len` items in this direction:
    /// the one before for LEFT and UP, the one after for RIGHT and DOWN;
    /// `None` at the edge of the list.
    pub fn adjacent_index(&self, pos: usize, len: usize) -> (r: Option<usize>)
        requires
            pos < len,
        ensures
            r == self.adjacent_of(pos as int, len as int),
            match *self {
                Direction::LEFT | Direction::UP => if pos > 0 {
                    r == Some((pos - 1) as usize)
                } else {
                    r is None
                },
                Direction::RIGHT | Direction::DOWN => if pos + 1 < len {
                    r == Some((pos + 1) as usize)
                } else {
                    r is None
                },
            },
    {
        proof {
            lemma_adjacent_is_next(*self, pos as int, len as int);
        }
        match self {
            Direction::LEFT | Direction::UP => {
                if pos == 0 {
                    None
                } else {
                    Some(pos - 1)
                }
            },
            Direction::RIGHT | Direction::DOWN => {
                if pos + 1 >= len {
                    None
                } else {
                    Some(pos + 1)
                }
            },
        }
    }

    /// See `adjacent_index`.
    pub open spec fn adjacent_of(self, pos: int, len: int) -> Option<usize> {
        match self {
            Direction::LEFT | Direction::UP => {
                if pos == 0 {
                    None
                } else {
                    Some((pos - 1) as usize)
                }
            },
            Direction::RIGHT | Direction::DOWN => {
                if pos + 1 >= len {
                    None
                } else {
                    Some((pos + 1) as usize)
                }
            },
        }
    }

    /// The position in a list of `len` items that one enters first when
    /// arriving from this direction: the last for LEFT and UP, the first for
    /// RIGHT and DOWN; `None` for an empty list.
    pub fn extreme_index(&self, len: usize) -> (r: Option<usize>)
        ensures
            r == self.extreme_of(len as int),
            len == 0 ==> r is None,
            len > 0 ==> match *self {
                Direction::LEFT | Direction::UP => r == Some((len - 1) as usize),
                Direction::RIGHT | Direction::DOWN => r == Some(0usize),
            },
    {
        proof {
            lemma_extreme_is_end(*self, len as int);
        }
        if len == 0 {
            None
        } else {
            match self {
                Direction::LEFT | Direction::UP => Some(len - 1),
                Direction::RIGHT | Direction::DOWN => Some(0),
            }
        }
    }

    /// See `extreme_index`.
    pub open spec fn extreme_of(self, len: int) -> Option<usize> {
        if len == 0 {
            None
        } else {
            match self {
                Direction::LEFT | Direction::UP => Some((len - 1) as usize),
                Direction::RIGHT | Direction::DOWN => Some(0),
            }
        }
    }
}

/// Parsing the displayed name of a direction gives that direction back.
pub proof fn lemma_direction_name_round_trip(d: Direction)
    ensures
        direction_named(d.name()) == Some(d),
{
    reveal_strlit("left");
    reveal_strlit("down");
    reveal_strlit("up");
    reveal_strlit("right");
    reveal_strlit("LEFT");
    reveal_strlit("DOWN");
    reveal_strlit("UP");
    reveal_strlit("RIGHT");
    assert(upper("left"@) =~= "LEFT"@);
    assert("DOWN"@[0] != "LEFT"@[0]);
    assert("UP"@.len() != "LEFT"@.len());
    assert("UP"@.len() != "DOWN"@.len());
    assert("RIGHT"@.len() != "LEFT"@.len());
    assert("RIGHT"@.len() != "DOWN"@.len());
    assert("RIGHT"@.len() != "UP"@.len());
    assert(upper("down"@) =~= "DOWN"@);
    assert(upper("up"@) =~= "UP"@);
    assert(upper("right"@) =~= "RIGHT"@);
}

/// The candidate lies in direction `d` from the origin, beyond its own
/// offset along that axis: for UP its top is at or above the origin's top,
/// for DOWN at or below, for LEFT its left edge at or left of the origin's,
/// for RIGHT at or right of it.
pub open spec fn lies_beyond(d: Direction, origin: &DirectionCandidate, c: &DirectionCandidate) -> bool {
    match d {
        Direction::LEFT => c.rect.left <= origin.rect.left && origin.rect.left - c.rect.left > offset_value(
            c.offset_x,
        ),
        Direction::RIGHT => c.rect.left >= origin.rect.left && c.rect.left - origin.rect.left > offset_value(
            c.offset_x,
        ),
        Direction::UP => c.rect.top <= origin.rect.top && origin.rect.top - c.rect.top > offset_value(c.offset_y),
        Direction::DOWN => c.rect.top >= origin.rect.top && c.rect.top - origin.rect.top > offset_value(
            c.offset_y,
        ),
    }
}

/// The search in a direction keeps exactly the candidates that lie that way
/// from the origin, further along the axis than their own offset: never one
/// on the other side.
pub proof fn lemma_keeps_lies_beyond(d: Direction, origin: &DirectionCandidate, c: &DirectionCandidate)
    ensures
        d.keeps(origin, c) == lies_beyond(d, origin, c),
        d.keeps(origin, c) ==> match d {
            Direction::LEFT => c.rect.left <= origin.rect.left,
            Direction::RIGHT => c.rect.left >= origin.rect.left,
            Direction::UP => c.rect.top <= origin.rect.top,
            Direction::DOWN => c.rect.top >= origin.rect.top,
        },
{
}

/// The position next to `pos` in a direction is the immediate neighbour:
/// the one just before for LEFT and UP, the one just after for RIGHT and
/// DOWN, and none past the ends of the list.
pub proof fn lemma_adjacent_is_next(d: Direction, pos: int, len: int)
    requires
        0 <= pos < len,
    ensures
        match d {
            Direction::LEFT | Direction::UP => if pos > 0 {
                d.adjacent_of(pos, len) == Some((pos - 1) as usize)
            } else {
                d.adjacent_of(pos, len) is None
            },
            Direction::RIGHT | Direction::DOWN => if pos + 1 < len {
                d.adjacent_of(pos, len) == Some((pos + 1) as usize)
            } else {
                d.adjacent_of(pos, len) is None
            },
        },
{
}

/// Arriving from the left or from above, one enters a list at its last
/// item; from the right or from below, at its first; an empty list has none.
pub proof fn lemma_extreme_is_end(d: Direction, len: int)
    requires
        0 <= len,
    ensures
        len == 0 ==> d.extreme_of(len) is None,
        len > 0 ==> match d {
            Direction::LEFT | Direction::UP => d.extreme_of(len) == Some((len - 1) as usize),
            Direction::RIGHT | Direction::DOWN => d.extreme_of(len) == Some(0usize),
        },
{
}

} // verus!
