//! Finding, for each monitor, its neighbouring monitor in each direction.
use vstd::prelude::*;
use crate::direction::{abs, all_directions, distance, lemma_keeps_lies_beyond, Direction, DirectionCandidate};
use crate::geometry::Rect;
use crate::init::{monitor_views, monitors_linked};
use crate::monitor::{Monitor, MonitorView, Neighbors};
use crate::monitor_manager::has_monitor;

verus! {

/// The extent of a rectangle along one axis, as the distance between the
/// absolute values of its two edges.
pub open spec fn extent(r: Rect, horizontal: bool) -> int {
    if horizontal {
        abs(abs(r.right as int) - abs(r.left as int))
    } else {
        abs(abs(r.bottom as int) - abs(r.top as int))
    }
}

/// `e` is the largest extent of the monitors along one axis.
pub open spec fn is_largest_extent(ms: Seq<MonitorView>, horizontal: bool, e: int) -> bool {
    &&& exists|i: int| 0 <= i < ms.len() && extent((#[trigger] ms[i]).info.monitor, horizontal) == e
    &&& forall|i: int| 0 <= i < ms.len() ==> extent((#[trigger] ms[i]).info.monitor, horizontal) <= e
}

/// The largest extent of the monitors along one axis.
pub open spec fn largest_extent(ms: Seq<MonitorView>, horizontal: bool) -> int {
    choose|e: int| is_largest_extent(ms, horizontal, e)
}

/// How far a neighbour may at most be in a direction: the largest width of
/// the monitors for LEFT and RIGHT, the largest height for UP and DOWN.
pub open spec fn max_delta(ms: Seq<MonitorView>, d: Direction) -> int {
    match d {
        Direction::LEFT | Direction::RIGHT => largest_extent(ms, true),
        Direction::UP | Direction::DOWN => largest_extent(ms, false),
    }
}

/// A monitor as a candidate for the search (its name plays no part in it).
pub open spec fn monitor_candidate(m: MonitorView) -> DirectionCandidate {
    DirectionCandidate {
        id: m.hmonitor,
        name: vstd::pervasive::arbitrary(),
        rect: m.info.monitor,
        offset_x: None,
        offset_y: None,
    }
}

/// The candidates for a monitor's neighbours: the monitors whose handle is
/// not `h`, in order.
pub open spec fn other_candidates(ms: Seq<MonitorView>, h: isize) -> Seq<DirectionCandidate>
    decreases ms.len(),
{
    if ms.len() == 0 {
        Seq::empty()
    } else {
        let rest = other_candidates(ms.drop_last(), h);
        if ms.last().hmonitor != h {
            rest.push(monitor_candidate(ms.last()))
        } else {
            rest
        }
    }
}

/// Two candidates that the search cannot tell apart.
pub open spec fn same_candidate(a: DirectionCandidate, b: DirectionCandidate) -> bool {
    &&& a.id == b.id
    &&& a.rect == b.rect
    &&& a.offset_x == b.offset_x
    &&& a.offset_y == b.offset_y
}

/// The neighbour found for monitor `i` in direction `d`: the nearest other
/// monitor in that direction, if it is at most `max_delta` away (so a
/// monitor that abuts is found, and one beyond a gap wider than any monitor
/// is not).
pub open spec fn found_neighbor(ms: Seq<MonitorView>, i: int, d: Direction) -> Option<isize> {
    let o = monitor_candidate(ms[i]);
    let cs = other_candidates(ms, ms[i].hmonitor);
    if exists|k: int| d.is_nearest(&o, cs, k) {
        let k = choose|k: int| d.is_nearest(&o, cs, k);
        if distance(&o, &cs[k]) <= max_delta(ms, d) {
            Some(cs[k].id)
        } else {
            None
        }
    } else {
        None
    }
}

/// The neighbours of monitor `i` after the search: each found neighbour
/// replaces the one it had in that direction.
pub open spec fn searched_neighbors(ms: Seq<MonitorView>, i: int) -> Neighbors {
    Neighbors {
        left: match found_neighbor(ms, i, Direction::LEFT) {
            Some(h) => Some(h),
            None => ms[i].neighbors.left,
        },
        down: match found_neighbor(ms, i, Direction::DOWN) {
            Some(h) => Some(h),
            None => ms[i].neighbors.down,
        },
        up: match found_neighbor(ms, i, Direction::UP) {
            Some(h) => Some(h),
            None => ms[i].neighbors.up,
        },
        right: match found_neighbor(ms, i, Direction::RIGHT) {
            Some(h) => Some(h),
            None => ms[i].neighbors.right,
        },
    }
}

/// The same monitor with other neighbours.
pub open spec fn with_neighbors(m: MonitorView, n: Neighbors) -> MonitorView {
    MonitorView { neighbors: n, ..m }
}

/// The search can run on these monitors: there is one at least, no edge
/// lies at `i32::MIN`, and every search stays within 32-bit arithmetic.
pub open spec fn neighbors_searchable(ms: Seq<MonitorView>) -> bool {
    &&& ms.len() > 0
    &&& forall|i: int|
        #![trigger ms[i]]
        0 <= i < ms.len() ==> {
            &&& ms[i].info.monitor.left > i32::MIN
            &&& ms[i].info.monitor.right > i32::MIN
            &&& ms[i].info.monitor.top > i32::MIN
            &&& ms[i].info.monitor.bottom > i32::MIN
        }
    &&& forall|i: int, j: int, d: Direction|
        #![trigger d.within_range(&monitor_candidate(ms[i]), &monitor_candidate(ms[j]))]
        0 <= i < ms.len() && 0 <= j < ms.len() ==> d.within_range(
            &monitor_candidate(ms[i]),
            &monitor_candidate(ms[j]),
        )
}

/// Only one candidate is the nearest.
pub proof fn lemma_nearest_unique(d: Direction, o: DirectionCandidate, cs: Seq<DirectionCandidate>, a: int, b: int)
    requires
        d.is_nearest(&o, cs, a),
        d.is_nearest(&o, cs, b),
    ensures
        a == b,
{
    if a < b {
        assert(distance(&o, &cs[b]) < distance(&o, &cs[a]));
    } else if b < a {
        assert(distance(&o, &cs[a]) < distance(&o, &cs[b]));
    }
}

/// The search gives the same answer on candidates that it cannot tell apart.
proof fn lemma_same_nearest(
    d: Direction,
    o1: DirectionCandidate,
    o2: DirectionCandidate,
    c1: Seq<DirectionCandidate>,
    c2: Seq<DirectionCandidate>,
    k: int,
)
    requires
        same_candidate(o1, o2),
        c1.len() == c2.len(),
        forall|j: int| 0 <= j < c1.len() ==> same_candidate(#[trigger] c1[j], c2[j]),
    ensures
        d.is_nearest(&o1, c1, k) == d.is_nearest(&o2, c2, k),
        0 <= k < c1.len() ==> distance(&o1, &c1[k]) == distance(&o2, &c2[k]),
{
    assert forall|j: int| 0 <= j < c1.len() implies d.keeps(&o1, &c1[j]) == d.keeps(&o2, &c2[j]) && distance(
        &o1,
        &c1[j],
    ) == distance(&o2, &c2[j]) by {
        assert(same_candidate(c1[j], c2[j]));
    }
}

/// The extent of a rectangle along one axis.
fn extent_of(r: &Rect, horizontal: bool) -> (e: i32)
    requires
        r.left > i32::MIN,
        r.right > i32::MIN,
        r.top > i32::MIN,
        r.bottom > i32::MIN,
    ensures
        e as int == extent(*r, horizontal),
{
    let (origin, end) = if horizontal {
        (r.left, r.right)
    } else {
        (r.top, r.bottom)
    };
    let origin: i32 = if origin < 0 {
        -origin
    } else {
        origin
    };
    let end: i32 = if end < 0 {
        -end
    } else {
        end
    };
    let d: i32 = end - origin;
    if d < 0 {
        -d
    } else {
        d
    }
}

/// The largest extent of the monitors along one axis.
fn largest_extent_of(monitors: &Vec<Monitor>, horizontal: bool) -> (e: i32)
    requires
        neighbors_searchable(monitor_views(monitors@)),
    ensures
        e as int == largest_extent(monitor_views(monitors@), horizontal),
{
    let ghost ms = monitor_views(monitors@);
    assert(ms[0] == monitors@[0]@);
    let mut best: i32 = extent_of(&monitors[0].info.monitor, horizontal);
    let mut i: usize = 1;
    while i < monitors.len()
        invariant
            1 <= i <= monitors.len(),
            ms == monitor_views(monitors@),
            neighbors_searchable(ms),
            exists|k: int| 0 <= k < i && extent((#[trigger] ms[k]).info.monitor, horizontal) == best,
            forall|k: int| 0 <= k < i ==> extent((#[trigger] ms[k]).info.monitor, horizontal) <= best,
        decreases monitors.len() - i,
    {
        assert(ms[i as int] == monitors@[i as int]@);
        let e = extent_of(&monitors[i].info.monitor, horizontal);
        if e > best {
            best = e;
        }
        i = i + 1;
    }
    proof {
        assert(is_largest_extent(ms, horizontal, best as int));
        let c = largest_extent(ms, horizontal);
        assert(is_largest_extent(ms, horizontal, c));
        let k1 = choose|k: int| 0 <= k < ms.len() && extent((#[trigger] ms[k]).info.monitor, horizontal) == c;
        let k2 = choose|k: int| 0 <= k < ms.len() && extent((#[trigger] ms[k]).info.monitor, horizontal) == best;
        assert(extent(ms[k1].info.monitor, horizontal) <= best);
        assert(extent(ms[k2].info.monitor, horizontal) <= c);
    }
    best
}

/// The neighbour of monitor `i` in direction `d` (see `found_neighbor`),
/// given the distance it may at most have.
fn neighbor_in_direction(monitors: &Vec<Monitor>, i: usize, d: Direction, delta: i32) -> (r: Option<isize>)
    requires
        i < monitors.len(),
        neighbors_searchable(monitor_views(monitors@)),
        delta as int == max_delta(monitor_views(monitors@), d),
    ensures
        r == found_neighbor(monitor_views(monitors@), i as int, d),
{
    let ghost ms = monitor_views(monitors@);
    assert(ms[i as int] == monitors@[i as int]@);
    let origin = DirectionCandidate::from_monitor(&monitors[i]);
    let h = monitors[i].hmonitor;
    let ghost o = monitor_candidate(ms[i as int]);
    let mut candidates: Vec<DirectionCandidate> = Vec::new();
    let mut j: usize = 0;
    while j < monitors.len()
        invariant
            0 <= j <= monitors.len(),
            ms == monitor_views(monitors@),
            candidates.len() == other_candidates(ms.take(j as int), h).len(),
            forall|k: int|
                0 <= k < candidates.len() ==> same_candidate(
                    #[trigger] candidates@[k],
                    other_candidates(ms.take(j as int), h)[k],
                ),
            forall|k: int|
                0 <= k < candidates.len() ==> exists|t: int|
                    0 <= t < j && same_candidate(#[trigger] candidates@[k], monitor_candidate(ms[t])),
        decreases monitors.len() - j,
    {
        assert(ms.take(j + 1).drop_last() =~= ms.take(j as int));
        assert(ms.take(j + 1).last() == ms[j as int]);
        assert(ms[j as int] == monitors@[j as int]@);
        if monitors[j].hmonitor != h {
            let c = DirectionCandidate::from_monitor(&monitors[j]);
            candidates.push(c);
            assert(same_candidate(candidates@[candidates.len() - 1], monitor_candidate(ms[j as int])));
        }
        j = j + 1;
    }
    let ghost cs = other_candidates(ms, h);
    assert(ms.take(monitors.len() as int) =~= ms);
    assert(same_candidate(origin, o));
    proof {
        assert forall|k: int| 0 <= k < candidates.len() implies d.within_range(&origin, &#[trigger] candidates@[k]) by {
            let t = choose|t: int| 0 <= t < monitors.len() && same_candidate(#[trigger] candidates@[k], monitor_candidate(ms[t]));
            assert(d.within_range(&monitor_candidate(ms[i as int]), &monitor_candidate(ms[t])));
        }
    }
    let ghost cands = candidates@;
    let res = d.find_nearest(&origin, candidates);
    match res {
        None => {
            proof {
                if exists|k: int| d.is_nearest(&o, cs, k) {
                    let k = choose|k: int| d.is_nearest(&o, cs, k);
                    lemma_same_nearest(d, origin, o, cands, cs, k);
                    assert(d.keeps(&origin, &cands[k]));
                }
            }
            None
        },
        Some(n) => {
            proof {
                let k = choose|k: int|
                    #![trigger cands[k]]
                    d.is_nearest(&origin, cands, k) && n == crate::direction::result_for(&origin, &cands[k])
                        && n.distance as int == distance(&origin, &cands[k]);
                lemma_same_nearest(d, origin, o, cands, cs, k);
                let k2 = choose|k: int| d.is_nearest(&o, cs, k);
                lemma_nearest_unique(d, o, cs, k, k2);
            }
            if n.distance > delta {
                None
            } else {
                Some(n.id)
            }
        },
    }
}

/// Whether the search of one direction from one monitor towards another
/// stays within 32-bit arithmetic.
fn pair_in_range(o: &Rect, c: &Rect, d: Direction) -> (r: bool)
    ensures
        r == d.within_range(
            &DirectionCandidate { id: 0, name: vstd::pervasive::arbitrary(), rect: *o, offset_x: None, offset_y: None },
            &DirectionCandidate { id: 0, name: vstd::pervasive::arbitrary(), rect: *c, offset_x: None, offset_y: None },
        ),
{
    let ghost oc = DirectionCandidate { id: 0, name: vstd::pervasive::arbitrary(), rect: *o, offset_x: None, offset_y: None };
    let ghost cc = DirectionCandidate { id: 0, name: vstd::pervasive::arbitrary(), rect: *c, offset_x: None, offset_y: None };
    let dx: i64 = (c.left as i64) - (o.left as i64);
    let dy: i64 = (c.top as i64) - (o.top as i64);
    if dx < i32::MIN as i64 || dx > i32::MAX as i64 || dy < i32::MIN as i64 || dy > i32::MAX as i64 {
        return false;
    }
    let (on_side, delta) = match d {
        Direction::LEFT => (!(o.left < c.left), dx),
        Direction::RIGHT => (!(o.left > c.left), dx),
        Direction::UP => (!(o.top < c.top), dy),
        Direction::DOWN => (!(o.top > c.top), dy),
    };
    assert(on_side == d.on_side(&oc, &cc));
    assert(delta == d.axis_delta(&oc, &cc));
    if on_side && delta == i32::MIN as i64 {
        return false;
    }
    let keeps = on_side && !((if delta < 0 { -delta } else { delta }) <= 0);
    assert(keeps == d.keeps(&oc, &cc));
    if keeps {
        assert(0 <= dx * dx <= 0x4000_0000_0000_0000) by (nonlinear_arith)
            requires
                i32::MIN <= dx <= i32::MAX,
        ;
        assert(0 <= dy * dy <= 0x4000_0000_0000_0000) by (nonlinear_arith)
            requires
                i32::MIN <= dy <= i32::MAX,
        ;
        let sq: i128 = (dx as i128) * (dx as i128) + (dy as i128) * (dy as i128);
        if sq > i32::MAX as i128 {
            return false;
        }
    }
    true
}

/// Whether the search can run on these monitors (see `neighbors_searchable`).
pub fn searchable(monitors: &Vec<Monitor>) -> (r: bool)
    ensures
        r == neighbors_searchable(monitor_views(monitors@)),
{
    let ghost ms = monitor_views(monitors@);
    if monitors.len() == 0 {
        return false;
    }
    let mut i: usize = 0;
    while i < monitors.len()
        invariant
            0 <= i <= monitors.len(),
            ms == monitor_views(monitors@),
            forall|k: int|
                #![trigger ms[k]]
                0 <= k < i ==> {
                    &&& ms[k].info.monitor.left > i32::MIN
                    &&& ms[k].info.monitor.right > i32::MIN
                    &&& ms[k].info.monitor.top > i32::MIN
                    &&& ms[k].info.monitor.bottom > i32::MIN
                },
            forall|a: int, b: int, d: Direction|
                #![trigger d.within_range(&monitor_candidate(ms[a]), &monitor_candidate(ms[b]))]
                0 <= a < i && 0 <= b < monitors.len() ==> d.within_range(
                    &monitor_candidate(ms[a]),
                    &monitor_candidate(ms[b]),
                ),
        decreases monitors.len() - i,
    {
        assert(ms[i as int] == monitors@[i as int]@);
        let r = monitors[i].info.monitor;
        if r.left == i32::MIN || r.right == i32::MIN || r.top == i32::MIN || r.bottom == i32::MIN {
            assert(!neighbors_searchable(ms)) by {
                assert(ms[i as int].info.monitor == r);
            }
            return false;
        }
        let mut j: usize = 0;
        while j < monitors.len()
            invariant
                0 <= j <= monitors.len(),
                i < monitors.len(),
                ms == monitor_views(monitors@),
                r == ms[i as int].info.monitor,
                forall|b: int, d: Direction|
                    #![trigger d.within_range(&monitor_candidate(ms[i as int]), &monitor_candidate(ms[b]))]
                    0 <= b < j ==> d.within_range(
                        &monitor_candidate(ms[i as int]),
                        &monitor_candidate(ms[b]),
                    ),
            decreases monitors.len() - j,
        {
            assert(ms[j as int] == monitors@[j as int]@);
            let c = monitors[j].info.monitor;
            let dirs = all_directions();
            let mut k: usize = 0;
            while k < 4
                invariant
                    0 <= k <= 4,
                    i < monitors.len(),
                    j < monitors.len(),
                    ms == monitor_views(monitors@),
                    dirs@ == seq![Direction::LEFT, Direction::DOWN, Direction::UP, Direction::RIGHT],
                    r == ms[i as int].info.monitor,
                    c == ms[j as int].info.monitor,
                    forall|t: int| 0 <= t < k ==> (#[trigger] dirs@[t]).within_range(
                        &monitor_candidate(ms[i as int]),
                        &monitor_candidate(ms[j as int]),
                    ),
                decreases 4 - k,
            {
                let d = dirs[k];
                if !pair_in_range(&r, &c, d) {
                    assert(!d.within_range(&monitor_candidate(ms[i as int]), &monitor_candidate(ms[j as int])));
                    assert(!neighbors_searchable(ms));
                    return false;
                }
                k = k + 1;
            }
            proof {
                assert forall|b: int, d: Direction| 0 <= b < j + 1 implies #[trigger] d.within_range(
                    &monitor_candidate(ms[i as int]),
                    &monitor_candidate(ms[b]),
                ) by {
                    if b == j {
                        match d {
                            Direction::LEFT => assert(dirs@[0] == d),
                            Direction::DOWN => assert(dirs@[1] == d),
                            Direction::UP => assert(dirs@[2] == d),
                            Direction::RIGHT => assert(dirs@[3] == d),
                        }
                    }
                }
            }
            j = j + 1;
        }
        i = i + 1;
    }
    true
}

/// The monitors with their neighbours found: for each monitor and direction,
/// the nearest other monitor in that direction becomes its neighbour there
/// when it is at most as far as the largest width (LEFT and RIGHT) or height
/// (UP and DOWN) of the monitors; other neighbours stay as they were.
pub fn init_neighbors(monitors: Vec<Monitor>) -> (r: Vec<Monitor>)
    requires
        neighbors_searchable(monitor_views(monitors@)),
    ensures
        r.len() == monitors.len(),
        forall|i: int|
            0 <= i < monitors.len() ==> #[trigger] r@[i]@ == with_neighbors(
                monitors@[i]@,
                searched_neighbors(monitor_views(monitors@), i),
            ),
{
    let ghost ms = monitor_views(monitors@);
    let width = largest_extent_of(&monitors, true);
    let height = largest_extent_of(&monitors, false);
    let mut found: Vec<Neighbors> = Vec::new();
    let mut i: usize = 0;
    while i < monitors.len()
        invariant
            0 <= i <= monitors.len(),
            ms == monitor_views(monitors@),
            neighbors_searchable(ms),
            width as int == largest_extent(ms, true),
            height as int == largest_extent(ms, false),
            found.len() == i,
            forall|k: int| 0 <= k < i ==> #[trigger] found@[k] == searched_neighbors(ms, k),
        decreases monitors.len() - i,
    {
        assert(ms[i as int] == monitors@[i as int]@);
        let mut n = monitors[i].neighbors;
        if let Some(h) = neighbor_in_direction(&monitors, i, Direction::LEFT, width) {
            n.insert(Direction::LEFT, h);
        }
        if let Some(h) = neighbor_in_direction(&monitors, i, Direction::DOWN, height) {
            n.insert(Direction::DOWN, h);
        }
        if let Some(h) = neighbor_in_direction(&monitors, i, Direction::UP, height) {
            n.insert(Direction::UP, h);
        }
        if let Some(h) = neighbor_in_direction(&monitors, i, Direction::RIGHT, width) {
            n.insert(Direction::RIGHT, h);
        }
        assert(n == searched_neighbors(ms, i as int));
        found.push(n);
        i = i + 1;
    }
    let mut monitors = monitors;
    let mut r: Vec<Monitor> = Vec::new();
    let mut k: usize = 0;
    let ghost n = ms.len();
    assert(ms.skip(0) =~= ms);
    while k < found.len()
        invariant
            0 <= k <= found.len(),
            found.len() == n,
            ms.len() == n,
            monitor_views(monitors@) == ms.skip(k as int),
            monitors.len() == n - k,
            r.len() == k,
            forall|t: int| 0 <= t < n ==> #[trigger] found@[t] == searched_neighbors(ms, t),
            forall|t: int| 0 <= t < k ==> #[trigger] r@[t]@ == with_neighbors(ms[t], searched_neighbors(ms, t)),
        decreases found.len() - k,
    {
        let ghost before = monitors@;
        let mut m = monitors.remove(0);
        proof {
            crate::init::lemma_skip_step(before, monitors@, ms, k as int);
        }
        m.neighbors = found[k];
        r.push(m);
        k = k + 1;
    }
    proof {
        assert forall|i: int| 0 <= i < n implies #[trigger] r@[i]@ == with_neighbors(
            ms[i],
            searched_neighbors(ms, i),
        ) by {}
    }
    r
}

/// A neighbour found by the search is another monitor: never the monitor
/// itself, and always one of the monitors searched.
pub proof fn lemma_found_neighbor_is_other_monitor(ms: Seq<MonitorView>, i: int, d: Direction)
    requires
        0 <= i < ms.len(),
        found_neighbor(ms, i, d) is Some,
    ensures
        found_neighbor(ms, i, d)->0 != ms[i].hmonitor,
        has_monitor(ms, found_neighbor(ms, i, d)->0),
{
    let o = monitor_candidate(ms[i]);
    let cs = other_candidates(ms, ms[i].hmonitor);
    let k = choose|k: int| d.is_nearest(&o, cs, k);
    lemma_other_candidates(ms, ms[i].hmonitor, k);
}

/// Every candidate is a monitor with another handle.
proof fn lemma_other_candidates(ms: Seq<MonitorView>, h: isize, k: int)
    requires
        0 <= k < other_candidates(ms, h).len(),
    ensures
        other_candidates(ms, h)[k].id != h,
        has_monitor(ms, other_candidates(ms, h)[k].id),
    decreases ms.len(),
{
    let rest = other_candidates(ms.drop_last(), h);
    if k < rest.len() {
        lemma_other_candidates(ms.drop_last(), h, k);
        let t = choose|t: int| 0 <= t < ms.drop_last().len() && (#[trigger] ms.drop_last()[t]).hmonitor == rest[k].id;
        assert(ms[t] == ms.drop_last()[t]);
    } else {
        assert(ms[ms.len() - 1] == ms.last());
    }
}

/// The monitors after the search (see `init_neighbors`).
pub open spec fn searched_monitors(ms: Seq<MonitorView>) -> Seq<MonitorView> {
    Seq::new(ms.len(), |i: int| with_neighbors(ms[i], searched_neighbors(ms, i)))
}

/// The search keeps the monitors referring only to each other: monitors
/// that could start the state (see `StateManager::new`) still can after
/// their neighbours are found.
pub proof fn lemma_search_keeps_links(ms: Seq<MonitorView>)
    requires
        monitors_linked(ms),
    ensures
        monitors_linked(searched_monitors(ms)),
{
    let sm = searched_monitors(ms);
    assert forall|i: int, d: Direction|
        0 <= i < sm.len() && (#[trigger] sm[i].neighbors.at(d)) is Some implies has_monitor(sm, sm[i].neighbors.at(d)->0) by {
        let h = sm[i].neighbors.at(d)->0;
        if found_neighbor(ms, i, d) is Some {
            lemma_found_neighbor_is_other_monitor(ms, i, d);
        } else {
            assert(ms[i].neighbors.at(d) is Some);
        }
        assert(has_monitor(ms, h));
        let t = choose|t: int| 0 <= t < ms.len() && (#[trigger] ms[t]).hmonitor == h;
        assert(sm[t].hmonitor == h);
    }
    assert forall|i: int, k: int|
        0 <= i < sm.len() && 0 <= k < (#[trigger] sm[i]).workspaces.len() implies #[trigger] sm[i].workspaces[k]
            < 10 * sm.len() by {
        assert(sm[i].workspaces == ms[i].workspaces);
    }
}

/// Each candidate for a monitor's neighbours is another monitor.
proof fn lemma_other_candidate_from(ms: Seq<MonitorView>, h: isize, k: int)
    requires
        0 <= k < other_candidates(ms, h).len(),
    ensures
        exists|j: int|
            0 <= j < ms.len() && ms[j].hmonitor != h && #[trigger] monitor_candidate(ms[j])
                == other_candidates(ms, h)[k],
    decreases ms.len(),
{
    let d = ms.drop_last();
    let rest = other_candidates(d, h);
    if k < rest.len() {
        lemma_other_candidate_from(d, h, k);
        let j = choose|j: int|
            0 <= j < d.len() && d[j].hmonitor != h && #[trigger] monitor_candidate(d[j]) == rest[k];
        assert(ms[j] == d[j]);
    } else {
        assert(ms[ms.len() - 1] == ms.last());
    }
}

/// The neighbour found for a monitor in a direction is another monitor that
/// lies that way: above it (its top edge at or above the monitor's) for UP,
/// below it for DOWN, left of it for LEFT, right of it for RIGHT.
pub proof fn lemma_found_neighbor_lies_toward(ms: Seq<MonitorView>, i: int, d: Direction)
    requires
        0 <= i < ms.len(),
    ensures
        found_neighbor(ms, i, d) matches Some(h) ==> exists|j: int|
            #![trigger ms[j]]
            0 <= j < ms.len() && ms[j].hmonitor == h && ms[j].hmonitor != ms[i].hmonitor && match d {
                Direction::LEFT => ms[j].info.monitor.left <= ms[i].info.monitor.left,
                Direction::RIGHT => ms[j].info.monitor.left >= ms[i].info.monitor.left,
                Direction::UP => ms[j].info.monitor.top <= ms[i].info.monitor.top,
                Direction::DOWN => ms[j].info.monitor.top >= ms[i].info.monitor.top,
            },
{
    let o = monitor_candidate(ms[i]);
    let cs = other_candidates(ms, ms[i].hmonitor);
    if found_neighbor(ms, i, d) is Some {
        let k = choose|k: int| d.is_nearest(&o, cs, k);
        lemma_keeps_lies_beyond(d, &o, &cs[k]);
        lemma_other_candidate_from(ms, ms[i].hmonitor, k);
        let j = choose|j: int|
            0 <= j < ms.len() && ms[j].hmonitor != ms[i].hmonitor && #[trigger] monitor_candidate(ms[j]) == cs[k];
        assert(ms[j].hmonitor == cs[k].id);
    }
}

} // verus!
