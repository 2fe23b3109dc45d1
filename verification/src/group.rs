//! Groups: areas of a workspace among which windows are tiled, and the
//! manager that keeps track of which window is in which group.
use vstd::prelude::*;
use crate::axis::Axis;
use crate::direction::Direction;
use crate::geometry::Rect;

verus! {

/// An area of a workspace; its windows share the area along the split axis,
/// in the order in which they are listed.
pub struct Group {
    pub index: usize,
    pub split_axis: Axis,
    pub rect: Rect,
    pub windows: Vec<isize>,
}

/// The value of a group.
pub struct GroupView {
    pub index: usize,
    pub split_axis: Axis,
    pub rect: Rect,
    pub windows: Seq<isize>,
}

impl View for Group {
    type V = GroupView;

    open spec fn view(&self) -> GroupView {
        GroupView {
            index: self.index,
            split_axis: self.split_axis,
            rect: self.rect,
            windows: self.windows@,
        }
    }
}

/// Keeps the groups and the windows in them.
pub struct GroupManager {
    groups: Vec<Group>,
}

impl View for GroupManager {
    type V = Seq<GroupView>;

    closed spec fn view(&self) -> Seq<GroupView> {
        self.groups@.map_values(|g: Group| g@)
    }
}

/// The windows of all groups, group after group.
pub open spec fn all_hwnds(gs: Seq<GroupView>) -> Seq<isize>
    decreases gs.len(),
{
    if gs.len() == 0 {
        Seq::empty()
    } else {
        all_hwnds(gs.drop_last()) + gs.last().windows
    }
}

/// Some group holds the window.
pub open spec fn is_managed(gs: Seq<GroupView>, hwnd: isize) -> bool {
    exists|i: int| 0 <= i < gs.len() && (#[trigger] gs[i]).windows.contains(hwnd)
}

/// `i` is the first group that holds the window.
pub open spec fn is_first_group_of(gs: Seq<GroupView>, hwnd: isize, i: int) -> bool {
    &&& 0 <= i < gs.len()
    &&& gs[i].windows.contains(hwnd)
    &&& forall|j: int| 0 <= j < i ==> !(#[trigger] gs[j]).windows.contains(hwnd)
}

/// `k` is the first position of `x` in `s`.
pub open spec fn is_first_position(s: Seq<isize>, x: isize, k: int) -> bool {
    &&& 0 <= k < s.len()
    &&& s[k] == x
    &&& forall|j: int| 0 <= j < k ==> s[j] != x
}

/// The windows of the groups whose index is listed, group after group in
/// the order of the groups.
pub open spec fn hwnds_of_groups(gs: Seq<GroupView>, ids: Seq<usize>) -> Seq<isize> {
    all_hwnds(gs.filter(|g: GroupView| ids.contains(g.index)))
}

/// The same group with other windows.
pub open spec fn with_windows(g: GroupView, windows: Seq<isize>) -> GroupView {
    GroupView { windows: windows, ..g }
}

/// Whether `v` holds `x`.
pub fn vec_contains(v: &Vec<isize>, x: isize) -> (r: bool)
    ensures
        r == v@.contains(x),
{
    let mut i: usize = 0;
    while i < v.len()
        invariant
            0 <= i <= v.len(),
            forall|j: int| 0 <= j < i ==> v@[j] != x,
        decreases v.len() - i,
    {
        if v[i] == x {
            return true;
        }
        i = i + 1;
    }
    false
}

/// Whether `v` holds `x`.
pub fn usize_vec_contains(v: &Vec<usize>, x: usize) -> (r: bool)
    ensures
        r == v@.contains(x),
{
    let mut i: usize = 0;
    while i < v.len()
        invariant
            0 <= i <= v.len(),
            forall|j: int| 0 <= j < i ==> v@[j] != x,
        decreases v.len() - i,
    {
        if v[i] == x {
            return true;
        }
        i = i + 1;
    }
    false
}

/// The first position of `x` in `v`.
pub fn position_of(v: &Vec<isize>, x: isize) -> (r: Option<usize>)
    ensures
        match r {
            Some(k) => is_first_position(v@, x, k as int),
            None => !v@.contains(x),
        },
{
    let mut i: usize = 0;
    while i < v.len()
        invariant
            0 <= i <= v.len(),
            forall|j: int| 0 <= j < i ==> v@[j] != x,
        decreases v.len() - i,
    {
        if v[i] == x {
            return Some(i);
        }
        i = i + 1;
    }
    None
}

/// A copy of a list of windows.
pub fn copy_hwnds(v: &Vec<isize>) -> (r: Vec<isize>)
    ensures
        r@ == v@,
{
    let mut r: Vec<isize> = Vec::new();
    let mut i: usize = 0;
    while i < v.len()
        invariant
            0 <= i <= v.len(),
            r@ =~= v@.take(i as int),
        decreases v.len() - i,
    {
        r.push(v[i]);
        i = i + 1;
    }
    assert(v@.take(v.len() as int) =~= v@);
    r
}

/// Appends the elements of `src` to `dst`.
pub fn append_hwnds(dst: &mut Vec<isize>, src: &Vec<isize>)
    ensures
        final(dst)@ == old(dst)@ + src@,
{
    let ghost d0 = dst@;
    let mut i: usize = 0;
    while i < src.len()
        invariant
            0 <= i <= src.len(),
            dst@ =~= d0 + src@.take(i as int),
        decreases src.len() - i,
    {
        dst.push(src[i]);
        i = i + 1;
    }
    assert(src@.take(src.len() as int) =~= src@);
}

/// The windows of a list of groups, extended by one more group.
pub proof fn lemma_all_hwnds_push(gs: Seq<GroupView>, g: GroupView)
    ensures
        all_hwnds(gs.push(g)) == all_hwnds(gs) + g.windows,
{
    assert(gs.push(g).drop_last() =~= gs);
}

/// A window of a group of a list is among the windows of the list.
pub proof fn lemma_all_hwnds_contains(gs: Seq<GroupView>, i: int, h: isize)
    requires
        0 <= i < gs.len(),
        gs[i].windows.contains(h),
    ensures
        all_hwnds(gs).contains(h),
    decreases gs.len(),
{
    let k = choose|k: int| 0 <= k < gs[i].windows.len() && gs[i].windows[k] == h;
    if i == gs.len() - 1 {
        assert((all_hwnds(gs.drop_last()) + gs.last().windows)[all_hwnds(gs.drop_last()).len()
            + k] == h);
    } else {
        assert(gs.drop_last()[i] == gs[i]);
        lemma_all_hwnds_contains(gs.drop_last(), i, h);
        let m = choose|m: int|
            0 <= m < all_hwnds(gs.drop_last()).len() && all_hwnds(gs.drop_last())[m] == h;
        assert((all_hwnds(gs.drop_last()) + gs.last().windows)[m] == h);
    }
}

/// A window among the windows of a list of groups is in one of them.
pub proof fn lemma_all_hwnds_member(gs: Seq<GroupView>, h: isize)
    requires
        all_hwnds(gs).contains(h),
    ensures
        is_managed(gs, h),
    decreases gs.len(),
{
    if gs.len() > 0 {
        let pre = all_hwnds(gs.drop_last());
        let m = choose|m: int| 0 <= m < all_hwnds(gs).len() && all_hwnds(gs)[m] == h;
        if m < pre.len() {
            assert(pre[m] == h);
            lemma_all_hwnds_member(gs.drop_last(), h);
            let i = choose|i: int|
                0 <= i < gs.drop_last().len() && (#[trigger] gs.drop_last()[i]).windows.contains(h);
            assert(gs[i] == gs.drop_last()[i]);
        } else {
            assert(gs.last().windows[m - pre.len()] == h);
            assert(gs[gs.len() - 1].windows.contains(h));
        }
    }
}


/// Integer division rounding toward zero, as Rust's `/` does.
pub open spec fn trunc_div(a: int, b: int) -> int {
    if a >= 0 {
        a / b
    } else {
        -((-a) / b)
    }
}

/// The windows of a group that are in `manageable`, in the group's order.
pub open spec fn visible_windows(g: GroupView, manageable: Seq<isize>) -> Seq<isize> {
    g.windows.filter(|h: isize| manageable.contains(h))
}

/// The width and height of the rectangle fit in 32 bits.
pub open spec fn rect_in_range(r: Rect) -> bool {
    &&& i32::MIN <= r.right - r.left <= i32::MAX
    &&& i32::MIN <= r.bottom - r.top <= i32::MAX
}

/// The area of the `k`-th of `n` windows sharing a group: the group's area
/// cut into `n` equal slices along the split axis (slice size rounded toward
/// zero), horizontal slices stacked from the top, vertical ones from the left.
pub open spec fn slot(g: GroupView, n: int, k: int) -> Rect {
    match g.split_axis {
        Axis::HORIZONTAL => {
            let size = trunc_div(g.rect.bottom - g.rect.top, n);
            let top = g.rect.top + size * k;
            Rect { top: top as i32, bottom: (top + size) as i32, ..g.rect }
        },
        Axis::VERTICAL => {
            let size = trunc_div(g.rect.right - g.rect.left, n);
            let left = g.rect.left + size * k;
            Rect { left: left as i32, right: (left + size) as i32, ..g.rect }
        },
    }
}

/// The position of each visible window of a group.
pub open spec fn group_positions(g: GroupView, manageable: Seq<isize>) -> Seq<(isize, Rect)> {
    let v = visible_windows(g, manageable);
    Seq::new(v.len(), |k: int| (v[k], slot(g, v.len() as int, k)))
}

/// `s` without consecutive repeats (`Vec::dedup`).
pub open spec fn dedup(s: Seq<usize>) -> Seq<usize>
    decreases s.len(),
{
    if s.len() < 2 {
        s
    } else if s.last() == s[s.len() - 2] {
        dedup(s.drop_last())
    } else {
        dedup(s.drop_last()).push(s.last())
    }
}

/// The positions of the windows of the listed groups, group after group.
pub open spec fn positions_for(gs: Seq<GroupView>, ids: Seq<usize>, manageable: Seq<isize>) -> Seq<
    (isize, Rect),
>
    decreases ids.len(),
{
    if ids.len() == 0 {
        Seq::empty()
    } else {
        positions_for(gs, ids.drop_last(), manageable) + group_positions(
            gs[ids.last() as int],
            manageable,
        )
    }
}

/// The groups that a layout computation covers: the listed ones without
/// consecutive repeats, or every group when none is listed.
pub open spec fn layout_groups(gs: Seq<GroupView>, ids: Seq<usize>) -> Seq<usize> {
    if dedup(ids).len() == 0 {
        gs.map_values(|g: GroupView| g.index)
    } else {
        dedup(ids)
    }
}

/// The positions that a layout computation gives.
pub open spec fn window_positions(gs: Seq<GroupView>, ids: Seq<usize>, manageable: Seq<isize>) -> Seq<
    (isize, Rect),
> {
    positions_for(gs, layout_groups(gs, ids), manageable)
}

/// Every group that a layout computation covers exists and has an area
/// whose sizes fit in 32 bits.
pub open spec fn layout_in_range(gs: Seq<GroupView>, ids: Seq<usize>) -> bool {
    forall|k: int|
        0 <= k < layout_groups(gs, ids).len() ==> {
            &&& (#[trigger] layout_groups(gs, ids)[k]) < gs.len()
            &&& rect_in_range(gs[layout_groups(gs, ids)[k] as int].rect)
        }
}

/// Slices of an extent stay within the extent.
pub proof fn lemma_slice_bounds(a: int, n: int, k: int)
    requires
        n > 0,
        0 <= k <= n,
    ensures
        a >= 0 ==> 0 <= trunc_div(a, n) * k <= a,
        a < 0 ==> a <= trunc_div(a, n) * k <= 0,
{
    if a >= 0 {
        let q = a / n;
        vstd::arithmetic::div_mod::lemma_fundamental_div_mod(a, n);
        assert(0 <= q * k <= q * n) by (nonlinear_arith)
            requires
                0 <= k <= n,
                q >= 0,
        ;
        vstd::arithmetic::div_mod::lemma_div_pos_is_pos(a, n);
    } else {
        let b = -a;
        let q = b / n;
        vstd::arithmetic::div_mod::lemma_fundamental_div_mod(b, n);
        vstd::arithmetic::div_mod::lemma_div_pos_is_pos(b, n);
        assert(0 <= q * k <= q * n) by (nonlinear_arith)
            requires
                0 <= k <= n,
                q >= 0,
        ;
        assert((-q) * k == -(q * k)) by (nonlinear_arith);
    }
}

/// Rounding-toward-zero division of a 32-bit value.
fn trunc_div_exec(a: i32, n: usize) -> (r: i128)
    requires
        n > 0,
    ensures
        r == trunc_div(a as int, n as int),
{
    let aa: i128 = a as i128;
    let nn: i128 = n as i128;
    if aa >= 0 {
        aa / nn
    } else {
        -((-aa) / nn)
    }
}

/// `s` without consecutive repeats.
pub fn dedup_ids(s: &Vec<usize>) -> (r: Vec<usize>)
    ensures
        r@ == dedup(s@),
{
    let mut r: Vec<usize> = Vec::new();
    let mut i: usize = 0;
    while i < s.len()
        invariant
            0 <= i <= s.len(),
            r@ == dedup(s@.take(i as int)),
        decreases s.len() - i,
    {
        let ghost t = s@.take(i + 1);
        assert(t.drop_last() =~= s@.take(i as int));
        if i == 0 || s[i] != s[i - 1] {
            if i == 0 {
                assert(dedup(t) =~= t);
                assert(dedup(s@.take(0)) =~= Seq::<usize>::empty());
                assert(t =~= Seq::<usize>::empty().push(s@[0]));
            } else {
                assert(t[t.len() - 2] == s@[i - 1]);
            }
            r.push(s[i]);
        } else {
            assert(t[t.len() - 2] == s@[i - 1]);
        }
        i = i + 1;
    }
    assert(s@.take(s.len() as int) =~= s@);
    r
}


/// Each group sits at the position its index names, and its area's sizes fit in 32 bits.
pub open spec fn groups_wf(gs: Seq<GroupView>) -> bool {
    forall|i: int| 0 <= i < gs.len() ==> (#[trigger] gs[i]).index == i && rect_in_range(gs[i].rect)
}

/// Every listed group exists.
pub open spec fn ids_in_range(gs: Seq<GroupView>, ids: Seq<usize>) -> bool {
    forall|k: int| 0 <= k < ids.len() ==> (#[trigger] ids[k]) < gs.len()
}

/// What is left of `s` after removing consecutive repeats was in `s`.
pub proof fn lemma_dedup_subset(s: Seq<usize>, x: usize)
    requires
        dedup(s).contains(x),
    ensures
        s.contains(x),
    decreases s.len(),
{
    if s.len() >= 2 {
        let d = dedup(s.drop_last());
        if s.last() == s[s.len() - 2] {
            lemma_dedup_subset(s.drop_last(), x);
        } else {
            if d.contains(x) {
                lemma_dedup_subset(s.drop_last(), x);
            }
        }
        if s.drop_last().contains(x) {
            let j = choose|j: int| 0 <= j < s.drop_last().len() && s.drop_last()[j] == x;
            assert(s[j] == x);
        } else {
            assert(s[s.len() - 1] == x);
        }
    }
}

/// Well-formed groups can lay out any list of existing groups.
pub proof fn lemma_layout_in_range(gs: Seq<GroupView>, ids: Seq<usize>)
    requires
        groups_wf(gs),
        ids_in_range(gs, ids),
    ensures
        layout_in_range(gs, ids),
{
    assert forall|k: int| 0 <= k < layout_groups(gs, ids).len() implies {
        &&& (#[trigger] layout_groups(gs, ids)[k]) < gs.len()
        &&& rect_in_range(gs[layout_groups(gs, ids)[k] as int].rect)
    } by {
        if dedup(ids).len() != 0 {
            assert(dedup(ids).contains(dedup(ids)[k]));
            lemma_dedup_subset(ids, dedup(ids)[k]);
        } else {
            assert(gs[k].index == k);
        }
    }
}

/// The groups after the duplicate clean-up: going through the groups in
/// order, each keeps only the windows that no earlier group holds.
pub open spec fn validated(gs: Seq<GroupView>) -> Seq<GroupView>
    decreases gs.len(),
{
    if gs.len() == 0 {
        gs
    } else {
        let prev = validated(gs.drop_last());
        prev.push(
            with_windows(
                gs.last(),
                gs.last().windows.filter(|h: isize| !all_hwnds(prev).contains(h)),
            ),
        )
    }
}

/// The indices of the groups that the duplicate clean-up changed, in order.
pub open spec fn validation_changes(gs: Seq<GroupView>) -> Seq<usize>
    decreases gs.len(),
{
    if gs.len() == 0 {
        Seq::empty()
    } else {
        let prev = validated(gs.drop_last());
        let kept = gs.last().windows.filter(|h: isize| !all_hwnds(prev).contains(h));
        if kept.len() != gs.last().windows.len() {
            validation_changes(gs.drop_last()).push(gs.last().index)
        } else {
            validation_changes(gs.drop_last())
        }
    }
}

/// The groups after the window at position `w1` of group `g1` and the one at
/// position `w2` of group `g2` trade places.
pub open spec fn swapped(
    gs: Seq<GroupView>,
    g1: int,
    w1: int,
    g2: int,
    w2: int,
    h1: isize,
    h2: isize,
) -> Seq<GroupView> {
    let s1 = gs.update(g1, with_windows(gs[g1], gs[g1].windows.update(w1, h2)));
    s1.update(g2, with_windows(s1[g2], s1[g2].windows.update(w2, h1)))
}


/// The windows of a group after adding `hwnd` on the side one arrives at
/// when moving in direction `d`.
pub open spec fn entered_from(d: Direction, windows: Seq<isize>, hwnd: isize) -> Seq<isize> {
    match d {
        Direction::LEFT | Direction::UP => windows.push(hwnd),
        Direction::RIGHT | Direction::DOWN => seq![hwnd] + windows,
    }
}

/// The item next to the first occurrence of `x` in `s` in direction `d`
/// (see `Direction::adjacent_of`), if `x` occurs.
pub open spec fn adjacent_in(d: Direction, s: Seq<isize>, x: isize) -> Option<isize> {
    if s.contains(x) {
        let p = choose|p: int| is_first_position(s, x, p);
        match d.adjacent_of(p, s.len() as int) {
            Some(q) => Some(s[q as int]),
            None => None,
        }
    } else {
        None
    }
}

/// The item of `s` one enters first when arriving from direction `d`
/// (see `Direction::extreme_of`).
pub open spec fn extreme_in(d: Direction, s: Seq<isize>) -> Option<isize> {
    match d.extreme_of(s.len() as int) {
        Some(q) => Some(s[q as int]),
        None => None,
    }
}

/// The first position of an item is unique.
pub proof fn lemma_first_position_unique(s: Seq<isize>, x: isize, a: int, b: int)
    requires
        is_first_position(s, x, a),
        is_first_position(s, x, b),
    ensures
        a == b,
{
}

/// The first group holding a window is unique.
pub proof fn lemma_first_group_unique(gs: Seq<GroupView>, h: isize, a: int, b: int)
    requires
        is_first_group_of(gs, h, a),
        is_first_group_of(gs, h, b),
    ensures
        a == b,
{
    if a < b {
        assert(!gs[a].windows.contains(h));
    } else if b < a {
        assert(!gs[b].windows.contains(h));
    }
}

/// The clean-up keeps the number of groups and each group's index, axis and area.
pub proof fn lemma_validated_shape(gs: Seq<GroupView>)
    ensures
        validated(gs).len() == gs.len(),
        forall|i: int|
            0 <= i < gs.len() ==> (#[trigger] validated(gs)[i]).index == gs[i].index
                && validated(gs)[i].rect == gs[i].rect && validated(gs)[i].split_axis
                == gs[i].split_axis,
    decreases gs.len(),
{
    if gs.len() > 0 {
        lemma_validated_shape(gs.drop_last());
        assert forall|i: int| 0 <= i < gs.len() implies (#[trigger] validated(gs)[i]).index
            == gs[i].index && validated(gs)[i].rect == gs[i].rect && validated(gs)[i].split_axis
            == gs[i].split_axis by {
            if i < gs.len() - 1 {
                assert(validated(gs)[i] == validated(gs.drop_last())[i]);
                assert(gs.drop_last()[i] == gs[i]);
            }
        }
    }
}

/// The groups that the clean-up reports as changed are indices of groups.
pub proof fn lemma_validation_changes_are_indices(gs: Seq<GroupView>)
    requires
        groups_wf(gs),
    ensures
        ids_in_range(validated(gs), validation_changes(gs)),
    decreases gs.len(),
{
    lemma_validated_shape(gs);
    if gs.len() > 0 {
        let p = gs.drop_last();
        assert(groups_wf(p)) by {
            assert forall|i: int| 0 <= i < p.len() implies (#[trigger] p[i]).index == i
                && rect_in_range(p[i].rect) by {
                assert(p[i] == gs[i]);
            }
        }
        lemma_validation_changes_are_indices(p);
        lemma_validated_shape(p);
        assert(gs.last().index == gs.len() - 1);
    }
}

impl GroupManager {
    /// A manager of the given groups.
    pub fn new(groups: Vec<Group>) -> (r: Self)
        ensures
            r@ == groups@.map_values(|g: Group| g@),
    {
        Self { groups }
    }

    /// The number of groups.
    pub fn len(&self) -> (r: usize)
        ensures
            r == self@.len(),
    {
        self.groups.len()
    }

    /// The windows of all groups, group after group.
    pub fn managed_hwnds(&self) -> (r: Vec<isize>)
        ensures
            r@ == all_hwnds(self@),
    {
        let mut r: Vec<isize> = Vec::new();
        let mut i: usize = 0;
        while i < self.groups.len()
            invariant
                0 <= i <= self.groups.len(),
                self@ == self.groups@.map_values(|g: Group| g@),
                r@ == all_hwnds(self@.take(i as int)),
            decreases self.groups.len() - i,
        {
            proof {
                assert(self@.take(i + 1) =~= self@.take(i as int).push(self@[i as int]));
                lemma_all_hwnds_push(self@.take(i as int), self@[i as int]);
            }
            append_hwnds(&mut r, &self.groups[i].windows);
            i = i + 1;
        }
        assert(self@.take(self.groups.len() as int) =~= self@);
        r
    }

    /// The number of windows in all groups, counted with repetitions.
    pub fn num_hwnds(&self) -> (r: usize)
        ensures
            r == all_hwnds(self@).len(),
    {
        let hwnds = self.managed_hwnds();
        hwnds.len()
    }

    /// The first group that holds the window.
    pub fn group_for_hwnd(&self, hwnd: isize) -> (r: usize)
        requires
            is_managed(self@, hwnd),
        ensures
            is_first_group_of(self@, hwnd, r as int),
    {
        let mut i: usize = 0;
        while i < self.groups.len()
            invariant
                0 <= i <= self.groups.len(),
                self@ == self.groups@.map_values(|g: Group| g@),
                is_managed(self@, hwnd),
                forall|j: int| 0 <= j < i ==> !(#[trigger] self@[j]).windows.contains(hwnd),
            decreases self.groups.len() - i,
        {
            if vec_contains(&self.groups[i].windows, hwnd) {
                return i;
            }
            i = i + 1;
        }
        proof {
            let k = choose|k: int| 0 <= k < self@.len() && (#[trigger] self@[k]).windows.contains(hwnd);
        }
        0
    }

    /// The first position of the window in a group.
    pub fn get_window_index_in_group(&self, group_index: usize, hwnd: isize) -> (r: usize)
        requires
            group_index < self@.len(),
            self@[group_index as int].windows.contains(hwnd),
        ensures
            is_first_position(self@[group_index as int].windows, hwnd, r as int),
    {
        match position_of(&self.groups[group_index].windows, hwnd) {
            Some(k) => k,
            None => 0,
        }
    }

    /// Whether the group splits along the given axis.
    pub fn group_is_axis(&self, group_index: usize, axis: &Axis) -> (r: bool)
        requires
            group_index < self@.len(),
        ensures
            r == (self@[group_index as int].split_axis == *axis),
    {
        self.groups[group_index].split_axis == *axis
    }

    /// The windows of the groups whose index is listed.
    pub fn hwnds_from_groups(&self, group_ids: &Vec<usize>) -> (r: Vec<isize>)
        ensures
            r@ == hwnds_of_groups(self@, group_ids@),
    {
        let ghost pred = |g: GroupView| group_ids@.contains(g.index);
        let mut r: Vec<isize> = Vec::new();
        let mut i: usize = 0;
        while i < self.groups.len()
            invariant
                0 <= i <= self.groups.len(),
                self@ == self.groups@.map_values(|g: Group| g@),
                pred == (|g: GroupView| group_ids@.contains(g.index)),
                r@ == all_hwnds(self@.take(i as int).filter(pred)),
            decreases self.groups.len() - i,
        {
            proof {
                reveal(Seq::filter);
                assert(self@.take(i + 1).drop_last() =~= self@.take(i as int));
                lemma_all_hwnds_push(self@.take(i as int).filter(pred), self@[i as int]);
            }
            if usize_vec_contains(group_ids, self.groups[i].index) {
                append_hwnds(&mut r, &self.groups[i].windows);
            }
            i = i + 1;
        }
        assert(self@.take(self.groups.len() as int) =~= self@);
        r
    }


    /// The positions of the visible windows of one group.
    pub fn group_positions_exec(&self, group_index: usize, manageable: &Vec<isize>) -> (r: Vec<
        (isize, Rect),
    >)
        requires
            group_index < self@.len(),
            rect_in_range(self@[group_index as int].rect),
        ensures
            r@ == group_positions(self@[group_index as int], manageable@),
    {
        let ghost gv = self@[group_index as int];
        let g = &self.groups[group_index];
        assert(g@ == gv);
        let width: i32 = g.rect.right - g.rect.left;
        let height: i32 = g.rect.bottom - g.rect.top;
        let ghost pred = |h: isize| manageable@.contains(h);
        let mut vis: Vec<isize> = Vec::new();
        let mut i: usize = 0;
        while i < g.windows.len()
            invariant
                0 <= i <= g.windows.len(),
                g@ == gv,
                pred == (|h: isize| manageable@.contains(h)),
                vis@ == gv.windows.take(i as int).filter(pred),
            decreases g.windows.len() - i,
        {
            proof {
                reveal(Seq::filter);
                assert(gv.windows.take(i + 1).drop_last() =~= gv.windows.take(i as int));
            }
            if vec_contains(manageable, g.windows[i]) {
                vis.push(g.windows[i]);
            }
            i = i + 1;
        }
        assert(gv.windows.take(g.windows.len() as int) =~= gv.windows);
        let n = vis.len();
        let mut r: Vec<(isize, Rect)> = Vec::new();
        let mut k: usize = 0;
        while k < n
            invariant
                0 <= k <= n,
                n == vis.len(),
                g@ == gv,
                width == gv.rect.right - gv.rect.left,
                height == gv.rect.bottom - gv.rect.top,
                vis@ == visible_windows(gv, manageable@),
                r@ =~= group_positions(gv, manageable@).take(k as int),
            decreases n - k,
        {
            let rect = match g.split_axis {
                Axis::HORIZONTAL => {
                    let size = trunc_div_exec(height, n);
                    proof {
                        lemma_slice_bounds(height as int, n as int, k as int);
                        lemma_slice_bounds(height as int, n as int, k + 1);
                        assert(size * (k + 1) == size * k + size) by (nonlinear_arith);
                    }
                    let top: i128 = (g.rect.top as i128) + size * (k as i128);
                    let bottom: i128 = top + size;
                    Rect { left: g.rect.left, top: top as i32, right: g.rect.right, bottom: bottom as i32 }
                },
                Axis::VERTICAL => {
                    let size = trunc_div_exec(width, n);
                    proof {
                        lemma_slice_bounds(width as int, n as int, k as int);
                        lemma_slice_bounds(width as int, n as int, k + 1);
                        assert(size * (k + 1) == size * k + size) by (nonlinear_arith);
                    }
                    let left: i128 = (g.rect.left as i128) + size * (k as i128);
                    let right: i128 = left + size;
                    Rect { left: left as i32, top: g.rect.top, right: right as i32, bottom: g.rect.bottom }
                },
            };
            assert(rect == slot(gv, n as int, k as int));
            r.push((vis[k], rect));
            k = k + 1;
        }
        r
    }

    /// The positions of the windows of several groups: for each group that the
    /// layout covers (the listed ones without consecutive repeats, or all when
    /// none are listed), its windows that are in `manageable` share its area.
    pub fn calculate_window_positions(&self, group_ids: Vec<usize>, manageable: &Vec<isize>) -> (r:
        Vec<(isize, Rect)>)
        requires
            layout_in_range(self@, group_ids@),
        ensures
            r@ == window_positions(self@, group_ids@, manageable@),
    {
        let mut ids = dedup_ids(&group_ids);
        if ids.len() == 0 {
            ids = self.all_groups();
        }
        assert(ids@ == layout_groups(self@, group_ids@));
        let mut r: Vec<(isize, Rect)> = Vec::new();
        let mut i: usize = 0;
        while i < ids.len()
            invariant
                0 <= i <= ids.len(),
                ids@ == layout_groups(self@, group_ids@),
                layout_in_range(self@, group_ids@),
                r@ == positions_for(self@, ids@.take(i as int), manageable@),
            decreases ids.len() - i,
        {
            assert(ids@.take(i + 1).drop_last() =~= ids@.take(i as int));
            assert(ids@[i as int] == layout_groups(self@, group_ids@)[i as int]);
            let mut p = self.group_positions_exec(ids[i], manageable);
            let ghost r0 = r@;
            r.append(&mut p);
            i = i + 1;
        }
        assert(ids@.take(ids.len() as int) =~= ids@);
        r
    }

    /// The indices of all groups, in order.
    fn all_groups(&self) -> (r: Vec<usize>)
        ensures
            r@ == self@.map_values(|g: GroupView| g.index),
    {
        let mut r: Vec<usize> = Vec::new();
        let mut i: usize = 0;
        while i < self.groups.len()
            invariant
                0 <= i <= self.groups.len(),
                self@ == self.groups@.map_values(|g: Group| g@),
                r@ =~= self@.map_values(|g: GroupView| g.index).take(i as int),
            decreases self.groups.len() - i,
        {
            r.push(self.groups[i].index);
            i = i + 1;
        }
        r
    }


    /// Adds a window at the end of a group and lays the group out again;
    /// nothing changes when the group already holds the window.
    pub fn add_window(&mut self, group_index: usize, hwnd: isize, manageable: &Vec<isize>) -> (r: Vec<
        (isize, Rect),
    >)
        requires
            group_index < old(self)@.len(),
            rect_in_range(old(self)@[group_index as int].rect),
        ensures
            old(self)@[group_index as int].windows.contains(hwnd) ==> final(self)@ == old(self)@
                && r@.len() == 0,
            !old(self)@[group_index as int].windows.contains(hwnd) ==> final(self)@ == old(
                self,
            )@.update(
                group_index as int,
                with_windows(
                    old(self)@[group_index as int],
                    old(self)@[group_index as int].windows.push(hwnd),
                ),
            ) && r@ == group_positions(final(self)@[group_index as int], manageable@),
            final(self)@ == add_result(old(self)@, group_index as int, hwnd),
            r@ == add_positions(old(self)@, group_index as int, hwnd, manageable@),
    {
        if vec_contains(&self.groups[group_index].windows, hwnd) {
            return Vec::new();
        }
        let mut w = copy_hwnds(&self.groups[group_index].windows);
        w.push(hwnd);
        self.set_windows(group_index, w);
        self.positions_of_group(group_index, manageable)
    }

    /// Adds a window to a group on the side one arrives at when moving in the
    /// given direction (at the end for LEFT and UP, at the front for RIGHT
    /// and DOWN) and lays the group out again; nothing changes when the group
    /// already holds the window.
    pub fn add_window_direction(
        &mut self,
        group_index: usize,
        hwnd: isize,
        direction: &Direction,
        manageable: &Vec<isize>,
    ) -> (r: Vec<(isize, Rect)>)
        requires
            group_index < old(self)@.len(),
            rect_in_range(old(self)@[group_index as int].rect),
        ensures
            old(self)@[group_index as int].windows.contains(hwnd) ==> final(self)@ == old(self)@
                && r@.len() == 0,
            !old(self)@[group_index as int].windows.contains(hwnd) ==> final(self)@ == old(
                self,
            )@.update(
                group_index as int,
                with_windows(
                    old(self)@[group_index as int],
                    entered_from(*direction, old(self)@[group_index as int].windows, hwnd),
                ),
            ) && r@ == group_positions(final(self)@[group_index as int], manageable@),
            final(self)@ == add_dir_result(old(self)@, group_index as int, hwnd, *direction),
            r@ == add_dir_positions(old(self)@, group_index as int, hwnd, *direction, manageable@),
            !old(self)@[group_index as int].windows.contains(hwnd) ==> {
                let before = old(self)@[group_index as int].windows;
                let after = final(self)@[group_index as int].windows;
                &&& after.len() == before.len() + 1
                &&& match *direction {
                    Direction::LEFT | Direction::UP => after.last() == hwnd && after.drop_last() == before,
                    Direction::RIGHT | Direction::DOWN => after[0] == hwnd && after.drop_first() == before,
                }
            },
    {
        proof {
            lemma_entered_from_sides(*direction, old(self)@[group_index as int].windows, hwnd);
        }
        if vec_contains(&self.groups[group_index].windows, hwnd) {
            return Vec::new();
        }
        let mut w = copy_hwnds(&self.groups[group_index].windows);
        match direction {
            Direction::LEFT | Direction::UP => {
                w.push(hwnd);
            },
            Direction::RIGHT | Direction::DOWN => {
                w.insert(0, hwnd);
                assert(w@ =~= seq![hwnd] + old(self)@[group_index as int].windows);
            },
        }
        self.set_windows(group_index, w);
        self.positions_of_group(group_index, manageable)
    }

    /// Lays out one group through the general layout computation.
    fn positions_of_group(&self, group_index: usize, manageable: &Vec<isize>) -> (r: Vec<
        (isize, Rect),
    >)
        requires
            group_index < self@.len(),
            rect_in_range(self@[group_index as int].rect),
        ensures
            r@ == group_positions(self@[group_index as int], manageable@),
    {
        let ids = vec![group_index];
        proof {
            let s = seq![group_index];
            assert(ids@ =~= s);
            assert(dedup(s) =~= s);
            assert(s.drop_last() =~= Seq::<usize>::empty());
            assert(layout_groups(self@, s) =~= s);
            assert(positions_for(self@, s.drop_last(), manageable@) =~= Seq::<(isize, Rect)>::empty());
            assert(s.last() == group_index);
            assert(positions_for(self@, s, manageable@) =~= group_positions(
                self@[group_index as int],
                manageable@,
            ));
        }
        self.calculate_window_positions(ids, manageable)
    }

    /// Removes every occurrence of a window from the first group that holds it
    /// and lays that group out again.
    pub fn remove_window(&mut self, hwnd: isize, manageable: &Vec<isize>) -> (r: Vec<(isize, Rect)>)
        requires
            is_managed(old(self)@, hwnd),
            forall|i: int|
                is_first_group_of(old(self)@, hwnd, i) ==> rect_in_range(
                    #[trigger] old(self)@[i].rect,
                ),
        ensures
            exists|gi: int|
                #![trigger old(self)@[gi]]
                is_first_group_of(old(self)@, hwnd, gi) && final(self)@ == old(self)@.update(
                    gi,
                    with_windows(
                        old(self)@[gi],
                        old(self)@[gi].windows.filter(other_than(hwnd)),
                    ),
                ) && r@ == group_positions(final(self)@[gi], manageable@),
            final(self)@ == remove_result(old(self)@, hwnd),
            r@ == remove_positions(old(self)@, hwnd, manageable@),
    {
        let gi = self.get_group_index_by_hwnd(hwnd);
        proof {
            lemma_first_group_unique(old(self)@, hwnd, gi as int, first_group(old(self)@, hwnd));
        }
        let ghost pred = other_than(hwnd);
        let ghost gw = old(self)@[gi as int].windows;
        let mut w: Vec<isize> = Vec::new();
        let mut i: usize = 0;
        while i < self.groups[gi].windows.len()
            invariant
                gi < self@.len(),
                self@ == old(self)@,
                self@ == self.groups@.map_values(|g: Group| g@),
                gw == self@[gi as int].windows,
                0 <= i <= gw.len(),
                pred == other_than(hwnd),
                w@ == gw.take(i as int).filter(pred),
            decreases gw.len() - i,
        {
            proof {
                reveal(Seq::filter);
                assert(gw.take(i + 1).drop_last() =~= gw.take(i as int));
            }
            assert(self.groups[gi as int]@ == self@[gi as int]);
            if self.groups[gi].windows[i] != hwnd {
                w.push(self.groups[gi].windows[i]);
            }
            i = i + 1;
        }
        assert(gw.take(gw.len() as int) =~= gw);
        proof {
            lemma_first_group_unique(old(self)@, hwnd, gi as int, first_group(old(self)@, hwnd));
            assert(gi == first_group(old(self)@, hwnd));
        }
        self.set_windows(gi, w);
        assert(self@ == remove_result(old(self)@, hwnd));
        self.positions_of_group(gi, manageable)
    }

    /// Makes two windows trade places: the first occurrence of each, in the
    /// first group that holds it. Gives the groups that changed.
    pub fn swap_windows(&mut self, hwnd_1: isize, hwnd_2: isize) -> (r: Vec<usize>)
        requires
            is_managed(old(self)@, hwnd_1),
            is_managed(old(self)@, hwnd_2),
        ensures
            exists|g1: int, w1: int, g2: int, w2: int|
                #![trigger old(self)@[g1], old(self)@[g2], old(self)@[g1].windows[w1], old(self)@[g2].windows[w2]]
                {
                    &&& is_first_group_of(old(self)@, hwnd_1, g1)
                    &&& is_first_group_of(old(self)@, hwnd_2, g2)
                    &&& is_first_position(old(self)@[g1].windows, hwnd_1, w1)
                    &&& is_first_position(old(self)@[g2].windows, hwnd_2, w2)
                    &&& final(self)@ == swapped(old(self)@, g1, w1, g2, w2, hwnd_1, hwnd_2)
                    &&& r@ == (if g1 == g2 {
                        seq![g1 as usize]
                    } else {
                        seq![g1 as usize, g2 as usize]
                    })
                },
            final(self)@ == swap_result(old(self)@, hwnd_1, hwnd_2),
            r@ == swap_groups(old(self)@, hwnd_1, hwnd_2),
    {
        let g1 = self.get_group_index_by_hwnd(hwnd_1);
        let g2 = self.get_group_index_by_hwnd(hwnd_2);
        let w1 = self.get_window_index_in_group(g1, hwnd_1);
        let w2 = self.get_window_index_in_group(g2, hwnd_2);
        proof {
            lemma_first_group_unique(old(self)@, hwnd_1, g1 as int, first_group(old(self)@, hwnd_1));
            lemma_first_group_unique(old(self)@, hwnd_2, g2 as int, first_group(old(self)@, hwnd_2));
            lemma_first_position_unique(old(self)@[g1 as int].windows, hwnd_1, w1 as int, first_pos(old(self)@[g1 as int].windows, hwnd_1));
            lemma_first_position_unique(old(self)@[g2 as int].windows, hwnd_2, w2 as int, first_pos(old(self)@[g2 as int].windows, hwnd_2));
        }
        let mut set1 = copy_hwnds(&self.groups[g1].windows);
        set1.set(w1, hwnd_2);
        self.set_windows(g1, set1);
        assert(self@.len() == old(self)@.len());
        assert(self.groups@.len() == self@.len());
        assert(self@[g2 as int].windows.len() == old(self)@[g2 as int].windows.len());
        assert(self.groups@[g2 as int]@ == self@[g2 as int]);
        let mut set2 = copy_hwnds(&self.groups[g2].windows);
        set2.set(w2, hwnd_1);
        self.set_windows(g2, set2);
        assert(self@ =~= swapped(
            old(self)@,
            g1 as int,
            w1 as int,
            g2 as int,
            w2 as int,
            hwnd_1,
            hwnd_2,
        ));
        assert(old(self)@[g1 as int].windows[w1 as int] == hwnd_1);
        assert(old(self)@[g2 as int].windows[w2 as int] == hwnd_2);
        if g2 == g1 {
            let r = vec![g1];
            assert(r@ =~= seq![g1]);
            r
        } else {
            let r = vec![g1, g2];
            assert(r@ =~= seq![g1, g2]);
            r
        }
    }

    /// Makes sure that no window is held by two groups: going through the
    /// groups in order, each keeps only the windows that no earlier group
    /// holds. Lays out the groups that changed (all groups when none did),
    /// among the windows that remain.
    #[verifier::rlimit(40)]
    pub fn validate(&mut self) -> (r: Vec<(isize, Rect)>)
        requires
            groups_wf(old(self)@),
        ensures
            final(self)@ == validated(old(self)@),
            r@ == window_positions(
                final(self)@,
                validation_changes(old(self)@),
                all_hwnds(final(self)@),
            ),
    {
        let ghost gs = old(self)@;
        let mut all: Vec<isize> = Vec::new();
        let mut updated: Vec<usize> = Vec::new();
        let mut i: usize = 0;
        assert(gs.take(0) =~= Seq::<GroupView>::empty());
        assert(self@.take(0) =~= Seq::<GroupView>::empty());
        while i < self.groups.len()
            invariant
                0 <= i <= gs.len(),
                self@.len() == gs.len(),
                self@ == self.groups@.map_values(|g: Group| g@),
                self@.take(i as int) == validated(gs.take(i as int)),
                forall|j: int| i <= j < gs.len() ==> #[trigger] self@[j] == gs[j],
                all@ == all_hwnds(validated(gs.take(i as int))),
                updated@ == validation_changes(gs.take(i as int)),
            decreases gs.len() - i,
        {
            let ghost prev = validated(gs.take(i as int));
            let ghost pred = |h: isize| !all_hwnds(prev).contains(h);
            let ghost gw = gs[i as int].windows;
            assert(gs.take(i + 1).drop_last() =~= gs.take(i as int));
            assert(gs.take(i + 1).last() == gs[i as int]);
            assert(self.groups[i as int]@ == self@[i as int]);
            let kept = self.windows_not_in(i, &all);
            assert((|h: isize| !all@.contains(h)) =~= pred);
            if kept.len() != self.groups[i].windows.len() {
                updated.push(self.groups[i].index);
            }
            append_hwnds(&mut all, &kept);
            let ghost before = self@;
            self.set_windows(i, kept);
            proof {
                lemma_all_hwnds_push(prev, with_windows(gs[i as int], gw.filter(pred)));
                assert(self@.take(i + 1) =~= before.take(i as int).push(
                    with_windows(gs[i as int], gw.filter(pred)),
                ));
            }
            i = i + 1;
        }
        assert(gs.take(gs.len() as int) =~= gs);
        assert(self@ =~= self@.take(gs.len() as int));
        proof {
            lemma_validated_shape(gs);
            lemma_validation_changes_are_indices(gs);
            lemma_layout_in_range(self@, updated@);
        }
        self.calculate_window_positions(updated, &all)
    }

    /// The window next to `hwnd` within its group, in the given direction,
    /// counting only the windows that are in `managed`.
    pub fn candidate_for_hwnd_in_direction(
        &self,
        hwnd: isize,
        direction: &Direction,
        managed: &Vec<isize>,
    ) -> (r: Option<isize>)
        requires
            is_managed(self@, hwnd),
        ensures
            exists|gi: int|
                #![trigger self@[gi]]
                is_first_group_of(self@, hwnd, gi) && r == adjacent_in(
                    *direction,
                    visible_windows(self@[gi], managed@),
                    hwnd,
                ),
    {
        let gi = self.group_for_hwnd(hwnd);
        let hwnds = self.visible(gi, managed);
        match position_of(&hwnds, hwnd) {
            None => None,
            Some(p) => match direction.adjacent_index(p, hwnds.len()) {
                None => None,
                Some(q) => Some(hwnds[q]),
            },
        }
    }

    /// The window one enters first in a group when arriving from the given
    /// direction, counting only the windows that are in `managed`.
    pub fn candidate_for_group_in_direction(
        &self,
        group: usize,
        direction: &Direction,
        managed: &Vec<isize>,
    ) -> (r: Option<isize>)
        requires
            group < self@.len(),
        ensures
            r == extreme_in(*direction, visible_windows(self@[group as int], managed@)),
    {
        let hwnds = self.visible(group, managed);
        match direction.extreme_index(hwnds.len()) {
            None => None,
            Some(q) => Some(hwnds[q]),
        }
    }

    /// The windows of a group that are in `managed`.
    fn visible(&self, group_index: usize, managed: &Vec<isize>) -> (r: Vec<isize>)
        requires
            group_index < self@.len(),
        ensures
            r@ == visible_windows(self@[group_index as int], managed@),
    {
        let ghost gw = self@[group_index as int].windows;
        let ghost pred = |h: isize| managed@.contains(h);
        assert(self.groups[group_index as int]@ == self@[group_index as int]);
        let mut w: Vec<isize> = Vec::new();
        let mut i: usize = 0;
        while i < self.groups[group_index].windows.len()
            invariant
                group_index < self@.len(),
                self@ == self.groups@.map_values(|g: Group| g@),
                gw == self@[group_index as int].windows,
                0 <= i <= gw.len(),
                pred == (|h: isize| managed@.contains(h)),
                w@ == gw.take(i as int).filter(pred),
            decreases gw.len() - i,
        {
            proof {
                reveal(Seq::filter);
                assert(gw.take(i + 1).drop_last() =~= gw.take(i as int));
            }
            assert(self.groups[group_index as int]@ == self@[group_index as int]);
            let h = self.groups[group_index].windows[i];
            if vec_contains(managed, h) {
                w.push(h);
            }
            i = i + 1;
        }
        assert(gw.take(gw.len() as int) =~= gw);
        w
    }

    /// The first group that holds the window.
    fn get_group_index_by_hwnd(&self, hwnd: isize) -> (r: usize)
        requires
            is_managed(self@, hwnd),
        ensures
            is_first_group_of(self@, hwnd, r as int),
    {
        self.group_for_hwnd(hwnd)
    }


    /// The windows of a group that are not in `all`.
    fn windows_not_in(&self, group_index: usize, all: &Vec<isize>) -> (r: Vec<isize>)
        requires
            group_index < self@.len(),
        ensures
            r@ == self@[group_index as int].windows.filter(|h: isize| !all@.contains(h)),
    {
        let ghost gw = self@[group_index as int].windows;
        let ghost pred = |h: isize| !all@.contains(h);
        assert(self.groups[group_index as int]@ == self@[group_index as int]);
        let mut w: Vec<isize> = Vec::new();
        let mut i: usize = 0;
        while i < self.groups[group_index].windows.len()
            invariant
                group_index < self@.len(),
                self@ == self.groups@.map_values(|g: Group| g@),
                gw == self@[group_index as int].windows,
                0 <= i <= gw.len(),
                pred == (|h: isize| !all@.contains(h)),
                w@ == gw.take(i as int).filter(pred),
            decreases gw.len() - i,
        {
            proof {
                reveal(Seq::filter);
                assert(gw.take(i + 1).drop_last() =~= gw.take(i as int));
            }
            assert(self.groups[group_index as int]@ == self@[group_index as int]);
            let h = self.groups[group_index].windows[i];
            if !vec_contains(all, h) {
                w.push(h);
            }
            i = i + 1;
        }
        assert(gw.take(gw.len() as int) =~= gw);
        w
    }

    /// Replaces the windows of one group.
    fn set_windows(&mut self, group_index: usize, windows: Vec<isize>)
        requires
            group_index < old(self)@.len(),
        ensures
            final(self)@ == old(self)@.update(
                group_index as int,
                with_windows(old(self)@[group_index as int], windows@),
            ),
    {
        let g = self.groups.remove(group_index);
        let ng = Group { index: g.index, split_axis: g.split_axis, rect: g.rect, windows };
        self.groups.insert(group_index, ng);
        assert(self@ =~= old(self)@.update(
            group_index as int,
            with_windows(old(self)@[group_index as int], windows@),
        ));
    }
}

} // verus!

verus! {

/// After the duplicate clean-up no window is held by two different groups.
pub proof fn lemma_validated_disjoint(gs: Seq<GroupView>, i: int, j: int, h: isize)
    requires
        0 <= i < j < gs.len(),
        validated(gs)[i].windows.contains(h),
    ensures
        !validated(gs)[j].windows.contains(h),
    decreases gs.len(),
{
    broadcast use vstd::seq_lib::group_filter_ensures;

    lemma_validated_shape(gs);
    let prev = validated(gs.drop_last());
    lemma_validated_shape(gs.drop_last());
    assert(validated(gs)[i] == prev[i]);
    if j == gs.len() - 1 {
        lemma_all_hwnds_contains(prev, i, h);
        let kept = gs.last().windows.filter(|x: isize| !all_hwnds(prev).contains(x));
        if kept.contains(h) {
            let k = choose|k: int| 0 <= k < kept.len() && kept[k] == h;
            assert(!all_hwnds(prev).contains(kept[k]));
        }
    } else {
        assert(validated(gs)[j] == prev[j]);
        lemma_validated_disjoint(gs.drop_last(), i, j, h);
    }
}

/// The duplicate clean-up keeps every window under management: a window is
/// in some group afterwards exactly when it was in some group before.
pub proof fn lemma_validated_keeps_windows(gs: Seq<GroupView>, h: isize)
    ensures
        is_managed(validated(gs), h) <==> is_managed(gs, h),
    decreases gs.len(),
{
    broadcast use vstd::seq_lib::group_filter_ensures;

    lemma_validated_shape(gs);
    if gs.len() > 0 {
        let p = gs.drop_last();
        let prev = validated(p);
        lemma_validated_shape(p);
        lemma_validated_keeps_windows(p, h);
        let last = gs.len() - 1;
        let kept = gs.last().windows.filter(|x: isize| !all_hwnds(prev).contains(x));
        assert(validated(gs)[last].windows == kept);
        if is_managed(validated(gs), h) {
            let i = choose|i: int|
                0 <= i < validated(gs).len() && (#[trigger] validated(gs)[i]).windows.contains(h);
            if i < last {
                assert(validated(gs)[i] == prev[i]);
                assert(is_managed(prev, h));
                let k = choose|k: int| 0 <= k < p.len() && (#[trigger] p[k]).windows.contains(h);
                assert(gs[k] == p[k]);
            } else {
                assert(kept.contains(h));
                gs.last().windows.lemma_filter_contains_rev(
                    |x: isize| !all_hwnds(prev).contains(x),
                    h,
                );
                assert(gs[last].windows.contains(h));
            }
        }
        if is_managed(gs, h) {
            let i = choose|i: int| 0 <= i < gs.len() && (#[trigger] gs[i]).windows.contains(h);
            if i < last {
                assert(p[i] == gs[i]);
                assert(is_managed(p, h));
                let k = choose|k: int|
                    0 <= k < prev.len() && (#[trigger] prev[k]).windows.contains(h);
                assert(validated(gs)[k] == prev[k]);
            } else if all_hwnds(prev).contains(h) {
                lemma_all_hwnds_member(prev, h);
                let k = choose|k: int|
                    0 <= k < prev.len() && (#[trigger] prev[k]).windows.contains(h);
                assert(validated(gs)[k] == prev[k]);
            } else {
                let k = choose|k: int| 0 <= k < gs[last].windows.len() && gs[last].windows[k] == h;
                assert(kept.contains(gs.last().windows[k]));
                assert(validated(gs)[last].windows.contains(h));
            }
        }
    }
}

} // verus!

verus! {

/// The test "is not `h`".
pub open spec fn other_than(h: isize) -> spec_fn(isize) -> bool {
    |x: isize| x != h
}

/// The first group that holds a window.
pub open spec fn first_group(gs: Seq<GroupView>, h: isize) -> int {
    choose|i: int| is_first_group_of(gs, h, i)
}

/// The first position of an item.
pub open spec fn first_pos(s: Seq<isize>, x: isize) -> int {
    choose|k: int| is_first_position(s, x, k)
}

/// The groups after `swap_windows(h1, h2)`.
pub open spec fn swap_result(gs: Seq<GroupView>, h1: isize, h2: isize) -> Seq<GroupView> {
    let g1 = first_group(gs, h1);
    let g2 = first_group(gs, h2);
    swapped(gs, g1, first_pos(gs[g1].windows, h1), g2, first_pos(gs[g2].windows, h2), h1, h2)
}

/// The groups that `swap_windows(h1, h2)` reports as changed.
pub open spec fn swap_groups(gs: Seq<GroupView>, h1: isize, h2: isize) -> Seq<usize> {
    let g1 = first_group(gs, h1);
    let g2 = first_group(gs, h2);
    if g1 == g2 {
        seq![g1 as usize]
    } else {
        seq![g1 as usize, g2 as usize]
    }
}

/// The groups after `remove_window(h, ..)`.
pub open spec fn remove_result(gs: Seq<GroupView>, h: isize) -> Seq<GroupView> {
    let g = first_group(gs, h);
    gs.update(g, with_windows(gs[g], gs[g].windows.filter(other_than(h))))
}

/// The positions that `remove_window(h, m)` gives.
pub open spec fn remove_positions(gs: Seq<GroupView>, h: isize, m: Seq<isize>) -> Seq<(isize, Rect)> {
    let g = first_group(gs, h);
    group_positions(remove_result(gs, h)[g], m)
}

/// The groups after `add_window_direction(gi, h, d, ..)`.
pub open spec fn add_dir_result(gs: Seq<GroupView>, gi: int, h: isize, d: Direction) -> Seq<
    GroupView,
> {
    if gs[gi].windows.contains(h) {
        gs
    } else {
        gs.update(gi, with_windows(gs[gi], entered_from(d, gs[gi].windows, h)))
    }
}

/// The positions that `add_window_direction(gi, h, d, m)` gives.
pub open spec fn add_dir_positions(
    gs: Seq<GroupView>,
    gi: int,
    h: isize,
    d: Direction,
    m: Seq<isize>,
) -> Seq<(isize, Rect)> {
    if gs[gi].windows.contains(h) {
        Seq::empty()
    } else {
        group_positions(add_dir_result(gs, gi, h, d)[gi], m)
    }
}

/// The groups after `add_window(gi, h, ..)`.
pub open spec fn add_result(gs: Seq<GroupView>, gi: int, h: isize) -> Seq<GroupView> {
    if gs[gi].windows.contains(h) {
        gs
    } else {
        gs.update(gi, with_windows(gs[gi], gs[gi].windows.push(h)))
    }
}

/// The positions that `add_window(gi, h, m)` gives.
pub open spec fn add_positions(gs: Seq<GroupView>, gi: int, h: isize, m: Seq<isize>) -> Seq<
    (isize, Rect),
> {
    if gs[gi].windows.contains(h) {
        Seq::empty()
    } else {
        group_positions(add_result(gs, gi, h)[gi], m)
    }
}

/// Two lists of groups differ at most in the windows they hold.
pub open spec fn same_layout(a: Seq<GroupView>, b: Seq<GroupView>) -> bool {
    &&& a.len() == b.len()
    &&& forall|i: int|
        0 <= i < a.len() ==> (#[trigger] a[i]).index == b[i].index && a[i].rect == b[i].rect
            && a[i].split_axis == b[i].split_axis
}

/// Every group of `b` holds at least the windows of the same group of `a`.
pub open spec fn holds_at_least(a: Seq<GroupView>, b: Seq<GroupView>) -> bool {
    &&& a.len() == b.len()
    &&& forall|i: int, h: isize|
        0 <= i < a.len() && #[trigger] a[i].windows.contains(h) ==> b[i].windows.contains(h)
}

/// Windows only added keep every window under management.
pub proof fn lemma_holds_at_least_managed(a: Seq<GroupView>, b: Seq<GroupView>, h: isize)
    requires
        holds_at_least(a, b),
        is_managed(a, h),
    ensures
        is_managed(b, h),
{
    let i = choose|i: int| 0 <= i < a.len() && (#[trigger] a[i]).windows.contains(h);
    assert(a[i].windows.contains(h));
    assert(b[i].windows.contains(h));
}

/// Every window of a group's positions is held by the group.
pub proof fn lemma_group_positions_held(g: GroupView, m: Seq<isize>, k: int)
    requires
        0 <= k < group_positions(g, m).len(),
    ensures
        g.windows.contains(group_positions(g, m)[k].0),
{
    broadcast use vstd::seq_lib::group_filter_ensures;

    let v = visible_windows(g, m);
    assert(group_positions(g, m)[k].0 == v[k]);
    assert(v.contains(v[k]));
    g.windows.lemma_filter_contains_rev(|h: isize| m.contains(h), v[k]);
}

/// Every window of the positions of existing groups is under management.
pub proof fn lemma_positions_managed(gs: Seq<GroupView>, ids: Seq<usize>, m: Seq<isize>, k: int)
    requires
        ids_in_range(gs, ids),
        0 <= k < positions_for(gs, ids, m).len(),
    ensures
        is_managed(gs, positions_for(gs, ids, m)[k].0),
    decreases ids.len(),
{
    let pre = positions_for(gs, ids.drop_last(), m);
    assert(ids_in_range(gs, ids.drop_last())) by {
        assert forall|j: int| 0 <= j < ids.drop_last().len() implies (#[trigger] ids.drop_last()[j])
            < gs.len() by {
            assert(ids.drop_last()[j] == ids[j]);
        }
    }
    if k < pre.len() {
        lemma_positions_managed(gs, ids.drop_last(), m, k);
    } else {
        let g = ids.last() as int;
        assert(ids[ids.len() - 1] < gs.len());
        lemma_group_positions_held(gs[g], m, k - pre.len());
        assert(positions_for(gs, ids, m)[k] == group_positions(gs[g], m)[k - pre.len()]);
    }
}

/// Every window of a layout of well-formed groups is under management.
pub proof fn lemma_window_positions_managed(
    gs: Seq<GroupView>,
    ids: Seq<usize>,
    m: Seq<isize>,
    k: int,
)
    requires
        groups_wf(gs),
        ids_in_range(gs, ids),
        0 <= k < window_positions(gs, ids, m).len(),
    ensures
        is_managed(gs, window_positions(gs, ids, m)[k].0),
{
    lemma_layout_in_range(gs, ids);
    let l = layout_groups(gs, ids);
    assert(ids_in_range(gs, l)) by {
        assert forall|j: int| 0 <= j < l.len() implies (#[trigger] l[j]) < gs.len() by {
        }
    }
    lemma_positions_managed(gs, l, m, k);
}


/// A window is held at one position of one group only.
pub open spec fn held_once(gs: Seq<GroupView>, h: isize) -> bool {
    forall|i: int, p: int, j: int, q: int|
        0 <= i < gs.len() && 0 <= j < gs.len() && 0 <= p < gs[i].windows.len() && 0 <= q
            < gs[j].windows.len() && #[trigger] gs[i].windows[p] == h && #[trigger] gs[j].windows[q] == h
            ==> i == j && p == q
}

/// A window held once is first found where it is held.
proof fn lemma_held_once_first(gs: Seq<GroupView>, h: isize, i: int, p: int)
    requires
        held_once(gs, h),
        0 <= i < gs.len(),
        0 <= p < gs[i].windows.len(),
        gs[i].windows[p] == h,
    ensures
        first_group(gs, h) == i,
        first_pos(gs[i].windows, h) == p,
{
    assert forall|j: int| 0 <= j < i implies !(#[trigger] gs[j]).windows.contains(h) by {
        if gs[j].windows.contains(h) {
            let q = choose|q: int| 0 <= q < gs[j].windows.len() && gs[j].windows[q] == h;
            assert(gs[j].windows[q] == h && gs[i].windows[p] == h);
        }
    }
    assert(is_first_group_of(gs, h, i));
    lemma_first_group_unique(gs, h, i, first_group(gs, h));
    assert forall|q: int| 0 <= q < p implies gs[i].windows[q] != h by {
        if gs[i].windows[q] == h {
            assert(gs[i].windows[q] == h && gs[i].windows[p] == h);
        }
    }
    assert(is_first_position(gs[i].windows, h, p));
    lemma_first_position_unique(gs[i].windows, h, p, first_pos(gs[i].windows, h));
}

/// What `swapped` puts where: `h2` at position `w1` of group `g1`, `h1` at
/// position `w2` of group `g2`, and everything else as it was.
proof fn lemma_swapped_at(gs: Seq<GroupView>, g1: int, w1: int, g2: int, w2: int, h1: isize, h2: isize)
    requires
        0 <= g1 < gs.len(),
        0 <= g2 < gs.len(),
        0 <= w1 < gs[g1].windows.len(),
        0 <= w2 < gs[g2].windows.len(),
    ensures
        swapped(gs, g1, w1, g2, w2, h1, h2).len() == gs.len(),
        forall|i: int|
            #![trigger swapped(gs, g1, w1, g2, w2, h1, h2)[i]]
            0 <= i < gs.len() ==> {
                let t = swapped(gs, g1, w1, g2, w2, h1, h2)[i];
                &&& t.index == gs[i].index
                &&& t.split_axis == gs[i].split_axis
                &&& t.rect == gs[i].rect
                &&& t.windows.len() == gs[i].windows.len()
                &&& forall|p: int|
                    0 <= p < gs[i].windows.len() ==> #[trigger] t.windows[p] == if i == g2 && p == w2 {
                        h1
                    } else if i == g1 && p == w1 {
                        h2
                    } else {
                        gs[i].windows[p]
                    }
            },
{
}

/// Swapping the same two windows twice gives the groups back, when each of
/// the two is held once.
pub proof fn lemma_swap_twice(gs: Seq<GroupView>, h1: isize, h2: isize)
    requires
        is_managed(gs, h1),
        is_managed(gs, h2),
        held_once(gs, h1),
        held_once(gs, h2),
    ensures
        swap_result(swap_result(gs, h1, h2), h1, h2) == gs,
{
    let i1 = choose|i: int| 0 <= i < gs.len() && (#[trigger] gs[i]).windows.contains(h1);
    let p1 = choose|p: int| 0 <= p < gs[i1].windows.len() && gs[i1].windows[p] == h1;
    let i2 = choose|i: int| 0 <= i < gs.len() && (#[trigger] gs[i]).windows.contains(h2);
    let p2 = choose|p: int| 0 <= p < gs[i2].windows.len() && gs[i2].windows[p] == h2;
    lemma_held_once_first(gs, h1, i1, p1);
    lemma_held_once_first(gs, h2, i2, p2);
    let t = swap_result(gs, h1, h2);
    assert(t == swapped(gs, i1, p1, i2, p2, h1, h2));
    lemma_swapped_at(gs, i1, p1, i2, p2, h1, h2);
    assert(t[i2].windows[p2] == h1);
    assert(t[i1].windows[p1] == h2);
    assert(held_once(t, h1)) by {
        assert forall|i: int, p: int, j: int, q: int|
            0 <= i < t.len() && 0 <= j < t.len() && 0 <= p < t[i].windows.len() && 0 <= q
                < t[j].windows.len() && #[trigger] t[i].windows[p] == h1 && #[trigger] t[j].windows[q] == h1
            implies i == j && p == q by {
            assert(t[i].windows[p] == h1);
            if !(i == i2 && p == p2) && !(i == i1 && p == p1) {
                assert(gs[i].windows[p] == h1 && gs[i1].windows[p1] == h1);
            }
            if !(j == i2 && q == p2) && !(j == i1 && q == p1) {
                assert(gs[j].windows[q] == h1 && gs[i1].windows[p1] == h1);
            }
        }
    }
    assert(held_once(t, h2)) by {
        assert forall|i: int, p: int, j: int, q: int|
            0 <= i < t.len() && 0 <= j < t.len() && 0 <= p < t[i].windows.len() && 0 <= q
                < t[j].windows.len() && #[trigger] t[i].windows[p] == h2 && #[trigger] t[j].windows[q] == h2
            implies i == j && p == q by {
            assert(t[i].windows[p] == h2);
            if !(i == i2 && p == p2) && !(i == i1 && p == p1) {
                assert(gs[i].windows[p] == h2 && gs[i2].windows[p2] == h2);
            }
            if !(j == i2 && q == p2) && !(j == i1 && q == p1) {
                assert(gs[j].windows[q] == h2 && gs[i2].windows[p2] == h2);
            }
        }
    }
    lemma_held_once_first(t, h1, i2, p2);
    lemma_held_once_first(t, h2, i1, p1);
    let u = swap_result(t, h1, h2);
    assert(u == swapped(t, i2, p2, i1, p1, h1, h2));
    lemma_swapped_at(t, i2, p2, i1, p1, h1, h2);
    assert forall|i: int| 0 <= i < gs.len() implies #[trigger] u[i] == gs[i] by {
        assert(u[i].windows =~= gs[i].windows) by {
            assert forall|p: int| 0 <= p < gs[i].windows.len() implies u[i].windows[p] == gs[i].windows[p] by {
                assert(t[i].windows[p] == t[i].windows[p]);
            }
        }
    }
    assert(u =~= gs);
}

/// A managed window has a first group.
pub proof fn lemma_first_group_exists(gs: Seq<GroupView>, h: isize)
    requires
        is_managed(gs, h),
    ensures
        is_first_group_of(gs, h, first_group(gs, h)),
    decreases gs.len(),
{
    let d = gs.drop_last();
    if is_managed(d, h) {
        lemma_first_group_exists(d, h);
        let k = first_group(d, h);
        assert forall|j: int| 0 <= j < k implies !(#[trigger] gs[j]).windows.contains(h) by {
            assert(gs[j] == d[j]);
        }
        assert(gs[k] == d[k]);
        assert(is_first_group_of(gs, h, k));
    } else {
        let k = gs.len() - 1;
        assert forall|j: int| 0 <= j < k implies !(#[trigger] gs[j]).windows.contains(h) by {
            assert(gs[j] == d[j]);
        }
        let i = choose|i: int| 0 <= i < gs.len() && (#[trigger] gs[i]).windows.contains(h);
        if i < k {
            assert(gs[i] == d[i]);
        }
        assert(is_first_group_of(gs, h, k));
    }
}

/// Trading the windows at two positions keeps which windows are managed.
pub proof fn lemma_swapped_keeps_managed(
    gs: Seq<GroupView>,
    g1: int,
    w1: int,
    g2: int,
    w2: int,
    h1: isize,
    h2: isize,
    h: isize,
)
    requires
        0 <= g1 < gs.len(),
        0 <= g2 < gs.len(),
        0 <= w1 < gs[g1].windows.len(),
        0 <= w2 < gs[g2].windows.len(),
        gs[g1].windows[w1] == h1,
        gs[g2].windows[w2] == h2,
    ensures
        is_managed(swapped(gs, g1, w1, g2, w2, h1, h2), h) == is_managed(gs, h),
{
    let t = swapped(gs, g1, w1, g2, w2, h1, h2);
    lemma_swapped_at(gs, g1, w1, g2, w2, h1, h2);
    if is_managed(gs, h) {
        let i = choose|i: int| 0 <= i < gs.len() && (#[trigger] gs[i]).windows.contains(h);
        let p = choose|p: int| 0 <= p < gs[i].windows.len() && gs[i].windows[p] == h;
        let (j, q) = if i == g1 && p == w1 {
            (g2, w2)
        } else if i == g2 && p == w2 {
            (g1, w1)
        } else {
            (i, p)
        };
        assert(t[j].windows[q] == h);
        assert(t[j].windows.contains(h));
    }
    if is_managed(t, h) {
        let i = choose|i: int| 0 <= i < t.len() && (#[trigger] t[i]).windows.contains(h);
        let p = choose|p: int| 0 <= p < t[i].windows.len() && t[i].windows[p] == h;
        let (j, q) = if i == g2 && p == w2 {
            (g1, w1)
        } else if i == g1 && p == w1 {
            (g2, w2)
        } else {
            (i, p)
        };
        assert(t[i].windows[p] == h);
        assert(gs[j].windows[q] == h);
        assert(gs[j].windows.contains(h));
    }
}

/// Swapping two managed windows keeps which windows are managed.
pub proof fn lemma_swap_keeps_managed(gs: Seq<GroupView>, h1: isize, h2: isize, h: isize)
    requires
        is_managed(gs, h1),
        is_managed(gs, h2),
    ensures
        is_managed(swap_result(gs, h1, h2), h) == is_managed(gs, h),
{
    lemma_first_group_exists(gs, h1);
    lemma_first_group_exists(gs, h2);
    let g1 = first_group(gs, h1);
    let g2 = first_group(gs, h2);
    crate::state_manager::lemma_first_position_exists(gs[g1].windows, h1);
    crate::state_manager::lemma_first_position_exists(gs[g2].windows, h2);
    let w1 = first_pos(gs[g1].windows, h1);
    let w2 = first_pos(gs[g2].windows, h2);
    lemma_swapped_keeps_managed(gs, g1, w1, g2, w2, h1, h2, h);
}

/// Entering a group from a direction adds the window and keeps the others.
proof fn lemma_entered_from_contains(d: Direction, windows: Seq<isize>, h: isize, x: isize)
    ensures
        entered_from(d, windows, h).contains(x) == (windows.contains(x) || x == h),
{
    let e = entered_from(d, windows, h);
    match d {
        Direction::LEFT | Direction::UP => {
            assert(e == windows.push(h));
            if windows.contains(x) {
                let k = choose|k: int| 0 <= k < windows.len() && windows[k] == x;
                assert(e[k] == x);
            }
            if x == h {
                assert(e[windows.len() as int] == h);
            }
            if e.contains(x) {
                let k = choose|k: int| 0 <= k < e.len() && e[k] == x;
                if k < windows.len() {
                    assert(windows[k] == x);
                }
            }
        },
        Direction::RIGHT | Direction::DOWN => {
            assert(e == seq![h] + windows);
            if windows.contains(x) {
                let k = choose|k: int| 0 <= k < windows.len() && windows[k] == x;
                assert(e[k + 1] == x);
            }
            if x == h {
                assert(e[0] == h);
            }
            if e.contains(x) {
                let k = choose|k: int| 0 <= k < e.len() && e[k] == x;
                if k > 0 {
                    assert(windows[k - 1] == x);
                }
            }
        },
    }
}

/// Taking a managed window out of its group and adding it to group `tgt`
/// keeps which windows are managed.
pub proof fn lemma_remove_add_keeps_managed(gs: Seq<GroupView>, fg: isize, tgt: int, d: Direction, h: isize)
    requires
        is_managed(gs, fg),
        0 <= tgt < gs.len(),
    ensures
        is_managed(add_dir_result(remove_result(gs, fg), tgt, fg, d), h) == is_managed(gs, h),
{
    lemma_first_group_exists(gs, fg);
    let g = first_group(gs, fg);
    let r = remove_result(gs, fg);
    let a = add_dir_result(r, tgt, fg, d);
    let pred = other_than(fg);
    assert(r.len() == gs.len());
    // Membership in the group the window left.
    assert forall|x: isize| r[g].windows.contains(x) == (gs[g].windows.contains(x) && x != fg) by {
        if gs[g].windows.contains(x) && x != fg {
            let k = choose|k: int| 0 <= k < gs[g].windows.len() && gs[g].windows[k] == x;
            gs[g].windows.lemma_filter_contains(pred, k);
        }
        if r[g].windows.contains(x) {
            gs[g].windows.lemma_filter_contains_rev(pred, x);
            let k = choose|k: int| 0 <= k < r[g].windows.len() && r[g].windows[k] == x;
            gs[g].windows.lemma_filter_pred(pred, k);
        }
    }
    // Membership in every group after the window is added.
    assert forall|i: int, x: isize| 0 <= i < gs.len() implies #[trigger] a[i].windows.contains(x) == (
    r[i].windows.contains(x) || (i == tgt && x == fg)) by {
        if i == tgt && !r[tgt].windows.contains(fg) {
            lemma_entered_from_contains(d, r[tgt].windows, fg, x);
        }
    }
    if h == fg {
        assert(a[tgt].windows.contains(fg));
    } else {
        if is_managed(gs, h) {
            let i = choose|i: int| 0 <= i < gs.len() && (#[trigger] gs[i]).windows.contains(h);
            assert(r[i].windows.contains(h));
            assert(a[i].windows.contains(h));
        }
        if is_managed(a, h) {
            let i = choose|i: int| 0 <= i < a.len() && (#[trigger] a[i]).windows.contains(h);
            assert(r[i].windows.contains(h));
            assert(gs[i].windows.contains(h));
        }
    }
}

/// Taking a window out of its group keeps every other managed window managed.
pub proof fn lemma_remove_keeps_others(gs: Seq<GroupView>, h: isize, x: isize)
    requires
        is_managed(gs, h),
        is_managed(gs, x),
        x != h,
    ensures
        is_managed(remove_result(gs, h), x),
{
    lemma_first_group_exists(gs, h);
    let g = first_group(gs, h);
    let r = remove_result(gs, h);
    let i = choose|i: int| 0 <= i < gs.len() && (#[trigger] gs[i]).windows.contains(x);
    if i == g {
        let k = choose|k: int| 0 <= k < gs[g].windows.len() && gs[g].windows[k] == x;
        gs[g].windows.lemma_filter_contains(other_than(h), k);
        assert(r[g].windows.contains(x));
    } else {
        assert(r[i] == gs[i]);
    }
}

/// A window that enters a group coming from the left or from above goes
/// last; one coming from the right or from below goes first; the windows
/// already there keep their order.
pub proof fn lemma_entered_from_sides(d: Direction, windows: Seq<isize>, h: isize)
    ensures
        entered_from(d, windows, h).len() == windows.len() + 1,
        match d {
            Direction::LEFT | Direction::UP => entered_from(d, windows, h).last() == h && entered_from(
                d,
                windows,
                h,
            ).drop_last() == windows,
            Direction::RIGHT | Direction::DOWN => entered_from(d, windows, h)[0] == h && entered_from(
                d,
                windows,
                h,
            ).drop_first() == windows,
        },
{
    match d {
        Direction::LEFT | Direction::UP => {
            assert(windows.push(h).drop_last() =~= windows);
        },
        Direction::RIGHT | Direction::DOWN => {
            assert((seq![h] + windows).drop_first() =~= windows);
        },
    }
}

/// The window next to `x` in a direction is its immediate neighbour in the
/// list: the one just after its first occurrence for RIGHT and DOWN, the one
/// just before for LEFT and UP, and none at the ends.
pub proof fn lemma_adjacent_in_is_next(d: Direction, s: Seq<isize>, x: isize, p: int)
    requires
        is_first_position(s, x, p),
        s.len() <= usize::MAX,
    ensures
        match d {
            Direction::LEFT | Direction::UP => adjacent_in(d, s, x) == if p > 0 {
                Some(s[p - 1])
            } else {
                None
            },
            Direction::RIGHT | Direction::DOWN => adjacent_in(d, s, x) == if p + 1 < s.len() {
                Some(s[p + 1])
            } else {
                None
            },
        },
{
    assert(s.contains(x));
    let q = choose|q: int| is_first_position(s, x, q);
    lemma_first_position_unique(s, x, p, q);
    crate::direction::lemma_adjacent_is_next(d, p, s.len() as int);
}

/// Arriving at a list of windows from the left or from above, one enters
/// its last window; from the right or from below, its first.
pub proof fn lemma_extreme_in_is_end(d: Direction, s: Seq<isize>)
    requires
        0 < s.len() <= usize::MAX,
    ensures
        match d {
            Direction::LEFT | Direction::UP => extreme_in(d, s) == Some(s.last()),
            Direction::RIGHT | Direction::DOWN => extreme_in(d, s) == Some(s[0]),
        },
{
    crate::direction::lemma_extreme_is_end(d, s.len() as int);
}

} // verus!
