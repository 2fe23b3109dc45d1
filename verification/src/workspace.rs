//! Workspaces: each monitor has ten of them, one shown at a time; a
//! workspace is made of groups.
use vstd::prelude::*;
use crate::direction::Direction;

verus! {

/// A workspace and the groups it is made of.
pub struct Workspace {
    pub index: usize,
    pub groups: Vec<usize>,
    pub active: bool,
}

/// The value of a workspace.
pub struct WorkspaceView {
    pub index: usize,
    pub groups: Seq<usize>,
    pub active: bool,
}

impl View for Workspace {
    type V = WorkspaceView;

    open spec fn view(&self) -> WorkspaceView {
        WorkspaceView { index: self.index, groups: self.groups@, active: self.active }
    }
}

impl PartialEq for Workspace {
    /// Two workspaces are the same when their indices are.
    fn eq(&self, other: &Self) -> (r: bool) {
        self.index == other.index
    }
}

impl vstd::std_specs::cmp::PartialEqSpecImpl for Workspace {
    open spec fn obeys_eq_spec() -> bool {
        true
    }

    open spec fn eq_spec(&self, other: &Self) -> bool {
        self.index == other.index
    }
}

/// Keeps the workspaces.
pub struct WorkspaceManager {
    workspaces: Vec<Workspace>,
}

impl View for WorkspaceManager {
    type V = Seq<WorkspaceView>;

    closed spec fn view(&self) -> Seq<WorkspaceView> {
        self.workspaces@.map_values(|w: Workspace| w@)
    }
}

/// The workspaces whose index is listed, in order.
pub open spec fn listed(ws: Seq<WorkspaceView>, ids: Seq<usize>) -> Seq<WorkspaceView> {
    ws.filter(|w: WorkspaceView| ids.contains(w.index))
}

/// `k` is the position, among the listed workspaces, of the first active one.
pub open spec fn is_first_active(ws: Seq<WorkspaceView>, ids: Seq<usize>, k: int) -> bool {
    &&& 0 <= k < listed(ws, ids).len()
    &&& listed(ws, ids)[k].active
    &&& forall|j: int| 0 <= j < k ==> !(#[trigger] listed(ws, ids)[j]).active
}

/// Some listed workspace is active.
pub open spec fn has_active(ws: Seq<WorkspaceView>, ids: Seq<usize>) -> bool {
    exists|k: int| 0 <= k < listed(ws, ids).len() && (#[trigger] listed(ws, ids)[k]).active
}

/// `i` is the first workspace made of (among others) the group.
pub open spec fn is_first_workspace_of(ws: Seq<WorkspaceView>, group: usize, i: int) -> bool {
    &&& 0 <= i < ws.len()
    &&& ws[i].groups.contains(group)
    &&& forall|j: int| 0 <= j < i ==> !(#[trigger] ws[j]).groups.contains(group)
}

/// Some workspace is made of (among others) the group.
pub open spec fn has_workspace_of(ws: Seq<WorkspaceView>, group: usize) -> bool {
    exists|i: int| 0 <= i < ws.len() && (#[trigger] ws[i]).groups.contains(group)
}

/// The same workspace with its activity flipped.
pub open spec fn toggled(w: WorkspaceView) -> WorkspaceView {
    WorkspaceView { active: !w.active, ..w }
}

/// The group next to `group` in its workspace, in direction `d`, given the
/// position of `group` in the workspace's list.
pub open spec fn group_adjacent(d: Direction, groups: Seq<usize>, group: usize) -> Option<usize> {
    if groups.contains(group) {
        let p = choose|p: int| 0 <= p < groups.len() && groups[p] == group && forall|j: int|
            0 <= j < p ==> groups[j] != group;
        match d.adjacent_of(p, groups.len() as int) {
            Some(q) => Some(groups[q as int]),
            None => None,
        }
    } else {
        None
    }
}

impl WorkspaceManager {
    /// A manager of the given workspaces.
    pub fn new(workspaces: Vec<Workspace>) -> (r: Self)
        ensures
            r@ == workspaces@.map_values(|w: Workspace| w@),
    {
        Self { workspaces }
    }

    /// The number of workspaces.
    pub fn len(&self) -> (r: usize)
        ensures
            r == self@.len(),
    {
        self.workspaces.len()
    }

    /// The indices of all workspaces, in order.
    pub fn all(&self) -> (r: Vec<usize>)
        ensures
            r@ == self@.map_values(|w: WorkspaceView| w.index),
    {
        let mut r: Vec<usize> = Vec::new();
        let mut i: usize = 0;
        while i < self.workspaces.len()
            invariant
                0 <= i <= self.workspaces.len(),
                self@ == self.workspaces@.map_values(|w: Workspace| w@),
                r@ =~= self@.map_values(|w: WorkspaceView| w.index).take(i as int),
            decreases self.workspaces.len() - i,
        {
            r.push(self.workspaces[i].index);
            i = i + 1;
        }
        r
    }

    /// Among the workspaces whose index is listed, taken in order, the
    /// position of the first active one. (The position counts the listed
    /// workspaces only; it is the workspace's index when the listed
    /// workspaces are the first ones.)
    pub fn active_workspace(&self, workspace_ids: &Vec<usize>) -> (r: usize)
        requires
            has_active(self@, workspace_ids@),
        ensures
            is_first_active(self@, workspace_ids@, r as int),
    {
        let ghost pred = |w: WorkspaceView| workspace_ids@.contains(w.index);
        let mut pos: usize = 0;
        let mut i: usize = 0;
        while i < self.workspaces.len()
            invariant
                0 <= i <= self.workspaces.len(),
                self@ == self.workspaces@.map_values(|w: Workspace| w@),
                pred == (|w: WorkspaceView| workspace_ids@.contains(w.index)),
                has_active(self@, workspace_ids@),
                pos == self@.take(i as int).filter(pred).len(),
                forall|j: int|
                    0 <= j < pos ==> !(#[trigger] self@.take(i as int).filter(pred)[j]).active,
            decreases self.workspaces.len() - i,
        {
            proof {
                reveal(Seq::filter);
                assert(self@.take(i + 1).drop_last() =~= self@.take(i as int));
                lemma_filter_prefix(self@, pred, i as int);
            }
            if crate::group::usize_vec_contains(workspace_ids, self.workspaces[i].index) {
                if self.workspaces[i].active {
                    proof {
                        let t = self@.take(i + 1).filter(pred);
                        assert(t == self@.take(i as int).filter(pred).push(self@[i as int]));
                        assert(t[pos as int] == self@[i as int]);
                        lemma_filter_prefix_of_whole(self@, pred, i + 1);
                        assert(listed(self@, workspace_ids@) == self@.filter(pred));
                        assert forall|j: int| 0 <= j < pos implies !(#[trigger] listed(
                            self@,
                            workspace_ids@,
                        )[j]).active by {
                            assert(listed(self@, workspace_ids@)[j] == t[j]);
                            assert(t[j] == self@.take(i as int).filter(pred)[j]);
                        }
                        assert(listed(self@, workspace_ids@)[pos as int] == t[pos as int]);
                    }
                    return pos;
                }
                pos = pos + 1;
            }
            i = i + 1;
        }
        proof {
            assert(self@.take(self@.len() as int) =~= self@);
            let k = choose|k: int|
                0 <= k < listed(self@, workspace_ids@).len() && (#[trigger] listed(
                    self@,
                    workspace_ids@,
                )[k]).active;
        }
        0
    }

    /// Among the workspaces whose index is listed, taken in order, the index
    /// of the first active one.
    pub fn active_workspace_index(&self, workspace_ids: &Vec<usize>) -> (r: usize)
        requires
            has_active(self@, workspace_ids@),
        ensures
            exists|k: int|
                is_first_active(self@, workspace_ids@, k) && r == listed(self@, workspace_ids@)[k].index,
    {
        let ghost pred = |w: WorkspaceView| workspace_ids@.contains(w.index);
        let mut pos: usize = 0;
        let mut i: usize = 0;
        while i < self.workspaces.len()
            invariant
                0 <= i <= self.workspaces.len(),
                self@ == self.workspaces@.map_values(|w: Workspace| w@),
                pred == (|w: WorkspaceView| workspace_ids@.contains(w.index)),
                has_active(self@, workspace_ids@),
                pos == self@.take(i as int).filter(pred).len(),
                forall|j: int|
                    0 <= j < pos ==> !(#[trigger] self@.take(i as int).filter(pred)[j]).active,
            decreases self.workspaces.len() - i,
        {
            proof {
                reveal(Seq::filter);
                assert(self@.take(i + 1).drop_last() =~= self@.take(i as int));
                lemma_filter_prefix(self@, pred, i as int);
            }
            if crate::group::usize_vec_contains(workspace_ids, self.workspaces[i].index) {
                if self.workspaces[i].active {
                    proof {
                        let t = self@.take(i + 1).filter(pred);
                        assert(t == self@.take(i as int).filter(pred).push(self@[i as int]));
                        assert(t[pos as int] == self@[i as int]);
                        lemma_filter_prefix_of_whole(self@, pred, i + 1);
                        assert(listed(self@, workspace_ids@) == self@.filter(pred));
                        assert forall|j: int| 0 <= j < pos implies !(#[trigger] listed(
                            self@,
                            workspace_ids@,
                        )[j]).active by {
                            assert(listed(self@, workspace_ids@)[j] == t[j]);
                            assert(t[j] == self@.take(i as int).filter(pred)[j]);
                        }
                        assert(listed(self@, workspace_ids@)[pos as int] == t[pos as int]);
                        assert(is_first_active(self@, workspace_ids@, pos as int));
                    }
                    return self.workspaces[i].index;
                }
                pos = pos + 1;
            }
            i = i + 1;
        }
        proof {
            assert(self@.take(self@.len() as int) =~= self@);
            let k = choose|k: int|
                0 <= k < listed(self@, workspace_ids@).len() && (#[trigger] listed(
                    self@,
                    workspace_ids@,
                )[k]).active;
        }
        0
    }

    /// The first workspace made of (among others) the given group.
    pub fn workspace_for_group(&self, group_id: usize) -> (r: usize)
        requires
            has_workspace_of(self@, group_id),
        ensures
            is_first_workspace_of(self@, group_id, r as int),
    {
        let mut i: usize = 0;
        while i < self.workspaces.len()
            invariant
                0 <= i <= self.workspaces.len(),
                self@ == self.workspaces@.map_values(|w: Workspace| w@),
                has_workspace_of(self@, group_id),
                forall|j: int| 0 <= j < i ==> !(#[trigger] self@[j]).groups.contains(group_id),
            decreases self.workspaces.len() - i,
        {
            if crate::group::usize_vec_contains(&self.workspaces[i].groups, group_id) {
                return i;
            }
            i = i + 1;
        }
        proof {
            let k = choose|k: int| 0 <= k < self@.len() && (#[trigger] self@[k]).groups.contains(group_id);
        }
        0
    }

    /// The groups of a workspace.
    pub fn groups_for_workspace(&self, workspace_id: usize) -> (r: &Vec<usize>)
        requires
            workspace_id < self@.len(),
        ensures
            r@ == self@[workspace_id as int].groups,
    {
        &self.workspaces[workspace_id].groups
    }

    /// Whether a workspace is shown.
    pub fn is_active(&self, workspace_id: usize) -> (r: bool)
        requires
            workspace_id < self@.len(),
        ensures
            r == self@[workspace_id as int].active,
    {
        self.workspaces[workspace_id].active
    }

    /// Flips whether a workspace is shown.
    pub fn toggle_active(&mut self, workspace_id: usize)
        requires
            workspace_id < old(self)@.len(),
        ensures
            final(self)@ == old(self)@.update(
                workspace_id as int,
                toggled(old(self)@[workspace_id as int]),
            ),
    {
        let workspace = self.get_workspace(workspace_id);
        workspace.active = !workspace.active;
        assert(self@ =~= old(self)@.update(
            workspace_id as int,
            toggled(old(self)@[workspace_id as int]),
        ));
    }

    /// The group next to `group_id` in its workspace, in the given direction:
    /// the one listed before it for LEFT and UP, after it for RIGHT and DOWN.
    pub fn group_in_direction(&self, group_id: usize, direction: &Direction) -> (r: Option<usize>)
        requires
            has_workspace_of(self@, group_id),
        ensures
            exists|wi: int|
                #![trigger self@[wi]]
                is_first_workspace_of(self@, group_id, wi) && r == group_adjacent(
                    *direction,
                    self@[wi].groups,
                    group_id,
                ),
    {
        let wi = self.workspace_for_group(group_id);
        let groups = &self.workspaces[wi].groups;
        assert(groups@ == self@[wi as int].groups);
        let mut p: usize = 0;
        while p < groups.len()
            invariant
                0 <= p <= groups.len(),
                groups@.contains(group_id),
                is_first_workspace_of(self@, group_id, wi as int),
                groups@ == self@[wi as int].groups,
                forall|j: int| 0 <= j < p ==> groups@[j] != group_id,
            decreases groups.len() - p,
        {
            if groups[p] == group_id {
                let ghost q = choose|q: int| 0 <= q < groups@.len() && groups@[q] == group_id && forall|j: int|
                    0 <= j < q ==> groups@[j] != group_id;
                assert(q == p) by {
                    if q < p {
                        assert(groups@[q] != group_id);
                    } else if p < q {
                        assert(groups@[p as int] != group_id);
                    }
                }
                let r = match direction.adjacent_index(p, groups.len()) {
                    Some(q) => Some(groups[q]),
                    None => None,
                };
                assert(is_first_workspace_of(self@, group_id, wi as int));
                assert(r == group_adjacent(*direction, self@[wi as int].groups, group_id));
                return r;
            }
            p = p + 1;
        }
        None
    }

    /// The workspace at a position, to change it.
    fn get_workspace(&mut self, workspace_id: usize) -> (r: &mut Workspace)
        requires
            workspace_id < old(self)@.len(),
        ensures
            r@ == old(self)@[workspace_id as int],
            final(self)@ == old(self)@.update(workspace_id as int, final(r)@),
    {
        &mut self.workspaces[workspace_id]
    }
}

/// Filtering a prefix one element longer adds that element when it passes.
pub proof fn lemma_filter_prefix(s: Seq<WorkspaceView>, p: spec_fn(WorkspaceView) -> bool, i: int)
    requires
        0 <= i <= s.len(),
    ensures
        i < s.len() ==> s.take(i + 1).filter(p) == (if p(s[i]) {
            s.take(i).filter(p).push(s[i])
        } else {
            s.take(i).filter(p)
        }),
{
    reveal(Seq::filter);
    if i < s.len() {
        assert(s.take(i + 1).drop_last() =~= s.take(i));
    }
}

/// Filtering a prefix gives a prefix of filtering the whole.
pub proof fn lemma_filter_prefix_of_whole(
    s: Seq<WorkspaceView>,
    p: spec_fn(WorkspaceView) -> bool,
    i: int,
)
    requires
        0 <= i <= s.len(),
    ensures
        s.take(i).filter(p).len() <= s.filter(p).len(),
        forall|j: int|
            0 <= j < s.take(i).filter(p).len() ==> s.filter(p)[j] == #[trigger] s.take(i).filter(
                p,
            )[j],
{
    broadcast use Seq::filter_distributes_over_add;

    assert(s =~= s.take(i) + s.skip(i));
    assert(s.filter(p) == s.take(i).filter(p) + s.skip(i).filter(p));
}

/// Flipping a workspace twice leaves every workspace as it was.
pub proof fn lemma_toggle_twice(ws: Seq<WorkspaceView>, i: int)
    requires
        0 <= i < ws.len(),
    ensures
        ws.update(i, toggled(ws[i])).update(i, toggled(ws.update(i, toggled(ws[i]))[i])) == ws,
{
    assert(ws.update(i, toggled(ws[i])).update(i, toggled(ws.update(i, toggled(ws[i]))[i])) =~= ws);
}

/// The group next to a group in a direction is its immediate neighbour in
/// the workspace's list: the one just after for RIGHT and DOWN, the one just
/// before for LEFT and UP, and none at the ends.
pub proof fn lemma_group_adjacent_is_next(d: Direction, groups: Seq<usize>, group: usize, p: int)
    requires
        0 <= p < groups.len() <= usize::MAX,
        groups[p] == group,
        forall|j: int| 0 <= j < p ==> groups[j] != group,
    ensures
        match d {
            Direction::LEFT | Direction::UP => group_adjacent(d, groups, group) == if p > 0 {
                Some(groups[p - 1])
            } else {
                None
            },
            Direction::RIGHT | Direction::DOWN => group_adjacent(d, groups, group) == if p + 1 < groups.len() {
                Some(groups[p + 1])
            } else {
                None
            },
        },
{
    assert(groups.contains(group));
    let q = choose|q: int| 0 <= q < groups.len() && groups[q] == group && forall|j: int|
        0 <= j < q ==> groups[j] != group;
    if q < p {
        assert(groups[q] != group);
    } else if p < q {
        assert(groups[p] != group);
    }
    crate::direction::lemma_adjacent_is_next(d, p, groups.len() as int);
}

} // verus!
