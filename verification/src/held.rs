//! How often the groups hold each window, and what moving windows between
//! groups does to it.
use vstd::prelude::*;
use vstd::multiset::Multiset;
use crate::direction::Direction;
use crate::group::{
    add_dir_result, all_hwnds, entered_from, first_group, first_pos, is_first_position,
    is_managed, lemma_first_group_exists, other_than, remove_result, swap_result, with_windows, GroupView,
};

verus! {

/// How often the groups, taken together, hold each window.
pub open spec fn held_counts(gs: Seq<GroupView>) -> Multiset<isize> {
    all_hwnds(gs).to_multiset()
}

/// Giving group `i` other windows trades its windows for the new ones in the
/// count of the windows held.
proof fn lemma_update_counts(gs: Seq<GroupView>, i: int, w: Seq<isize>)
    requires
        0 <= i < gs.len(),
    ensures
        held_counts(gs.update(i, with_windows(gs[i], w))).add(gs[i].windows.to_multiset()) =~= held_counts(gs).add(
            w.to_multiset(),
        ),
    decreases gs.len(),
{
    broadcast use vstd::multiset::group_multiset_axioms;

    let g2 = gs.update(i, with_windows(gs[i], w));
    let a = all_hwnds(gs.drop_last());
    let old_w = gs[i].windows;
    assert(all_hwnds(gs) == a + gs.last().windows);
    vstd::seq_lib::lemma_multiset_commutative(a, gs.last().windows);
    assert(held_counts(gs) == a.to_multiset().add(gs.last().windows.to_multiset()));
    if i == gs.len() - 1 {
        assert(g2.drop_last() =~= gs.drop_last());
        assert(g2.last().windows == w);
        assert(all_hwnds(g2) == a + w);
        vstd::seq_lib::lemma_multiset_commutative(a, w);
        assert(held_counts(g2) == a.to_multiset().add(w.to_multiset()));
        assert(gs.last().windows == old_w);
        assert forall|x: isize| #[trigger] held_counts(g2).add(old_w.to_multiset()).count(x) == held_counts(gs).add(
            w.to_multiset(),
        ).count(x) by {}
    } else {
        let d2 = gs.drop_last().update(i, with_windows(gs.drop_last()[i], w));
        assert(g2.drop_last() =~= d2);
        assert(gs.drop_last()[i] == gs[i]);
        assert(g2.last() == gs.last());
        lemma_update_counts(gs.drop_last(), i, w);
        assert(all_hwnds(g2) == all_hwnds(d2) + gs.last().windows);
        vstd::seq_lib::lemma_multiset_commutative(all_hwnds(d2), gs.last().windows);
        assert(held_counts(g2) == held_counts(d2).add(gs.last().windows.to_multiset()));
        assert forall|x: isize| #[trigger] held_counts(g2).add(old_w.to_multiset()).count(x) == held_counts(gs).add(
            w.to_multiset(),
        ).count(x) by {
            assert(held_counts(d2).add(old_w.to_multiset()).count(x) == held_counts(gs.drop_last()).add(
                w.to_multiset(),
            ).count(x));
        }
    }
}

/// Writing `v` at position `p` of group `i` trades the window there for `v`
/// in the count of the windows held.
proof fn lemma_update_at_counts(gs: Seq<GroupView>, i: int, p: int, v: isize)
    requires
        0 <= i < gs.len(),
        0 <= p < gs[i].windows.len(),
    ensures
        held_counts(gs.update(i, with_windows(gs[i], gs[i].windows.update(p, v)))).insert(gs[i].windows[p])
            =~= held_counts(gs).insert(v),
{
    broadcast use vstd::multiset::group_multiset_axioms;
    broadcast use vstd::seq_lib::group_to_multiset_ensures;

    let old_w = gs[i].windows;
    let new_w = old_w.update(p, v);
    let g2 = gs.update(i, with_windows(gs[i], new_w));
    lemma_update_counts(gs, i, new_w);
    assert(old_w.contains(old_w[p]));
    assert(old_w.to_multiset().count(old_w[p]) > 0);
    assert(new_w.to_multiset() == old_w.to_multiset().insert(v).remove(old_w[p]));
    assert forall|x: isize| #[trigger] held_counts(g2).insert(old_w[p]).count(x) == held_counts(gs).insert(v).count(x) by {
        assert(held_counts(g2).add(old_w.to_multiset()).count(x) == held_counts(gs).add(new_w.to_multiset()).count(x));
    }
}

/// The windows of a sequence other than `h`, counted: no `h`, the others as before.
proof fn lemma_filter_counts(s: Seq<isize>, h: isize)
    ensures
        forall|x: isize|
            #[trigger] s.filter(other_than(h)).to_multiset().count(x) == if x == h {
                0
            } else {
                s.to_multiset().count(x)
            },
    decreases s.len(),
{
    broadcast use vstd::multiset::group_multiset_axioms;
    broadcast use vstd::seq_lib::group_to_multiset_ensures;

    reveal(Seq::filter);
    let f = s.filter(other_than(h));
    if s.len() == 0 {
        assert(f =~= s);
    } else {
        let d = s.drop_last();
        lemma_filter_counts(d, h);
        assert(d.push(s.last()) =~= s);
        assert(s.to_multiset() == d.to_multiset().insert(s.last()));
        if s.last() != h {
            assert(f == d.filter(other_than(h)).push(s.last()));
            assert(f.to_multiset() == d.filter(other_than(h)).to_multiset().insert(s.last()));
        } else {
            assert(f == d.filter(other_than(h)));
        }
        assert forall|x: isize| #[trigger] f.to_multiset().count(x) == if x == h {
            0
        } else {
            s.to_multiset().count(x)
        } by {
            assert(d.filter(other_than(h)).to_multiset().count(x) == if x == h {
                0
            } else {
                d.to_multiset().count(x)
            });
        }
    }
}

/// Entering a group from a direction adds the window once to the group's count.
proof fn lemma_entered_counts(d: Direction, w: Seq<isize>, h: isize)
    ensures
        entered_from(d, w, h).to_multiset() =~= w.to_multiset().insert(h),
{
    broadcast use vstd::multiset::group_multiset_axioms;
    broadcast use vstd::seq_lib::group_to_multiset_ensures;

    match d {
        Direction::LEFT | Direction::UP => {},
        Direction::RIGHT | Direction::DOWN => {
            vstd::seq_lib::lemma_seq_union_to_multiset_commutative(seq![h], w);
            assert(w + seq![h] =~= w.push(h));
        },
    }
}

/// Swapping two managed windows keeps how often each window is held.
pub proof fn lemma_swap_keeps_counts(gs: Seq<GroupView>, h1: isize, h2: isize)
    requires
        is_managed(gs, h1),
        is_managed(gs, h2),
    ensures
        held_counts(swap_result(gs, h1, h2)) =~= held_counts(gs),
{
    broadcast use vstd::multiset::group_multiset_axioms;

    lemma_first_group_exists(gs, h1);
    lemma_first_group_exists(gs, h2);
    let g1 = first_group(gs, h1);
    let g2 = first_group(gs, h2);
    crate::state_manager::lemma_first_position_exists(gs[g1].windows, h1);
    crate::state_manager::lemma_first_position_exists(gs[g2].windows, h2);
    let w1 = first_pos(gs[g1].windows, h1);
    let w2 = first_pos(gs[g2].windows, h2);
    let s1 = gs.update(g1, with_windows(gs[g1], gs[g1].windows.update(w1, h2)));
    let s2 = s1.update(g2, with_windows(s1[g2], s1[g2].windows.update(w2, h1)));
    assert(is_first_position(gs[g1].windows, h1, w1));
    assert(is_first_position(gs[g2].windows, h2, w2));
    lemma_update_at_counts(gs, g1, w1, h2);
    assert(s1[g2].windows[w2] == h2);
    lemma_update_at_counts(s1, g2, w2, h1);
    assert(swap_result(gs, h1, h2) == s2);
    assert forall|x: isize| #[trigger] held_counts(s2).count(x) == held_counts(gs).count(x) by {
        assert(held_counts(s1).insert(h1).count(x) == held_counts(gs).insert(h2).count(x));
        assert(held_counts(s2).insert(h2).count(x) == held_counts(s1).insert(h1).count(x));
    }
}

/// Taking a window held once out of its group and adding it to group `tgt`
/// keeps how often each window is held.
pub proof fn lemma_remove_add_keeps_counts(gs: Seq<GroupView>, fg: isize, tgt: int, d: Direction)
    requires
        held_counts(gs).count(fg) == 1,
        0 <= tgt < gs.len(),
    ensures
        held_counts(add_dir_result(remove_result(gs, fg), tgt, fg, d)) =~= held_counts(gs),
{
    broadcast use vstd::multiset::group_multiset_axioms;
    broadcast use vstd::seq_lib::group_to_multiset_ensures;

    assert(is_managed(gs, fg)) by {
        lemma_held_somewhere(gs, fg);
    }
    lemma_first_group_exists(gs, fg);
    let g = first_group(gs, fg);
    let old_w = gs[g].windows;
    let kept = old_w.filter(other_than(fg));
    let r = remove_result(gs, fg);
    assert(r == gs.update(g, with_windows(gs[g], kept)));
    lemma_update_counts(gs, g, kept);
    lemma_filter_counts(old_w, fg);
    assert(old_w.contains(fg));
    assert(old_w.to_multiset().count(fg) > 0);
    // The window was held in its group alone, once: the rest holds it nowhere.
    assert(held_counts(r).add(old_w.to_multiset()).count(fg) == held_counts(gs).add(kept.to_multiset()).count(fg));
    assert(kept.to_multiset().count(fg) == 0);
    assert(held_counts(r).count(fg) == 0);
    lemma_not_held_anywhere(r, fg, tgt);
    let e = entered_from(d, r[tgt].windows, fg);
    let a = r.update(tgt, with_windows(r[tgt], e));
    lemma_update_counts(r, tgt, e);
    lemma_entered_counts(d, r[tgt].windows, fg);
    assert(add_dir_result(r, tgt, fg, d) == a);
    assert forall|x: isize| #[trigger] held_counts(a).count(x) == held_counts(gs).count(x) by {
        assert(held_counts(r).add(old_w.to_multiset()).count(x) == held_counts(gs).add(kept.to_multiset()).count(x));
        assert(kept.to_multiset().count(x) == if x == fg {
            0
        } else {
            old_w.to_multiset().count(x)
        });
        assert(held_counts(a).add(r[tgt].windows.to_multiset()).count(x) == held_counts(r).add(e.to_multiset()).count(x));
    }
}

/// A window that the groups hold some number of times is held by some group.
proof fn lemma_held_somewhere(gs: Seq<GroupView>, h: isize)
    requires
        held_counts(gs).count(h) > 0,
    ensures
        is_managed(gs, h),
    decreases gs.len(),
{
    broadcast use vstd::multiset::group_multiset_axioms;
    broadcast use vstd::seq_lib::group_to_multiset_ensures;

    if gs.len() > 0 {
        vstd::seq_lib::lemma_multiset_commutative(all_hwnds(gs.drop_last()), gs.last().windows);
        if gs.last().windows.to_multiset().count(h) > 0 {
            assert(gs[gs.len() - 1] == gs.last());
        } else {
            lemma_held_somewhere(gs.drop_last(), h);
            let i = choose|i: int| 0 <= i < gs.drop_last().len() && (#[trigger] gs.drop_last()[i]).windows.contains(h);
            assert(gs[i] == gs.drop_last()[i]);
        }
    } else {
        assert(all_hwnds(gs) =~= Seq::<isize>::empty());
    }
}

/// A window the groups do not hold is in no group.
proof fn lemma_not_held_anywhere(gs: Seq<GroupView>, h: isize, i: int)
    requires
        held_counts(gs).count(h) == 0,
        0 <= i < gs.len(),
    ensures
        !gs[i].windows.contains(h),
{
    broadcast use vstd::multiset::group_multiset_axioms;
    broadcast use vstd::seq_lib::group_to_multiset_ensures;

    lemma_update_counts(gs, i, Seq::<isize>::empty());
    let g2 = gs.update(i, with_windows(gs[i], Seq::<isize>::empty()));
    assert(held_counts(g2).add(gs[i].windows.to_multiset()).count(h) == held_counts(gs).add(
        Seq::<isize>::empty().to_multiset(),
    ).count(h));
    assert(gs[i].windows.to_multiset().count(h) == 0);
}

} // verus!
