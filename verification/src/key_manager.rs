//! Tracking the pressed keys and matching them against the key bindings.
use vstd::prelude::*;
use crate::actions::WindowManagerAction;
use crate::key::{
    is_stable_sort, is_stable_order, key_before, key_codes, key_views, keys_at, named_key, sort_keys, Key,
    KeyEvent, KeyEventType, KeyView, Keybind, KeybindView,
};

verus! {

/// No two keys have the same code.
pub open spec fn distinct_codes(ps: Seq<KeyView>) -> bool {
    forall|i: int, j: int| 0 <= i < j < ps.len() ==> (#[trigger] ps[i]).code != (#[trigger] ps[j]).code
}

/// Some key has the code.
pub open spec fn has_code(ps: Seq<KeyView>, code: i32) -> bool {
    exists|i: int| 0 <= i < ps.len() && (#[trigger] ps[i]).code == code
}

/// Each code is smaller than the next.
pub open spec fn strictly_ascending(cs: Seq<i32>) -> bool {
    forall|i: int, j: int| 0 <= i < j < cs.len() ==> #[trigger] cs[i] < #[trigger] cs[j]
}

/// `s` holds the keys of `ps` (whose codes are distinct) in ascending order of code.
pub open spec fn is_sorted_arrangement(ps: Seq<KeyView>, s: Seq<KeyView>) -> bool {
    &&& s.len() == ps.len()
    &&& strictly_ascending(key_codes(s))
    &&& forall|i: int| 0 <= i < s.len() ==> ps.contains(#[trigger] s[i])
}

/// The actions of the bindings whose keys have exactly the codes `codes`, in order.
pub open spec fn matched_actions(kbs: Seq<KeybindView>, codes: Seq<i32>) -> Seq<WindowManagerAction>
    decreases kbs.len(),
{
    if kbs.len() == 0 {
        Seq::empty()
    } else {
        let rest = matched_actions(kbs.drop_last(), codes);
        if key_codes(kbs.last().keys) == codes {
            rest.push(kbs.last().action)
        } else {
            rest
        }
    }
}

/// The keys whose code is not `code`, in order.
pub open spec fn without_code(ps: Seq<KeyView>, code: i32) -> Seq<KeyView>
    decreases ps.len(),
{
    if ps.len() == 0 {
        Seq::empty()
    } else {
        let rest = without_code(ps.drop_last(), code);
        if ps.last().code != code {
            rest.push(ps.last())
        } else {
            rest
        }
    }
}

/// Keeps the key bindings and the keys held down.
pub struct KeyManager {
    keybinds: Vec<Keybind>,
    pressed_keys: Vec<Key>,
}

/// The value of a key manager.
pub struct KeyManagerView {
    pub keybinds: Seq<KeybindView>,
    pub pressed: Seq<KeyView>,
}

impl View for KeyManager {
    type V = KeyManagerView;

    closed spec fn view(&self) -> KeyManagerView {
        KeyManagerView {
            keybinds: self.keybinds@.map_values(|k: Keybind| k@),
            pressed: key_views(self.pressed_keys@),
        }
    }
}

/// Whether two lists of keys have the same codes, in order.
fn same_codes(a: &Vec<Key>, b: &Vec<Key>) -> (r: bool)
    ensures
        r == (key_codes(key_views(a@)) == key_codes(key_views(b@))),
{
    let ghost ca = key_codes(key_views(a@));
    let ghost cb = key_codes(key_views(b@));
    if a.len() != b.len() {
        assert(ca.len() != cb.len());
        return false;
    }
    let mut i: usize = 0;
    while i < a.len()
        invariant
            a.len() == b.len(),
            0 <= i <= a.len(),
            ca == key_codes(key_views(a@)),
            cb == key_codes(key_views(b@)),
            forall|j: int| 0 <= j < i ==> ca[j] == cb[j],
        decreases a.len() - i,
    {
        assert(ca[i as int] == a@[i as int].code && cb[i as int] == b@[i as int].code);
        if a[i].code != b[i].code {
            return false;
        }
        i = i + 1;
    }
    assert(ca =~= cb);
    true
}

/// What `without_code` keeps comes from the list, and does not have the code.
proof fn lemma_without_code(ps: Seq<KeyView>, code: i32)
    ensures
        forall|i: int|
            0 <= i < without_code(ps, code).len() ==> (#[trigger] without_code(ps, code)[i]).code != code
                && ps.contains(without_code(ps, code)[i]),
        distinct_codes(ps) ==> distinct_codes(without_code(ps, code)),
        !has_code(without_code(ps, code), code),
    decreases ps.len(),
{
    if ps.len() > 0 {
        let d = ps.drop_last();
        lemma_without_code(d, code);
        let rest = without_code(d, code);
        assert forall|i: int| 0 <= i < rest.len() implies ps.contains(#[trigger] rest[i]) by {
            let t = choose|t: int| 0 <= t < d.len() && d[t] == rest[i];
            assert(ps[t] == d[t]);
        }
        assert(ps[ps.len() - 1] == ps.last());
        if distinct_codes(ps) {
            assert forall|i: int| 0 <= i < rest.len() implies (#[trigger] rest[i]).code != ps.last().code by {
                let t = choose|t: int| 0 <= t < d.len() && d[t] == rest[i];
                assert(ps[t] == d[t]);
            }
            assert(distinct_codes(d)) by {
                assert forall|i: int, j: int| 0 <= i < j < d.len() implies (#[trigger] d[i]).code != (#[trigger] d[j]).code by {
                    assert(d[i] == ps[i] && d[j] == ps[j]);
                }
            }
        }
    }
}

/// A stable sort of keys with distinct codes orders them by code.
proof fn lemma_sorted_arrangement(ps: Seq<KeyView>, s: Seq<KeyView>)
    requires
        distinct_codes(ps),
        is_stable_sort(ps, s),
    ensures
        is_sorted_arrangement(ps, s),
        distinct_codes(s),
{
    let idx = choose|idx: Seq<int>| is_stable_order(ps, idx) && s == keys_at(ps, idx);
    assert forall|i: int, j: int| 0 <= i < j < s.len() implies #[trigger] key_codes(s)[i] < #[trigger] key_codes(s)[j] by {
        assert(key_before(ps, idx[i], idx[j]));
        assert(s[i] == ps[idx[i]] && s[j] == ps[idx[j]]);
        if ps[idx[i]].code == ps[idx[j]].code {
            assert(idx[i] < idx[j]);
        }
    }
    assert forall|i: int| 0 <= i < s.len() implies ps.contains(#[trigger] s[i]) by {
        assert(s[i] == ps[idx[i]]);
    }
    assert forall|i: int, j: int| 0 <= i < j < s.len() implies (#[trigger] s[i]).code != (#[trigger] s[j]).code by {
        assert(key_codes(s)[i] < key_codes(s)[j]);
    }
}

impl KeyManager {
    /// The keys held down have distinct codes.
    pub open spec fn wf(&self) -> bool {
        distinct_codes(self@.pressed)
    }

    /// A manager of the given key bindings, with no key held down.
    pub fn new(keybinds: Vec<Keybind>) -> (r: Self)
        ensures
            r.wf(),
            r@.keybinds == keybinds@.map_values(|k: Keybind| k@),
            r@.pressed == Seq::<KeyView>::empty(),
    {
        let r = Self { keybinds, pressed_keys: Vec::new() };
        assert(r@.pressed =~= Seq::<KeyView>::empty());
        r
    }

    /// Handles a key event and gives the actions to run, in order.
    ///
    /// A press adds the key, rebuilt from its code (see `named_key`), to
    /// those held down unless a key with its code is held already. A
    /// release first sorts the held keys by code (when there are key
    /// bindings), gives the actions of the bindings whose keys are exactly
    /// the held ones, and then lets the released key go.
    pub fn handle_keypress(&mut self, key_press: KeyEvent) -> (r: Vec<WindowManagerAction>)
        requires
            old(self).wf(),
        ensures
            final(self).wf(),
            final(self)@.keybinds == old(self)@.keybinds,
            key_press.event == KeyEventType::PRESS ==> {
                &&& r@ == Seq::<WindowManagerAction>::empty()
                &&& final(self)@.pressed == pressed_after(old(self)@.pressed, seq![key_press.key@])
            },
            key_press.event == KeyEventType::RELEASE ==> {
                &&& !has_code(final(self)@.pressed, key_press.key.code)
                &&& exists|s: Seq<KeyView>|
                    {
                        &&& (if old(self)@.keybinds.len() > 0 {
                            is_sorted_arrangement(old(self)@.pressed, s)
                        } else {
                            s == old(self)@.pressed
                        })
                        &&& r@ == matched_actions(old(self)@.keybinds, key_codes(s))
                        &&& final(self)@.pressed == without_code(s, key_press.key.code)
                    }
            },
    {
        let ghost kbs = self@.keybinds;
        let ghost ps = self@.pressed;
        let key = key_press.key;
        match key_press.event {
            KeyEventType::PRESS => {
                let mut found = false;
                let mut i: usize = 0;
                while i < self.pressed_keys.len()
                    invariant
                        0 <= i <= self.pressed_keys.len(),
                        ps == key_views(self.pressed_keys@),
                        found == exists|j: int| 0 <= j < i && (#[trigger] ps[j]).code == key.code,
                    decreases self.pressed_keys.len() - i,
                {
                    assert(ps[i as int] == self.pressed_keys@[i as int]@);
                    if self.pressed_keys[i].code == key.code {
                        found = true;
                    }
                    i = i + 1;
                }
                if !found {
                    let rebuilt = Key::from_code(key.code, key.name);
                    let ghost kv = rebuilt@;
                    self.pressed_keys.push(rebuilt);
                    proof {
                        assert(key_views(self.pressed_keys@) =~= ps.push(kv));
                        assert forall|a: int, b: int| 0 <= a < b < ps.len() + 1 implies (#[trigger] ps.push(kv)[a]).code
                            != (#[trigger] ps.push(kv)[b]).code by {
                            if b == ps.len() {
                                assert(ps.push(kv)[a] == ps[a]);
                            } else {
                                assert(ps.push(kv)[a] == ps[a] && ps.push(kv)[b] == ps[b]);
                            }
                        }
                    }
                }
                assert(self@.keybinds == kbs);
                proof {
                    let k0 = key_press.key@;
                    assert(seq![k0].drop_last() =~= Seq::<KeyView>::empty());
                    assert(seq![k0].last() == k0);
                    assert(pressed_after(ps, Seq::<KeyView>::empty()) == ps);
                    assert(self@.pressed == if has_code(ps, k0.code) {
                        ps
                    } else {
                        ps.push(named_key(k0.code, k0.name))
                    });
                }
                Vec::new()
            },
            KeyEventType::RELEASE => {
                if self.keybinds.len() > 0 {
                    sort_keys(&mut self.pressed_keys);
                }
                let ghost s = self@.pressed;
                proof {
                    if kbs.len() > 0 {
                        lemma_sorted_arrangement(ps, s);
                    }
                }
                let mut actions: Vec<WindowManagerAction> = Vec::new();
                let mut i: usize = 0;
                while i < self.keybinds.len()
                    invariant
                        0 <= i <= self.keybinds.len(),
                        kbs == self.keybinds@.map_values(|k: Keybind| k@),
                        s == key_views(self.pressed_keys@),
                        actions@ == matched_actions(kbs.take(i as int), key_codes(s)),
                    decreases self.keybinds.len() - i,
                {
                    assert(kbs.take(i + 1).drop_last() =~= kbs.take(i as int));
                    assert(kbs.take(i + 1).last() == self.keybinds@[i as int]@);
                    if same_codes(&self.keybinds[i].keys, &self.pressed_keys) {
                        actions.push(self.keybinds[i].action);
                    }
                    i = i + 1;
                }
                assert(kbs.take(self.keybinds.len() as int) =~= kbs);
                let mut kept: Vec<Key> = Vec::new();
                let mut j: usize = 0;
                while j < self.pressed_keys.len()
                    invariant
                        0 <= j <= self.pressed_keys.len(),
                        s == key_views(self.pressed_keys@),
                        key_views(kept@) == without_code(s.take(j as int), key.code),
                    decreases self.pressed_keys.len() - j,
                {
                    assert(s.take(j + 1).drop_last() =~= s.take(j as int));
                    assert(s.take(j + 1).last() == self.pressed_keys@[j as int]@);
                    if self.pressed_keys[j].code != key.code {
                        let ghost before = kept@;
                        let c = self.pressed_keys[j].copy();
                        kept.push(c);
                        assert(key_views(kept@) =~= key_views(before).push(c@));
                    }
                    j = j + 1;
                }
                assert(s.take(self.pressed_keys.len() as int) =~= s);
                self.pressed_keys = kept;
                proof {
                    lemma_without_code(s, key.code);
                    if kbs.len() == 0 {
                        assert(s == ps);
                    }
                }
                actions
            },
        }
    }
}

/// Two strictly ascending lists with the same elements are equal.
pub proof fn lemma_ascending_unique(a: Seq<i32>, b: Seq<i32>)
    requires
        strictly_ascending(a),
        strictly_ascending(b),
        forall|x: i32| a.contains(x) <==> b.contains(x),
    ensures
        a == b,
    decreases a.len(),
{
    if a.len() == 0 {
        if b.len() > 0 {
            assert(b.contains(b[0]));
        }
        assert(a =~= b);
    } else {
        assert(a.contains(a[0]));
        assert(b.len() > 0);
        assert(b.contains(b[0]));
        let j = choose|j: int| 0 <= j < b.len() && b[j] == a[0];
        let i = choose|i: int| 0 <= i < a.len() && a[i] == b[0];
        if i > 0 {
            assert(a[0] < a[i]);
        }
        if j > 0 {
            assert(b[0] < b[j]);
        }
        assert(a[0] == b[0]);
        let a1 = a.drop_first();
        let b1 = b.drop_first();
        assert forall|x: i32| a1.contains(x) <==> b1.contains(x) by {
            if a1.contains(x) {
                let t = choose|t: int| 0 <= t < a1.len() && a1[t] == x;
                assert(a[t + 1] == x && a[0] < a[t + 1]);
                assert(a.contains(x));
                let u = choose|u: int| 0 <= u < b.len() && b[u] == x;
                assert(u != 0);
                assert(b1[u - 1] == x);
            }
            if b1.contains(x) {
                let t = choose|t: int| 0 <= t < b1.len() && b1[t] == x;
                assert(b[t + 1] == x && b[0] < b[t + 1]);
                assert(b.contains(x));
                let u = choose|u: int| 0 <= u < a.len() && a[u] == x;
                assert(u != 0);
                assert(a1[u - 1] == x);
            }
        }
        assert forall|p: int, q: int| 0 <= p < q < a1.len() implies #[trigger] a1[p] < #[trigger] a1[q] by {
            assert(a1[p] == a[p + 1] && a1[q] == a[q + 1]);
        }
        assert forall|p: int, q: int| 0 <= p < q < b1.len() implies #[trigger] b1[p] < #[trigger] b1[q] by {
            assert(b1[p] == b[p + 1] && b1[q] == b[q + 1]);
        }
        lemma_ascending_unique(a1, b1);
        assert(a =~= b) by {
            assert forall|k: int| 0 <= k < a.len() implies a[k] == b[k] by {
                if k > 0 {
                    assert(a[k] == a1[k - 1] && b[k] == b1[k - 1]);
                }
            }
        }
    }
}

/// The order in which the keys were pressed does not matter: two lists of
/// held keys with the same codes, once sorted on a release, trigger the same
/// bindings, and whichever key is let go, the same codes stay held.
pub proof fn lemma_press_order_irrelevant(
    kbs: Seq<KeybindView>,
    p1: Seq<KeyView>,
    p2: Seq<KeyView>,
    s1: Seq<KeyView>,
    s2: Seq<KeyView>,
)
    requires
        forall|c: i32| has_code(p1, c) <==> has_code(p2, c),
        is_sorted_arrangement(p1, s1),
        is_sorted_arrangement(p2, s2),
    ensures
        matched_actions(kbs, key_codes(s1)) == matched_actions(kbs, key_codes(s2)),
        forall|code: i32| key_codes(#[trigger] without_code(s1, code)) == key_codes(without_code(s2, code)),
{
    let c1 = key_codes(s1);
    let c2 = key_codes(s2);
    assert forall|x: i32| c1.contains(x) <==> c2.contains(x) by {
        if c1.contains(x) {
            let t = choose|t: int| 0 <= t < c1.len() && c1[t] == x;
            assert(p1.contains(s1[t]));
            let u = choose|u: int| 0 <= u < p1.len() && p1[u] == s1[t];
            assert(has_code(p1, x));
            assert(has_code(p2, x));
            lemma_arrangement_has(p2, s2, x);
        }
        if c2.contains(x) {
            let t = choose|t: int| 0 <= t < c2.len() && c2[t] == x;
            assert(p2.contains(s2[t]));
            let u = choose|u: int| 0 <= u < p2.len() && p2[u] == s2[t];
            assert(has_code(p2, x));
            assert(has_code(p1, x));
            lemma_arrangement_has(p1, s1, x);
        }
    }
    lemma_ascending_unique(c1, c2);
    assert forall|code: i32| key_codes(#[trigger] without_code(s1, code)) == key_codes(without_code(s2, code)) by {
        lemma_without_code_same_codes(s1, s2, code);
    }
}

/// Letting a code go from two lists with the same codes leaves lists with
/// the same codes.
proof fn lemma_without_code_same_codes(a: Seq<KeyView>, b: Seq<KeyView>, code: i32)
    requires
        key_codes(a) == key_codes(b),
    ensures
        key_codes(without_code(a, code)) == key_codes(without_code(b, code)),
    decreases a.len(),
{
    assert(a.len() == key_codes(a).len() && b.len() == key_codes(b).len());
    if a.len() > 0 {
        assert(key_codes(a.drop_last()) =~= key_codes(b.drop_last())) by {
            assert forall|i: int| 0 <= i < a.len() - 1 implies key_codes(a.drop_last())[i] == key_codes(b.drop_last())[i] by {
                assert(key_codes(a)[i] == a[i].code && key_codes(b)[i] == b[i].code);
                assert(a.drop_last()[i] == a[i] && b.drop_last()[i] == b[i]);
                assert(key_codes(a.drop_last())[i] == a.drop_last()[i].code);
                assert(key_codes(b.drop_last())[i] == b.drop_last()[i].code);
            }
        }
        lemma_without_code_same_codes(a.drop_last(), b.drop_last(), code);
        assert(key_codes(a)[a.len() - 1] == key_codes(b)[b.len() - 1]);
        assert(a.last().code == b.last().code);
        let ra = without_code(a.drop_last(), code);
        let rb = without_code(b.drop_last(), code);
        if a.last().code != code {
            assert(key_codes(ra.push(a.last())) =~= key_codes(ra).push(a.last().code));
            assert(key_codes(rb.push(b.last())) =~= key_codes(rb).push(b.last().code));
        }
    }
}

/// The keys held after pressing `keys` in turn, starting from `ps`: each
/// press adds the key, rebuilt from its code, unless its code is held.
pub open spec fn pressed_after(ps: Seq<KeyView>, keys: Seq<KeyView>) -> Seq<KeyView>
    decreases keys.len(),
{
    if keys.len() == 0 {
        ps
    } else {
        let held = pressed_after(ps, keys.drop_last());
        let k = keys.last();
        if has_code(held, k.code) {
            held
        } else {
            held.push(named_key(k.code, k.name))
        }
    }
}

/// Some key among `keys` has the code.
pub open spec fn pressed_code(keys: Seq<KeyView>, code: i32) -> bool {
    exists|i: int| 0 <= i < keys.len() && (#[trigger] keys[i]).code == code
}

/// After pressing some keys from none held, exactly their codes are held.
proof fn lemma_pressed_codes(keys: Seq<KeyView>, code: i32)
    ensures
        has_code(pressed_after(Seq::empty(), keys), code) == pressed_code(keys, code),
    decreases keys.len(),
{
    if keys.len() > 0 {
        let d = keys.drop_last();
        lemma_pressed_codes(d, code);
        let held = pressed_after(Seq::empty(), d);
        let k = keys.last();
        let after = pressed_after(Seq::empty(), keys);
        if pressed_code(d, code) {
            let i = choose|i: int| 0 <= i < d.len() && (#[trigger] d[i]).code == code;
            assert(keys[i] == d[i]);
        }
        if pressed_code(keys, code) && !pressed_code(d, code) {
            let i = choose|i: int| 0 <= i < keys.len() && (#[trigger] keys[i]).code == code;
            if i < d.len() {
                assert(d[i] == keys[i]);
            }
            assert(k.code == code);
        }
        if has_code(after, code) {
            let i = choose|i: int| 0 <= i < after.len() && (#[trigger] after[i]).code == code;
            if !has_code(held, k.code) && i == held.len() {
                assert(keys[keys.len() - 1] == k);
            } else {
                assert(held[i] == after[i]);
            }
        }
        if has_code(held, code) {
            let i = choose|i: int| 0 <= i < held.len() && (#[trigger] held[i]).code == code;
            if !has_code(held, k.code) {
                assert(after[i] == held[i]);
            }
        }
        if k.code == code && !has_code(held, k.code) {
            assert(after[held.len() as int].code == code);
        }
        if k.code == code && has_code(held, k.code) {
            assert(has_code(after, code));
        }
        if k.code == code {
            assert(keys[keys.len() - 1] == k);
        }
    }
}

/// Pressing the same keys in any order and then letting one go gives the
/// same actions, and the same codes stay held: the held keys, sorted on the
/// release, are the same codes whatever the order they came in.
pub proof fn lemma_press_sequences_agree(
    kbs: Seq<KeybindView>,
    keys1: Seq<KeyView>,
    keys2: Seq<KeyView>,
    s1: Seq<KeyView>,
    s2: Seq<KeyView>,
    released: i32,
)
    requires
        forall|c: i32| pressed_code(keys1, c) <==> pressed_code(keys2, c),
        is_sorted_arrangement(pressed_after(Seq::empty(), keys1), s1),
        is_sorted_arrangement(pressed_after(Seq::empty(), keys2), s2),
    ensures
        matched_actions(kbs, key_codes(s1)) == matched_actions(kbs, key_codes(s2)),
        key_codes(without_code(s1, released)) == key_codes(without_code(s2, released)),
{
    let p1 = pressed_after(Seq::empty(), keys1);
    let p2 = pressed_after(Seq::empty(), keys2);
    assert forall|c: i32| has_code(p1, c) <==> has_code(p2, c) by {
        lemma_pressed_codes(keys1, c);
        lemma_pressed_codes(keys2, c);
    }
    lemma_press_order_irrelevant(kbs, p1, p2, s1, s2);
    assert(key_codes(without_code(s1, released)) == key_codes(without_code(s2, released)));
}

/// Every code held is in the sorted arrangement: an arrangement of
/// `ps.len()` keys of `ps` with distinct codes that missed one would need two
/// of its positions for one key of `ps`.
proof fn lemma_arrangement_has(ps: Seq<KeyView>, s: Seq<KeyView>, x: i32)
    requires
        is_sorted_arrangement(ps, s),
        has_code(ps, x),
    ensures
        key_codes(s).contains(x),
{
    let i = choose|i: int| 0 <= i < ps.len() && (#[trigger] ps[i]).code == x;
    if !key_codes(s).contains(x) {
        let f = |k: int| choose|t: int| 0 <= t < ps.len() && ps[t] == s[k];
        assert forall|k: int| 0 <= k < s.len() implies 0 <= #[trigger] f(k) < ps.len() && ps[f(k)] == s[k] && f(k) != i by {
            assert(ps.contains(s[k]));
            if f(k) == i {
                assert(key_codes(s)[k] == ps[i].code);
            }
        }
        let dom = vstd::set_lib::set_int_range(0, s.len() as int);
        let img = vstd::set_lib::set_int_range(0, ps.len() as int).remove(i);
        vstd::set_lib::lemma_int_range(0, s.len() as int);
        vstd::set_lib::lemma_int_range(0, ps.len() as int);
        assert(vstd::relations::injective_on(f, dom)) by {
            assert forall|a: int, b: int| dom.contains(a) && dom.contains(b) && #[trigger] f(a) == #[trigger] f(b) implies a == b by {
                if a < b {
                    assert(key_codes(s)[a] < key_codes(s)[b]);
                } else if b < a {
                    assert(key_codes(s)[b] < key_codes(s)[a]);
                }
            }
        }
        let mapped = dom.map(f);
        assert(mapped.subset_of(img)) by {
            assert forall|t: int| mapped.contains(t) implies img.contains(t) by {
                let k = choose|k: int| dom.contains(k) && t == f(k);
            }
        }
        vstd::set_lib::lemma_map_size(dom, mapped, f);
        vstd::set_lib::lemma_len_subset(mapped, img);
    }
}

} // verus!
