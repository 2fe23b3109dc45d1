//! Keys, key events and key bindings.
use vstd::prelude::*;
use crate::actions::WindowManagerAction;
use crate::text::{chars_of, eq_chars, lit, string_from};

verus! {

/// Whether a key went down or up.
#[derive(Clone, Copy, PartialEq, Eq, Structural, Debug)]
pub enum KeyEventType {
    PRESS,
    RELEASE,
}

/// The message code of a key going up.
pub const KEY_UP: usize = 0x0101;

/// The message code of a key going down.
pub const KEY_DOWN: usize = 0x0100;

impl From<usize> for KeyEventType {
    /// A key message code: `KEY_DOWN` is a press, anything else a release.
    fn from(code: usize) -> (r: Self) {
        if code == KEY_UP {
            KeyEventType::RELEASE
        } else if code == KEY_DOWN {
            KeyEventType::PRESS
        } else {
            KeyEventType::RELEASE
        }
    }
}

impl vstd::std_specs::convert::FromSpecImpl<usize> for KeyEventType {
    open spec fn obeys_from_spec() -> bool {
        true
    }

    open spec fn from_spec(v: usize) -> Self {
        if v == KEY_DOWN {
            KeyEventType::PRESS
        } else {
            KeyEventType::RELEASE
        }
    }
}

/// The virtual-key code of the space bar.
pub const KEY_SPACE: i32 = 32;

/// The virtual-key code of the (left) Windows key.
pub const WINDOWS_KEY_CODE: i32 = 91;

/// The virtual-key code of the (left) Control key.
pub const KEY_CONTROL: i32 = 162;

/// The virtual-key code of the (left) Alt key.
pub const KEY_ALT: i32 = 164;

/// The virtual-key code of the (left) Shift key.
pub const KEY_SHIFT: i32 = 160;

/// A key: its virtual-key code and its name. Keys are equal when their codes are.
pub struct Key {
    pub code: i32,
    pub name: String,
}

/// The value of a key.
pub struct KeyView {
    pub code: i32,
    pub name: Seq<char>,
}

impl View for Key {
    type V = KeyView;

    open spec fn view(&self) -> KeyView {
        KeyView { code: self.code, name: self.name@ }
    }
}

impl PartialEq for Key {
    /// Two keys are the same when their codes are.
    fn eq(&self, other: &Self) -> (r: bool) {
        self.code == other.code
    }
}

impl vstd::std_specs::cmp::PartialEqSpecImpl for Key {
    open spec fn obeys_eq_spec() -> bool {
        true
    }

    open spec fn eq_spec(&self, other: &Self) -> bool {
        self.code == other.code
    }
}

impl Eq for Key {

}

/// The name of a key with a name of its own: SPACE, WIN, CTRL, ALT and SHIFT.
pub open spec fn special_key_name(code: i32) -> Option<Seq<char>> {
    if code == KEY_SPACE {
        Some("SPACE"@)
    } else if code == WINDOWS_KEY_CODE {
        Some("WIN"@)
    } else if code == KEY_CONTROL {
        Some("CTRL"@)
    } else if code == KEY_ALT {
        Some("ALT"@)
    } else if code == KEY_SHIFT {
        Some("SHIFT"@)
    } else {
        None
    }
}

/// The code of a key name with its own name, given in upper case.
pub open spec fn special_key_code(upper_name: Seq<char>) -> Option<i32> {
    if upper_name == "SPACE"@ {
        Some(KEY_SPACE)
    } else if upper_name == "WIN"@ {
        Some(WINDOWS_KEY_CODE)
    } else if upper_name == "CTRL"@ {
        Some(KEY_CONTROL)
    } else if upper_name == "ALT"@ {
        Some(KEY_ALT)
    } else if upper_name == "SHIFT"@ {
        Some(KEY_SHIFT)
    } else {
        None
    }
}

/// What `str::to_uppercase` gives (the full Unicode upper-case mapping).
pub uninterp spec fn unicode_upper(s: Seq<char>) -> Seq<char>;

/// Upper-cases a text.
///
/// Trusted: calls `str::to_uppercase`, which maps each character to its
/// Unicode upper case; the contract only names that mapping.
#[verifier::external_body]
fn to_uppercase(s: &str) -> (r: String)
    ensures
        r@ == unicode_upper(s@),
{
    s.to_uppercase()
}

/// The name of a key with a name of its own (see `special_key_name`).
pub fn key_name(code: i32) -> (r: Option<String>)
    ensures
        match r {
            Some(n) => special_key_name(code) == Some(n@),
            None => special_key_name(code) is None,
        },
{
    if code == KEY_SPACE {
        Some(string_from(&lit("SPACE")))
    } else if code == WINDOWS_KEY_CODE {
        Some(string_from(&lit("WIN")))
    } else if code == KEY_CONTROL {
        Some(string_from(&lit("CTRL")))
    } else if code == KEY_ALT {
        Some(string_from(&lit("ALT")))
    } else if code == KEY_SHIFT {
        Some(string_from(&lit("SHIFT")))
    } else {
        None
    }
}

/// The code of a key name that is already upper case (see `special_key_code`).
pub fn key_code_of_upper(upper_name: &str) -> (r: Option<i32>)
    ensures
        r == special_key_code(upper_name@),
{
    let n = chars_of(upper_name);
    if eq_chars(&n, &lit("SPACE")) {
        Some(KEY_SPACE)
    } else if eq_chars(&n, &lit("WIN")) {
        Some(WINDOWS_KEY_CODE)
    } else if eq_chars(&n, &lit("CTRL")) {
        Some(KEY_CONTROL)
    } else if eq_chars(&n, &lit("ALT")) {
        Some(KEY_ALT)
    } else if eq_chars(&n, &lit("SHIFT")) {
        Some(KEY_SHIFT)
    } else {
        None
    }
}

/// The code of a key name with its own name, in any case: the name is
/// upper-cased first (see `unicode_upper`).
pub fn key_code(name: &str) -> (r: Option<i32>)
    ensures
        r == special_key_code(unicode_upper(name@)),
{
    let up = to_uppercase(name);
    key_code_of_upper(up.as_str())
}

/// The key with a code: named by its own name when it has one (see
/// `special_key_name`), else by `system_name`.
pub open spec fn named_key(code: i32, system_name: Seq<char>) -> KeyView {
    KeyView {
        code,
        name: match special_key_name(code) {
            Some(n) => n,
            None => system_name,
        },
    }
}

impl Key {
    /// The key with a code: named by its own name when it has one (see
    /// `special_key_name`), else by `system_name`, the name the system gives it.
    pub fn from_code(code: i32, system_name: String) -> (r: Key)
        ensures
            r@ == named_key(code, system_name@),
    {
        match key_name(code) {
            Some(n) => Key { code, name: n },
            None => Key { code, name: system_name },
        }
    }

    /// A copy of the key.
    pub fn copy(&self) -> (r: Key)
        ensures
            r@ == self@,
    {
        Key { code: self.code, name: self.name.clone() }
    }
}

/// A key going down or up.
pub struct KeyEvent {
    pub event: KeyEventType,
    pub key: Key,
}

impl KeyEvent {
    /// A key event.
    pub fn new(event: KeyEventType, key: Key) -> (r: Self)
        ensures
            r.event == event,
            r.key@ == key@,
    {
        KeyEvent { event, key }
    }
}

/// A combination of keys and the action it triggers.
pub struct Keybind {
    pub keys: Vec<Key>,
    pub action: WindowManagerAction,
}

/// The value of a key binding.
pub struct KeybindView {
    pub keys: Seq<KeyView>,
    pub action: WindowManagerAction,
}

impl View for Keybind {
    type V = KeybindView;

    open spec fn view(&self) -> KeybindView {
        KeybindView { keys: self.keys@.map_values(|k: Key| k@), action: self.action }
    }
}

impl Keybind {
    /// A key binding.
    pub fn new(keys: Vec<Key>, action: WindowManagerAction) -> (r: Self)
        ensures
            r@.keys == keys@.map_values(|k: Key| k@),
            r.action == action,
    {
        Keybind { keys, action }
    }
}

/// The views of some keys.
pub open spec fn key_views(ks: Seq<Key>) -> Seq<KeyView> {
    ks.map_values(|k: Key| k@)
}

/// The codes of some keys.
pub open spec fn key_codes(ks: Seq<KeyView>) -> Seq<i32> {
    ks.map_values(|k: KeyView| k.code)
}

/// Key `a` comes before key `b` in a stable sort by code.
pub open spec fn key_before(ks: Seq<KeyView>, a: int, b: int) -> bool {
    ks[a].code < ks[b].code || (ks[a].code == ks[b].code && a < b)
}

/// `idx` lists the positions of `ks` in the order of a stable sort by code.
pub open spec fn is_stable_order(ks: Seq<KeyView>, idx: Seq<int>) -> bool {
    &&& idx.len() == ks.len()
    &&& forall|i: int| 0 <= i < idx.len() ==> 0 <= #[trigger] idx[i] < ks.len()
    &&& forall|k: int| 0 <= k < ks.len() ==> #[trigger] idx.contains(k)
    &&& forall|i: int, j: int| 0 <= i < j < idx.len() ==> key_before(ks, #[trigger] idx[i], #[trigger] idx[j])
}

/// The keys at the given positions.
pub open spec fn keys_at(ks: Seq<KeyView>, idx: Seq<int>) -> Seq<KeyView> {
    idx.map_values(|k: int| ks[k])
}

/// `s` is `ks` sorted by code, keys of equal code keeping their order.
pub open spec fn is_stable_sort(ks: Seq<KeyView>, s: Seq<KeyView>) -> bool {
    exists|idx: Seq<int>| is_stable_order(ks, idx) && s == keys_at(ks, idx)
}

/// Sorts keys by code; keys of equal code keep their order.
pub fn sort_keys(keys: &mut Vec<Key>)
    ensures
        is_stable_sort(key_views(old(keys)@), key_views(final(keys)@)),
{
    let ghost ks = key_views(keys@);
    let mut idx: Vec<usize> = Vec::new();
    let mut k: usize = 0;
    while k < keys.len()
        invariant
            0 <= k <= keys.len(),
            ks == key_views(keys@),
            idx.len() == k,
            forall|i: int| 0 <= i < idx.len() ==> (#[trigger] idx@[i]) < k,
            forall|j: int| 0 <= j < k ==> #[trigger] idx@.contains(j as usize),
            forall|i: int, j: int|
                0 <= i < j < idx.len() ==> key_before(ks, #[trigger] idx@[i] as int, #[trigger] idx@[j] as int),
        decreases keys.len() - k,
    {
        let code = keys[k].code;
        assert(ks[k as int].code == code);
        let mut p: usize = 0;
        while p < idx.len() && keys[idx[p]].code <= code
            invariant
                0 <= p <= idx.len(),
                k < keys.len(),
                ks == key_views(keys@),
                forall|i: int| 0 <= i < idx.len() ==> (#[trigger] idx@[i]) < k,
                forall|i: int| 0 <= i < p ==> ks[#[trigger] idx@[i] as int].code <= code,
            decreases idx.len() - p,
        {
            assert(ks[idx@[p as int] as int] == keys@[idx@[p as int] as int]@);
            p = p + 1;
        }
        let ghost old_idx = idx@;
        proof {
            if p < old_idx.len() {
                assert(ks[old_idx[p as int] as int] == keys@[old_idx[p as int] as int]@);
                assert(ks[old_idx[p as int] as int].code > code);
            }
        }
        idx.insert(p, k);
        proof {
            assert(idx@ == old_idx.insert(p as int, k));
            assert forall|i: int, j: int|
                0 <= i < j < idx.len() implies key_before(ks, #[trigger] idx@[i] as int, #[trigger] idx@[j] as int) by {
                if j < p {
                    assert(idx@[i] == old_idx[i] && idx@[j] == old_idx[j]);
                } else if j == p {
                    assert(idx@[i] == old_idx[i]);
                } else if i < p {
                    assert(idx@[i] == old_idx[i] && idx@[j] == old_idx[j - 1]);
                    assert(key_before(ks, old_idx[p as int] as int, old_idx[j - 1] as int) || j - 1 == p);
                } else if i == p {
                    assert(idx@[j] == old_idx[j - 1]);
                    assert(key_before(ks, old_idx[p as int] as int, old_idx[j - 1] as int) || j - 1 == p);
                } else {
                    assert(idx@[i] == old_idx[i - 1] && idx@[j] == old_idx[j - 1]);
                }
            }
            assert forall|j: int| 0 <= j < k + 1 implies #[trigger] idx@.contains(j as usize) by {
                if j == k {
                    assert(idx@[p as int] == k);
                } else {
                    assert(old_idx.contains(j as usize));
                    let t = choose|t: int| 0 <= t < old_idx.len() && old_idx[t] == j as usize;
                    if t < p {
                        assert(idx@[t] == j as usize);
                    } else {
                        assert(idx@[t + 1] == j as usize);
                    }
                }
            }
        }
        k = k + 1;
    }
    let ghost sidx = idx@.map_values(|x: usize| x as int);
    let mut r: Vec<Key> = Vec::new();
    let mut i: usize = 0;
    while i < idx.len()
        invariant
            0 <= i <= idx.len(),
            idx.len() == keys.len(),
            ks == key_views(keys@),
            sidx == idx@.map_values(|x: usize| x as int),
            forall|j: int| 0 <= j < idx.len() ==> (#[trigger] idx@[j]) < keys.len(),
            key_views(r@) =~= keys_at(ks, sidx).take(i as int),
        decreases idx.len() - i,
    {
        let c = keys[idx[i]].copy();
        let ghost old_r = r@;
        assert(c@ == ks[sidx[i as int]]);
        r.push(c);
        proof {
            assert(key_views(r@) =~= key_views(old_r).push(c@));
            assert(keys_at(ks, sidx).take(i + 1) =~= keys_at(ks, sidx).take(i as int).push(ks[sidx[i as int]]));
        }
        i = i + 1;
    }
    proof {
        assert(key_views(r@) =~= keys_at(ks, sidx));
        assert forall|j: int| 0 <= j < ks.len() implies #[trigger] sidx.contains(j) by {
            assert(idx@.contains(j as usize));
            let t = choose|t: int| 0 <= t < idx@.len() && idx@[t] == j as usize;
            assert(sidx[t] == j);
        }
        assert forall|a: int, b: int| 0 <= a < b < sidx.len() implies key_before(ks, #[trigger] sidx[a], #[trigger] sidx[b]) by {
            assert(sidx[a] == idx@[a] as int && sidx[b] == idx@[b] as int);
        }
        assert(is_stable_order(ks, sidx));
    }
    *keys = r;
}

/// The key binding of an action to keys, the keys sorted by code (keys of
/// equal code keeping their order), so that it can be compared with the
/// sorted held keys.
pub fn keybind_from(keys: Vec<Key>, action: WindowManagerAction) -> (r: Keybind)
    ensures
        is_stable_sort(key_views(keys@), r@.keys),
        r.action == action,
{
    let mut keys = keys;
    sort_keys(&mut keys);
    let r = Keybind::new(keys, action);
    assert(r@.keys == key_views(keys@));
    r
}

} // verus!
