//! Reading the configuration: key bindings, with variables.
//!
//! The configuration is a text of lines separated by `\r\n`. Each non-empty
//! line is `identifier: value`, the value being key names separated by `+`.
//! An identifier that occurs elsewhere in the text behind a `$` is a
//! variable; `$name` in a value stands for the keys of variable `name`. Every
//! other identifier names an action.
use vstd::prelude::*;
use crate::actions::{ActionParseError, WindowManagerAction, window_manager_action_parse};
use crate::text::{
    chars_of, contains, contains_exec, eq_chars, first_occurrence_from, lit, slice, split, split_exec, starts_with,
    starts_with_exec, string_from, trim, trim_exec,
};

verus! {

/// The text of each of some character vectors.
pub open spec fn texts(v: Seq<Vec<char>>) -> Seq<Seq<char>> {
    v.map_values(|x: Vec<char>| x@)
}

/// The non-empty lines among `ls`, in order.
pub open spec fn nonempty_lines(ls: Seq<Seq<char>>) -> Seq<Seq<char>>
    decreases ls.len(),
{
    if ls.len() == 0 {
        Seq::empty()
    } else {
        let rest = nonempty_lines(ls.drop_last());
        if ls.last().len() > 0 {
            rest.push(ls.last())
        } else {
            rest
        }
    }
}

/// The lines of a configuration: its non-empty `\r\n`-separated pieces.
pub open spec fn config_lines(content: Seq<char>) -> Seq<Seq<char>> {
    nonempty_lines(split(content, "\r\n"@))
}

/// Every line has a colon.
pub open spec fn lines_have_colon(ls: Seq<Seq<char>>) -> bool {
    forall|i: int| 0 <= i < ls.len() ==> split(#[trigger] ls[i], ":"@).len() >= 2
}

/// Each of some texts, trimmed.
pub open spec fn trim_all(ps: Seq<Seq<char>>) -> Seq<Seq<char>> {
    ps.map_values(|p: Seq<char>| trim(p))
}

/// A line's definition: the identifier before the first colon and the keys
/// between the first and the second colon, each trimmed.
pub open spec fn definition(line: Seq<char>) -> (Seq<char>, Seq<Seq<char>>) {
    let parts = split(line, ":"@);
    (trim(parts[0]), trim_all(split(parts[1], "+"@)))
}

/// The definitions of some lines.
pub open spec fn definitions(ls: Seq<Seq<char>>) -> Seq<(Seq<char>, Seq<Seq<char>>)> {
    ls.map_values(|l: Seq<char>| definition(l))
}

/// An identifier is a variable when `$` followed by it occurs in the text.
pub open spec fn is_variable_in(name: Seq<char>, content: Seq<char>) -> bool {
    contains(content, seq!['$'] + name)
}

/// The definitions of variables, in order.
pub open spec fn variables(defs: Seq<(Seq<char>, Seq<Seq<char>>)>, content: Seq<char>) -> Seq<(Seq<char>, Seq<Seq<char>>)>
    decreases defs.len(),
{
    if defs.len() == 0 {
        Seq::empty()
    } else {
        let rest = variables(defs.drop_last(), content);
        if is_variable_in(defs.last().0, content) {
            rest.push(defs.last())
        } else {
            rest
        }
    }
}

/// The definitions of actions (those that are not variables), in order.
pub open spec fn mappings(defs: Seq<(Seq<char>, Seq<Seq<char>>)>, content: Seq<char>) -> Seq<(Seq<char>, Seq<Seq<char>>)>
    decreases defs.len(),
{
    if defs.len() == 0 {
        Seq::empty()
    } else {
        let rest = mappings(defs.drop_last(), content);
        if !is_variable_in(defs.last().0, content) {
            rest.push(defs.last())
        } else {
            rest
        }
    }
}

/// The keys of a variable: those of its last definition.
pub open spec fn lookup(vars: Seq<(Seq<char>, Seq<Seq<char>>)>, name: Seq<char>) -> Option<Seq<Seq<char>>>
    decreases vars.len(),
{
    if vars.len() == 0 {
        None
    } else if vars.last().0 == name {
        Some(vars.last().1)
    } else {
        lookup(vars.drop_last(), name)
    }
}

/// The keys with each `$name` replaced by the keys of variable `name`, in
/// turn expanded, to a depth of `fuel`; a reference to an unknown variable,
/// or one deeper than `fuel`, stands for no key.
pub open spec fn expand(keys: Seq<Seq<char>>, vars: Seq<(Seq<char>, Seq<Seq<char>>)>, fuel: nat) -> Seq<Seq<char>>
    decreases fuel, keys.len(),
{
    if keys.len() == 0 {
        Seq::empty()
    } else {
        let k = keys.last();
        let front = expand(keys.drop_last(), vars, fuel);
        if k.len() > 0 && k[0] == '$' {
            match lookup(vars, k.skip(1)) {
                Some(v) => if fuel > 0 {
                    front + expand(v, vars, (fuel - 1) as nat)
                } else {
                    front
                },
                None => front,
            }
        } else {
            front.push(k)
        }
    }
}

/// `k` is the first line that starts with `name`.
pub open spec fn is_first_line_starting(ls: Seq<Seq<char>>, name: Seq<char>, k: int) -> bool {
    &&& 0 <= k < ls.len()
    &&& starts_with(ls[k], name)
    &&& forall|j: int| 0 <= j < k ==> !starts_with(#[trigger] ls[j], name)
}

/// The first line that starts with `name`, if any.
pub open spec fn first_line_starting(ls: Seq<Seq<char>>, name: Seq<char>) -> Option<int> {
    if exists|k: int| is_first_line_starting(ls, name, k) {
        Some(choose|k: int| is_first_line_starting(ls, name, k))
    } else {
        None
    }
}

/// One entry of the configuration, as read.
pub enum ConfigEntry {
    /// A key binding: the key names, variables expanded, and the action.
    Binding { keys: Vec<String>, action: WindowManagerAction },
    /// An identifier that names no action, with the first line that starts
    /// with it (if none does, reading stops the program).
    UnknownAction { name: String, line: Option<usize> },
    /// An action whose name could not be read: reading stops here (see
    /// `ActionParseError`).
    Stop { error: ActionParseError },
}

/// The value of a configuration entry.
pub enum ConfigEntryView {
    Binding { keys: Seq<Seq<char>>, action: WindowManagerAction },
    UnknownAction { name: Seq<char>, line: Option<usize> },
    Stop { error: ActionParseError },
}

impl View for ConfigEntry {
    type V = ConfigEntryView;

    open spec fn view(&self) -> ConfigEntryView {
        match self {
            ConfigEntry::Binding { keys, action } => ConfigEntryView::Binding {
                keys: keys@.map_values(|k: String| k@),
                action: *action,
            },
            ConfigEntry::UnknownAction { name, line } => ConfigEntryView::UnknownAction {
                name: name@,
                line: *line,
            },
            ConfigEntry::Stop { error } => ConfigEntryView::Stop { error: *error },
        }
    }
}

/// The entry of an action definition.
pub open spec fn entry_for(
    def: (Seq<char>, Seq<Seq<char>>),
    vars: Seq<(Seq<char>, Seq<Seq<char>>)>,
    fuel: nat,
    ls: Seq<Seq<char>>,
) -> ConfigEntryView {
    match window_manager_action_parse(def.0) {
        Ok(action) => ConfigEntryView::Binding { keys: expand(def.1, vars, fuel), action },
        Err(ActionParseError::Rejected) => ConfigEntryView::UnknownAction {
            name: def.0,
            line: match first_line_starting(ls, def.0) {
                Some(k) => Some(k as usize),
                None => None,
            },
        },
        Err(e) => ConfigEntryView::Stop { error: e },
    }
}

/// The entries of the action definitions, in order, up to and including the
/// first that stops reading.
pub open spec fn config_entries(
    ms: Seq<(Seq<char>, Seq<Seq<char>>)>,
    vars: Seq<(Seq<char>, Seq<Seq<char>>)>,
    fuel: nat,
    ls: Seq<Seq<char>>,
) -> Seq<ConfigEntryView>
    decreases ms.len(),
{
    if ms.len() == 0 {
        Seq::empty()
    } else {
        let e = entry_for(ms[0], vars, fuel, ls);
        if e is Stop {
            seq![e]
        } else {
            seq![e] + config_entries(ms.drop_first(), vars, fuel, ls)
        }
    }
}

/// What reading a configuration gives. Variables are expanded to the depth
/// of the number of definitions, which resolves every chain of references
/// that has no cycle.
pub open spec fn parsed_config(content: Seq<char>) -> Seq<ConfigEntryView> {
    let ls = config_lines(content);
    let defs = definitions(ls);
    config_entries(mappings(defs, content), variables(defs, content), defs.len(), ls)
}

/// A definition as vectors.
type Def = (Vec<char>, Vec<Vec<char>>);

/// The value of a definition.
pub open spec fn def_view(d: (Vec<char>, Vec<Vec<char>>)) -> (Seq<char>, Seq<Seq<char>>) {
    (d.0@, texts(d.1@))
}

/// The values of some definitions.
pub open spec fn def_views(ds: Seq<(Vec<char>, Vec<Vec<char>>)>) -> Seq<(Seq<char>, Seq<Seq<char>>)> {
    ds.map_values(|d: (Vec<char>, Vec<Vec<char>>)| def_view(d))
}

/// A copy of some texts.
fn copy_texts(v: &Vec<Vec<char>>) -> (r: Vec<Vec<char>>)
    ensures
        texts(r@) == texts(v@),
{
    let mut r: Vec<Vec<char>> = Vec::new();
    let mut i: usize = 0;
    while i < v.len()
        invariant
            0 <= i <= v.len(),
            texts(r@) =~= texts(v@).take(i as int),
        decreases v.len() - i,
    {
        let c = slice(&v[i], 0, v[i].len());
        assert(c@ =~= v@[i as int]@);
        let ghost before = texts(r@);
        r.push(c);
        assert(texts(r@) =~= before.push(c@));
        i = i + 1;
    }
    assert(texts(v@).take(v.len() as int) =~= texts(v@));
    r
}

/// Whether `name` is a variable of `content`: whether `$name` occurs in it.
pub fn is_variable(key: &str, config_content: &str) -> (r: bool)
    ensures
        r == is_variable_in(key@, config_content@),
{
    let mut pattern: Vec<char> = Vec::new();
    pattern.push('$');
    let k = chars_of(key);
    let mut i: usize = 0;
    while i < k.len()
        invariant
            0 <= i <= k.len(),
            pattern@ =~= seq!['$'] + k@.take(i as int),
        decreases k.len() - i,
    {
        pattern.push(k[i]);
        i = i + 1;
    }
    assert(k@.take(k.len() as int) =~= k@);
    contains_exec(&chars_of(config_content), &pattern)
}

/// The position of the last definition of variable `name`.
fn lookup_var(vars: &Vec<Def>, name: &Vec<char>) -> (r: Option<usize>)
    ensures
        match lookup(def_views(vars@), name@) {
            Some(v) => r is Some && r->0 < vars.len() && texts(vars@[r->0 as int].1@) == v,
            None => r is None,
        },
{
    let ghost vs = def_views(vars@);
    let mut i: usize = vars.len();
    assert(vs.take(vars.len() as int) =~= vs);
    while i > 0
        invariant
            0 <= i <= vars.len(),
            vs == def_views(vars@),
            lookup(vs, name@) == lookup(vs.take(i as int), name@),
        decreases i,
    {
        assert(vs.take(i as int).drop_last() =~= vs.take(i - 1));
        assert(vs.take(i as int).last() == def_view(vars@[i - 1]));
        if eq_chars(&vars[i - 1].0, name) {
            return Some(i - 1);
        }
        i = i - 1;
    }
    None
}

/// The keys with the variables expanded (see `expand`).
fn expand_keys(keys: &Vec<Vec<char>>, vars: &Vec<Def>, fuel: usize) -> (r: Vec<Vec<char>>)
    ensures
        texts(r@) == expand(texts(keys@), def_views(vars@), fuel as nat),
    decreases fuel,
{
    let ghost ks = texts(keys@);
    let ghost vs = def_views(vars@);
    let mut r: Vec<Vec<char>> = Vec::new();
    let mut i: usize = 0;
    while i < keys.len()
        invariant
            0 <= i <= keys.len(),
            ks == texts(keys@),
            vs == def_views(vars@),
            texts(r@) == expand(ks.take(i as int), vs, fuel as nat),
        decreases keys.len() - i,
    {
        let k = &keys[i];
        let ghost front = texts(r@);
        assert(ks.take(i + 1).drop_last() =~= ks.take(i as int));
        assert(ks.take(i + 1).last() == k@);
        if k.len() > 0 && k[0] == '$' {
            let name = slice(k, 1, k.len());
            assert(name@ =~= k@.skip(1));
            match lookup_var(vars, &name) {
                Some(vi) => {
                    if fuel > 0 {
                        let mut sub = expand_keys(&vars[vi].1, vars, fuel - 1);
                        let ghost sv = texts(sub@);
                        r.append(&mut sub);
                        assert(texts(r@) =~= front + sv);
                    }
                },
                None => {},
            }
        } else {
            let c = slice(k, 0, k.len());
            assert(c@ =~= k@);
            r.push(c);
            assert(texts(r@) =~= front.push(k@));
        }
        i = i + 1;
    }
    assert(ks.take(keys.len() as int) =~= ks);
    r
}

/// The first line that starts with `name`.
fn first_line_with(ls: &Vec<Vec<char>>, name: &Vec<char>) -> (r: Option<usize>)
    ensures
        match first_line_starting(texts(ls@), name@) {
            Some(k) => r == Some(k as usize),
            None => r is None,
        },
{
    let ghost t = texts(ls@);
    let mut i: usize = 0;
    while i < ls.len()
        invariant
            0 <= i <= ls.len(),
            t == texts(ls@),
            forall|j: int| 0 <= j < i ==> !starts_with(#[trigger] t[j], name@),
        decreases ls.len() - i,
    {
        assert(t[i as int] == ls@[i as int]@);
        if starts_with_exec(&ls[i], name) {
            proof {
                assert(is_first_line_starting(t, name@, i as int));
                let k = choose|k: int| is_first_line_starting(t, name@, k);
                if k < i {
                    assert(!starts_with(t[k], name@));
                } else if k > i {
                    assert(!starts_with(t[i as int], name@));
                }
            }
            return Some(i);
        }
        i = i + 1;
    }
    None
}

/// The text of some character vectors as strings.
fn strings_of(v: &Vec<Vec<char>>) -> (r: Vec<String>)
    ensures
        r@.map_values(|k: String| k@) == texts(v@),
{
    let mut r: Vec<String> = Vec::new();
    let mut i: usize = 0;
    while i < v.len()
        invariant
            0 <= i <= v.len(),
            r@.map_values(|k: String| k@) =~= texts(v@).take(i as int),
        decreases v.len() - i,
    {
        let ghost before = r@.map_values(|k: String| k@);
        let sv = string_from(&v[i]);
        r.push(sv);
        assert(r@.map_values(|k: String| k@) =~= before.push(v@[i as int]@));
        i = i + 1;
    }
    assert(texts(v@).take(v.len() as int) =~= texts(v@));
    r
}

/// The entry of an action definition (see `entry_for`).
fn entry_of(def: &Def, vars: &Vec<Def>, fuel: usize, ls: &Vec<Vec<char>>) -> (r: ConfigEntry)
    ensures
        r@ == entry_for(def_view(*def), def_views(vars@), fuel as nat, texts(ls@)),
{
    let name = string_from(&def.0);
    match WindowManagerAction::from_str(name.as_str()) {
        Ok(action) => {
            let keys = expand_keys(&def.1, vars, fuel);
            ConfigEntry::Binding { keys: strings_of(&keys), action }
        },
        Err(ActionParseError::Rejected) => {
            let line = first_line_with(ls, &def.0);
            ConfigEntry::UnknownAction { name, line }
        },
        Err(error) => ConfigEntry::Stop { error },
    }
}

/// Reads a configuration: the entries of its action definitions, in order,
/// up to and including the first whose action cannot be read (see
/// `parsed_config`). Every non-empty line must hold a colon.
pub fn parse_content(content: &str) -> (r: Vec<ConfigEntry>)
    requires
        lines_have_colon(config_lines(content@)),
    ensures
        r@.map_values(|e: ConfigEntry| e@) == parsed_config(content@),
{
    let text = chars_of(content);
    proof {
        reveal_strlit("\r\n");
        reveal_strlit(":");
        reveal_strlit("+");
    }
    // The non-empty lines.
    let pieces = split_exec(&text, &lit("\r\n"));
    let ghost ps = texts(pieces@);
    assert(ps == split(content@, "\r\n"@));
    let mut lines: Vec<Vec<char>> = Vec::new();
    let mut i: usize = 0;
    while i < pieces.len()
        invariant
            0 <= i <= pieces.len(),
            ps == texts(pieces@),
            texts(lines@) == nonempty_lines(ps.take(i as int)),
        decreases pieces.len() - i,
    {
        assert(ps.take(i + 1).drop_last() =~= ps.take(i as int));
        assert(ps.take(i + 1).last() == pieces@[i as int]@);
        if pieces[i].len() > 0 {
            let ghost before = texts(lines@);
            let c = slice(&pieces[i], 0, pieces[i].len());
            assert(c@ =~= pieces@[i as int]@);
            lines.push(c);
            assert(texts(lines@) =~= before.push(c@));
        }
        i = i + 1;
    }
    assert(ps.take(pieces.len() as int) =~= ps);
    let ghost ls = texts(lines@);
    assert(ls == config_lines(content@));
    // The definitions.
    let mut defs: Vec<Def> = Vec::new();
    let mut j: usize = 0;
    while j < lines.len()
        invariant
            0 <= j <= lines.len(),
            ls == texts(lines@),
            lines_have_colon(ls),
            def_views(defs@) =~= definitions(ls).take(j as int),
        decreases lines.len() - j,
    {
        assert(ls[j as int] == lines@[j as int]@);
        proof {
            reveal_strlit(":");
            reveal_strlit("+");
        }
        let parts = split_exec(&lines[j], &lit(":"));
        assert(texts(parts@) == split(ls[j as int], ":"@));
        assert(texts(parts@)[1] == parts@[1]@);
        assert(texts(parts@)[0] == parts@[0]@);
        let name = trim_exec(&parts[0]);
        let raw = split_exec(&parts[1], &lit("+"));
        let mut keys: Vec<Vec<char>> = Vec::new();
        let mut t: usize = 0;
        while t < raw.len()
            invariant
                0 <= t <= raw.len(),
                texts(keys@) =~= trim_all(texts(raw@)).take(t as int),
            decreases raw.len() - t,
        {
            let ghost before = texts(keys@);
            let tk = trim_exec(&raw[t]);
            keys.push(tk);
            assert(texts(keys@) =~= before.push(trim(raw@[t as int]@)));
            t = t + 1;
        }
        assert(trim_all(texts(raw@)).take(raw.len() as int) =~= trim_all(texts(raw@)));
        assert(def_view((name, keys)) == definition(ls[j as int]));
        let ghost before = def_views(defs@);
        let ghost nd = def_view((name, keys));
        defs.push((name, keys));
        assert(def_views(defs@) =~= before.push(nd));
        j = j + 1;
    }
    let ghost dv = def_views(defs@);
    assert(dv =~= definitions(ls));
    // Variables and action definitions.
    let mut vars: Vec<Def> = Vec::new();
    let mut maps: Vec<Def> = Vec::new();
    let mut k: usize = 0;
    while k < defs.len()
        invariant
            0 <= k <= defs.len(),
            dv == def_views(defs@),
            def_views(vars@) == variables(dv.take(k as int), content@),
            def_views(maps@) == mappings(dv.take(k as int), content@),
        decreases defs.len() - k,
    {
        assert(dv.take(k + 1).drop_last() =~= dv.take(k as int));
        assert(dv.take(k + 1).last() == def_view(defs@[k as int]));
        let name = string_from(&defs[k].0);
        let copy: Def = (slice(&defs[k].0, 0, defs[k].0.len()), copy_texts(&defs[k].1));
        assert(copy.0@ =~= defs@[k as int].0@);
        assert(def_view(copy) == def_view(defs@[k as int]));
        if is_variable(name.as_str(), content) {
            let ghost before = def_views(vars@);
            vars.push(copy);
            assert(def_views(vars@) =~= before.push(def_view(copy)));
        } else {
            let ghost before = def_views(maps@);
            maps.push(copy);
            assert(def_views(maps@) =~= before.push(def_view(copy)));
        }
        k = k + 1;
    }
    assert(dv.take(defs.len() as int) =~= dv);
    // The entries, up to the first that stops reading.
    let ghost ms = def_views(maps@);
    let ghost vs = def_views(vars@);
    let fuel = defs.len();
    assert(config_entries(ms, vs, fuel as nat, ls) == parsed_config(content@));
    let mut r: Vec<ConfigEntry> = Vec::new();
    let mut m: usize = 0;
    assert(ms.skip(0) =~= ms);
    assert(r@.map_values(|e: ConfigEntry| e@) + config_entries(ms, vs, fuel as nat, ls) =~= config_entries(ms, vs, fuel as nat, ls));
    while m < maps.len()
        invariant
            0 <= m <= maps.len(),
            ms == def_views(maps@),
            vs == def_views(vars@),
            ls == texts(lines@),
            r@.map_values(|e: ConfigEntry| e@) + config_entries(ms.skip(m as int), vs, fuel as nat, ls)
                == config_entries(ms, vs, fuel as nat, ls),
            config_entries(ms, vs, fuel as nat, ls) == parsed_config(content@),
        decreases maps.len() - m,
    {
        let ghost before = r@.map_values(|e: ConfigEntry| e@);
        let ghost rest = ms.skip(m as int);
        assert(rest[0] == def_view(maps@[m as int]));
        assert(rest.drop_first() =~= ms.skip(m + 1));
        let e = entry_of(&maps[m], &vars, fuel, &lines);
        let stop = match e {
            ConfigEntry::Stop { .. } => true,
            _ => false,
        };
        let ghost ev = e@;
        r.push(e);
        assert(r@.map_values(|e: ConfigEntry| e@) =~= before.push(ev));
        if stop {
            assert(config_entries(rest, vs, fuel as nat, ls) =~= seq![ev]);
            assert(r@.map_values(|e: ConfigEntry| e@) =~= before + seq![ev]);
            return r;
        }
        assert(config_entries(rest, vs, fuel as nat, ls) =~= seq![ev] + config_entries(ms.skip(m + 1), vs, fuel as nat, ls));
        assert(before.push(ev) + config_entries(ms.skip(m + 1), vs, fuel as nat, ls) =~= before + (seq![ev] + config_entries(ms.skip(m + 1), vs, fuel as nat, ls)));
        m = m + 1;
    }
    assert(config_entries(ms.skip(maps.len() as int), vs, fuel as nat, ls) =~= Seq::<ConfigEntryView>::empty());
    assert(r@.map_values(|e: ConfigEntry| e@) =~= config_entries(ms, vs, fuel as nat, ls));
    r
}

/// The keys with each reference `$name` replaced by the keys `value`.
pub open spec fn substituted(keys: Seq<Seq<char>>, name: Seq<char>, value: Seq<Seq<char>>) -> Seq<Seq<char>>
    decreases keys.len(),
{
    if keys.len() == 0 {
        Seq::empty()
    } else {
        substituted(keys.drop_last(), name, value) + if keys.last() == seq!['$'] + name {
            value
        } else {
            seq![keys.last()]
        }
    }
}

/// No key is a variable reference.
pub open spec fn no_references(keys: Seq<Seq<char>>) -> bool {
    forall|i: int| 0 <= i < keys.len() ==> !((#[trigger] keys[i]).len() > 0 && keys[i][0] == '$')
}

/// Keys without references expand to themselves.
pub proof fn lemma_expand_plain(keys: Seq<Seq<char>>, vars: Seq<(Seq<char>, Seq<Seq<char>>)>, fuel: nat)
    requires
        no_references(keys),
    ensures
        expand(keys, vars, fuel) == keys,
    decreases keys.len(),
{
    if keys.len() > 0 {
        assert(no_references(keys.drop_last())) by {
            assert forall|i: int| 0 <= i < keys.drop_last().len() implies !((#[trigger] keys.drop_last()[i]).len()
                > 0 && keys.drop_last()[i][0] == '$') by {
                assert(keys.drop_last()[i] == keys[i]);
            }
        }
        lemma_expand_plain(keys.drop_last(), vars, fuel);
        assert(keys[keys.len() - 1] == keys.last());
        assert(keys.drop_last().push(keys.last()) =~= keys);
    }
}

/// Writing a variable's keys in place of its references gives the same
/// keys as the reference: when every reference in `keys` is to `name`,
/// whose keys `value` hold no references, expanding `keys` gives `keys`
/// with each `$name` replaced by `value`.
pub proof fn lemma_expand_substitutes(
    keys: Seq<Seq<char>>,
    vars: Seq<(Seq<char>, Seq<Seq<char>>)>,
    fuel: nat,
    name: Seq<char>,
    value: Seq<Seq<char>>,
)
    requires
        fuel > 0,
        lookup(vars, name) == Some(value),
        no_references(value),
        refers_only_to(keys, name),
    ensures
        expand(keys, vars, fuel) == substituted(keys, name, value),
    decreases keys.len(),
{
    if keys.len() > 0 {
        let k = keys.last();
        assert forall|i: int|
            0 <= i < keys.drop_last().len() && (#[trigger] keys.drop_last()[i]).len() > 0
                && keys.drop_last()[i][0] == '$' implies keys.drop_last()[i] == seq!['$'] + name by {
            assert(keys.drop_last()[i] == keys[i]);
        }
        lemma_expand_substitutes(keys.drop_last(), vars, fuel, name, value);
        assert(keys[keys.len() - 1] == k);
        if k.len() > 0 && k[0] == '$' {
            assert(k == seq!['$'] + name);
            assert(k.skip(1) =~= name);
            lemma_expand_plain(value, vars, (fuel - 1) as nat);
        } else {
            assert(k != seq!['$'] + name) by {
                if k == seq!['$'] + name {
                    assert(k[0] == '$');
                }
            }
            assert(expand(keys.drop_last(), vars, fuel).push(k) =~= expand(keys.drop_last(), vars, fuel) + seq![k]);
        }
    }
}

/// Every reference among the keys is to variable `name`.
pub open spec fn refers_only_to(keys: Seq<Seq<char>>, name: Seq<char>) -> bool {
    forall|i: int|
        0 <= i < keys.len() && (#[trigger] keys[i]).len() > 0 && keys[i][0] == '$' ==> keys[i] == seq!['$'] + name
}

/// Definitions with each `$name` among their keys replaced by the keys `value`.
pub open spec fn substituted_defs(
    ms: Seq<(Seq<char>, Seq<Seq<char>>)>,
    name: Seq<char>,
    value: Seq<Seq<char>>,
) -> Seq<(Seq<char>, Seq<Seq<char>>)> {
    ms.map_values(|d: (Seq<char>, Seq<Seq<char>>)| (d.0, substituted(d.1, name, value)))
}

/// Replacing the references to `name` by keys without references leaves no
/// reference, when `name` is the only variable referred to.
proof fn lemma_substituted_plain(keys: Seq<Seq<char>>, name: Seq<char>, value: Seq<Seq<char>>)
    requires
        no_references(value),
        refers_only_to(keys, name),
    ensures
        no_references(substituted(keys, name, value)),
    decreases keys.len(),
{
    if keys.len() > 0 {
        let d = keys.drop_last();
        assert(refers_only_to(d, name)) by {
            assert forall|i: int| 0 <= i < d.len() && (#[trigger] d[i]).len() > 0 && d[i][0] == '$' implies d[i]
                == seq!['$'] + name by {
                assert(d[i] == keys[i]);
            }
        }
        lemma_substituted_plain(d, name, value);
        let front = substituted(d, name, value);
        let k = keys.last();
        assert(keys[keys.len() - 1] == k);
        let tail = if k == seq!['$'] + name { value } else { seq![k] };
        assert forall|i: int| 0 <= i < (front + tail).len() implies !((#[trigger] (front + tail)[i]).len() > 0
            && (front + tail)[i][0] == '$') by {
            if i < front.len() {
                assert((front + tail)[i] == front[i]);
            } else {
                assert((front + tail)[i] == tail[i - front.len()]);
            }
        }
    }
}

/// A configuration reads the same with a variable as with the variable's
/// keys written in place of each reference to it: when every reference in
/// the action definitions `ms` is to `name`, whose keys `value` hold no
/// references, and every action name can be read (an unknown action reports
/// the line it stands on, which moves when the definition of `name` goes),
/// the entries of `ms` are those of the definitions with `$name` replaced by
/// `value`, whatever the variables, the depth and the lines of the latter.
pub proof fn lemma_substitution_reads_alike(
    ms: Seq<(Seq<char>, Seq<Seq<char>>)>,
    vars: Seq<(Seq<char>, Seq<Seq<char>>)>,
    fuel: nat,
    ls: Seq<Seq<char>>,
    name: Seq<char>,
    value: Seq<Seq<char>>,
    vars2: Seq<(Seq<char>, Seq<Seq<char>>)>,
    fuel2: nat,
    ls2: Seq<Seq<char>>,
)
    requires
        fuel > 0,
        lookup(vars, name) == Some(value),
        no_references(value),
        forall|i: int| 0 <= i < ms.len() ==> refers_only_to((#[trigger] ms[i]).1, name),
        forall|i: int| 0 <= i < ms.len() ==> window_manager_action_parse((#[trigger] ms[i]).0) != Err::<
            WindowManagerAction,
            ActionParseError,
        >(ActionParseError::Rejected),
    ensures
        config_entries(ms, vars, fuel, ls) == config_entries(substituted_defs(ms, name, value), vars2, fuel2, ls2),
    decreases ms.len(),
{
    let ms2 = substituted_defs(ms, name, value);
    if ms.len() > 0 {
        let d = ms[0];
        let d2 = ms2[0];
        assert(d2 == (d.0, substituted(d.1, name, value)));
        lemma_expand_substitutes(d.1, vars, fuel, name, value);
        lemma_substituted_plain(d.1, name, value);
        lemma_expand_plain(substituted(d.1, name, value), vars2, fuel2);
        assert(entry_for(d, vars, fuel, ls) == entry_for(d2, vars2, fuel2, ls2));
        let rest = ms.drop_first();
        assert(substituted_defs(rest, name, value) =~= ms2.drop_first());
        assert forall|i: int| 0 <= i < rest.len() implies refers_only_to((#[trigger] rest[i]).1, name) by {
            assert(rest[i] == ms[i + 1]);
        }
        assert forall|i: int| 0 <= i < rest.len() implies window_manager_action_parse((#[trigger] rest[i]).0)
            != Err::<WindowManagerAction, ActionParseError>(ActionParseError::Rejected) by {
            assert(rest[i] == ms[i + 1]);
        }
        lemma_substitution_reads_alike(rest, vars, fuel, ls, name, value, vars2, fuel2, ls2);
    }
}

/// Two configurations read alike when the action definitions of the second
/// are those of the first with the references to its variable `name`, whose
/// keys hold no references, written out: every reference in the first is to
/// `name`, and every action name in it can be read.
pub proof fn lemma_written_out_config_reads_alike(c1: Seq<char>, c2: Seq<char>, name: Seq<char>, value: Seq<Seq<char>>)
    requires
        lookup(variables(definitions(config_lines(c1)), c1), name) == Some(value),
        no_references(value),
        forall|i: int|
            0 <= i < mappings(definitions(config_lines(c1)), c1).len() ==> refers_only_to(
                (#[trigger] mappings(definitions(config_lines(c1)), c1)[i]).1,
                name,
            ),
        forall|i: int|
            0 <= i < mappings(definitions(config_lines(c1)), c1).len() ==> window_manager_action_parse(
                (#[trigger] mappings(definitions(config_lines(c1)), c1)[i]).0,
            ) != Err::<WindowManagerAction, ActionParseError>(ActionParseError::Rejected),
        mappings(definitions(config_lines(c2)), c2) == substituted_defs(
            mappings(definitions(config_lines(c1)), c1),
            name,
            value,
        ),
    ensures
        parsed_config(c1) == parsed_config(c2),
{
    let ls1 = config_lines(c1);
    let defs1 = definitions(ls1);
    let ls2 = config_lines(c2);
    let defs2 = definitions(ls2);
    if defs1.len() == 0 {
        assert(variables(defs1, c1) =~= Seq::<(Seq<char>, Seq<Seq<char>>)>::empty());
    }
    lemma_substitution_reads_alike(
        mappings(defs1, c1),
        variables(defs1, c1),
        defs1.len(),
        ls1,
        name,
        value,
        variables(defs2, c2),
        defs2.len(),
        ls2,
    );
}

/// What a new configuration holds: nothing (it gives no key bindings).
pub open spec fn default_config_content() -> Seq<char> {
    Seq::empty()
}

/// The default configuration gives no entries, hence no key bindings.
pub proof fn lemma_default_config_is_blank()
    ensures
        parsed_config(default_config_content()).len() == 0,
{
    let c = default_config_content();
    reveal_strlit("\r\n");
    assert(first_occurrence_from(c, "\r\n"@, 0) is None);
    assert(split(c, "\r\n"@) == seq![c]);
    let ls = seq![c];
    assert(ls.drop_last() =~= Seq::<Seq<char>>::empty());
    assert(nonempty_lines(ls.drop_last()) =~= Seq::<Seq<char>>::empty());
    assert(config_lines(c) =~= Seq::<Seq<char>>::empty());
    let defs = definitions(config_lines(c));
    assert(defs.len() == 0);
    assert(mappings(defs, c).len() == 0);
}

/// The configuration to write, if any: the default one when there is none yet.
pub fn ensure_exists(config_exists: bool) -> (r: Option<String>)
    ensures
        config_exists ==> r is None,
        !config_exists ==> r is Some && r->0@ == default_config_content(),
{
    if config_exists {
        None
    } else {
        Some(String::new())
    }
}

} // verus!
