use vstd::prelude::*;

verus! {

// The mathematical model of the library: ghost trees for parsed source
// documents and for dictionaries, lookup over them, key splitting, and
// the conversion that builds a dictionary tree from a source tree.

/// A node of a parsed source document: a string, a table of named child
/// nodes, or a value of any other kind (number, boolean, datetime, array,
/// null), which a dictionary never keeps.
pub enum RawView {
    Str(Seq<char>),
    Table(Seq<(Seq<char>, RawView)>),
    Other,
}

/// A node of a dictionary tree: a translation leaf or a sub-table.
pub enum NodeView {
    Leaf(Seq<char>),
    Sub(Seq<(Seq<char>, NodeView)>),
}

/// The mathematical content of a dictionary.
pub struct DictView {
    pub name: Seq<char>,
    pub delimiter: Seq<char>,
    pub map: Seq<(Seq<char>, NodeView)>,
}

// --- well-formedness ---

/// No two entries of one table carry the same key.
pub open spec fn keys_unique<T>(m: Seq<(Seq<char>, T)>) -> bool {
    forall|i: int, j: int| 0 <= i < j < m.len() ==> m[i].0 != m[j].0
}

/// Keys are unique in this table and, recursively, in every sub-table.
pub open spec fn table_wf(m: Seq<(Seq<char>, NodeView)>) -> bool
    decreases m,
{
    keys_unique(m) && forall|i: int| 0 <= i < m.len() ==> node_wf(#[trigger] m[i].1)
}

pub open spec fn node_wf(n: NodeView) -> bool
    decreases n,
{
    match n {
        NodeView::Leaf(_) => true,
        NodeView::Sub(m) => table_wf(m),
    }
}

/// Keys are unique at every level of a source tree.
pub open spec fn raw_table_wf(m: Seq<(Seq<char>, RawView)>) -> bool
    decreases m,
{
    keys_unique(m) && forall|i: int| 0 <= i < m.len() ==> raw_node_wf(#[trigger] m[i].1)
}

pub open spec fn raw_node_wf(n: RawView) -> bool
    decreases n,
{
    match n {
        RawView::Table(m) => raw_table_wf(m),
        _ => true,
    }
}

pub open spec fn dict_wf(d: DictView) -> bool {
    table_wf(d.map)
}

// --- lookup ---

/// The value of the first entry of `m` whose key is `k`, if any.
pub open spec fn table_find(m: Seq<(Seq<char>, NodeView)>, k: Seq<char>) -> Option<NodeView>
    decreases m.len(),
{
    if m.len() == 0 {
        None
    } else if m[0].0 == k {
        Some(m[0].1)
    } else {
        table_find(m.drop_first(), k)
    }
}

/// Walk the tree along `segs`: a leaf answers only at the last segment; a
/// sub-table answers never, and is descended into while segments remain.
pub open spec fn tree_lookup(m: Seq<(Seq<char>, NodeView)>, segs: Seq<Seq<char>>) -> Option<
    Seq<char>,
>
    decreases segs.len(),
{
    if segs.len() == 0 {
        None
    } else {
        match table_find(m, segs[0]) {
            None => None,
            Some(NodeView::Leaf(s)) => if segs.len() == 1 {
                Some(s)
            } else {
                None
            },
            Some(NodeView::Sub(sub)) => if segs.len() == 1 {
                None
            } else {
                tree_lookup(sub, segs.drop_first())
            },
        }
    }
}

/// The raw counterpart of `table_find`.
pub open spec fn raw_find(m: Seq<(Seq<char>, RawView)>, k: Seq<char>) -> Option<RawView>
    decreases m.len(),
{
    if m.len() == 0 {
        None
    } else if m[0].0 == k {
        Some(m[0].1)
    } else {
        raw_find(m.drop_first(), k)
    }
}

/// The raw counterpart of `tree_lookup`: only a string leaf at the last
/// segment answers; any other value kind never does.
pub open spec fn raw_lookup(m: Seq<(Seq<char>, RawView)>, segs: Seq<Seq<char>>) -> Option<
    Seq<char>,
>
    decreases segs.len(),
{
    if segs.len() == 0 {
        None
    } else {
        match raw_find(m, segs[0]) {
            None => None,
            Some(RawView::Str(s)) => if segs.len() == 1 {
                Some(s)
            } else {
                None
            },
            Some(RawView::Table(sub)) => if segs.len() == 1 {
                None
            } else {
                raw_lookup(sub, segs.drop_first())
            },
            Some(RawView::Other) => None,
        }
    }
}

// --- conversion from a source tree to a dictionary tree ---

/// String nodes become leaves, tables become sub-tables, and every other
/// value kind is dropped.
pub open spec fn convert_node(r: RawView) -> Option<NodeView>
    decreases r,
{
    match r {
        RawView::Str(s) => Some(NodeView::Leaf(s)),
        RawView::Table(m) => Some(NodeView::Sub(convert_entries(m))),
        RawView::Other => None,
    }
}

/// Converts the entries of one table in order, dropping those whose value
/// is neither a string nor a table.
pub open spec fn convert_entries(m: Seq<(Seq<char>, RawView)>) -> Seq<(Seq<char>, NodeView)>
    decreases m,
{
    if m.len() == 0 {
        Seq::empty()
    } else {
        let rest = convert_entries(m.drop_first());
        match convert_node(m[0].1) {
            Some(n) => seq![(m[0].0, n)] + rest,
            None => rest,
        }
    }
}

// --- key splitting ---

/// The delimiter occurs in `s` at position `i`.
pub open spec fn match_at(s: Seq<char>, d: Seq<char>, i: int) -> bool {
    0 <= i && i + d.len() <= s.len() && s.subrange(i, i + d.len() as int) == d
}

/// The first position at or after `from` where the delimiter occurs.
pub open spec fn first_match_from(s: Seq<char>, d: Seq<char>, from: int) -> Option<int>
    recommends
        0 <= from,
    decreases s.len() - from,
{
    if d.len() == 0 || from + d.len() > s.len() {
        None
    } else if match_at(s, d, from) {
        Some(from)
    } else {
        first_match_from(s, d, from + 1)
    }
}

/// The segments of `s` from position `start` on: everything up to the next
/// occurrence of the delimiter, then the rest, recursively.
pub open spec fn split_from(s: Seq<char>, d: Seq<char>, start: int) -> Seq<Seq<char>>
    recommends
        d.len() >= 1,
        0 <= start <= s.len(),
    decreases s.len() - start,
{
    match first_match_from(s, d, start) {
        None => seq![s.subrange(start, s.len() as int)],
        Some(i) => if start <= i && i + d.len() <= s.len() && d.len() >= 1 {
            seq![s.subrange(start, i)] + split_from(s, d, i + d.len())
        } else {
            // unreachable: a match lies between start and the end
            seq![s.subrange(start, s.len() as int)]
        },
    }
}

/// A key splits into the pieces between occurrences of the delimiter; an
/// empty delimiter leaves the key whole, as does one that never occurs.
pub open spec fn split_on(s: Seq<char>, d: Seq<char>) -> Seq<Seq<char>> {
    if d.len() == 0 {
        seq![s]
    } else {
        split_from(s, d, 0)
    }
}

pub proof fn lemma_split_from_nonempty(s: Seq<char>, d: Seq<char>, start: int)
    ensures
        split_from(s, d, start).len() >= 1,
{
    match first_match_from(s, d, start) {
        None => {},
        Some(i) => {},
    }
}

/// A key always splits into at least one segment.
pub proof fn lemma_split_on_nonempty(s: Seq<char>, d: Seq<char>)
    ensures
        split_on(s, d).len() >= 1,
{
    if d.len() != 0 {
        lemma_split_from_nonempty(s, d, 0);
    }
}

/// The segments joined back with the delimiter between them.
pub open spec fn join_with(segs: Seq<Seq<char>>, d: Seq<char>) -> Seq<char>
    decreases segs.len(),
{
    if segs.len() == 0 {
        Seq::empty()
    } else if segs.len() == 1 {
        segs[0]
    } else {
        segs[0] + d + join_with(segs.drop_first(), d)
    }
}

// --- format sniffing on a source's path ---

/// The largest index at or below `from` holding the character `c`.
pub open spec fn last_pos_from(s: Seq<char>, c: char, from: int) -> Option<int>
    recommends
        from < s.len(),
    decreases from + 1,
{
    if from < 0 {
        None
    } else if 0 <= from < s.len() && s[from] == c {
        Some(from)
    } else {
        last_pos_from(s, c, from - 1)
    }
}

/// The largest index of `s` holding the character `c`.
pub open spec fn last_pos(s: Seq<char>, c: char) -> Option<int> {
    last_pos_from(s, c, s.len() - 1)
}

pub proof fn lemma_last_pos_bounds(s: Seq<char>, c: char, from: int, i: int)
    requires
        last_pos_from(s, c, from) == Some(i),
    ensures
        0 <= i <= from,
        i < s.len(),
        s[i] == c,
    decreases from + 1,
{
    if from >= 0 && !(0 <= from < s.len() && s[from] == c) {
        lemma_last_pos_bounds(s, c, from - 1, i);
    }
}

/// The extension of a path: what follows the last `.` of the last
/// `/`-separated component, unless that dot is the component's first
/// character.
pub open spec fn path_ext(path: Seq<char>) -> Option<Seq<char>> {
    let comp_start: int = match last_pos(path, '/') {
        None => 0,
        Some(i) => i + 1,
    };
    let comp = path.subrange(comp_start, path.len() as int);
    match last_pos(comp, '.') {
        None => None,
        Some(j) => if j == 0 {
            None
        } else {
            Some(comp.subrange(j + 1, comp.len() as int))
        },
    }
}

pub open spec fn toml_ext() -> Seq<char> {
    seq!['t', 'o', 'm', 'l']
}

/// A source whose path carries the `toml` extension is read as TOML;
/// every other source is read as JSON.
pub open spec fn wants_toml(path: Seq<char>) -> bool {
    path_ext(path) == Some(toml_ext())
}

// --- the contracts' top-level functions ---

/// What one dictionary answers for a key.
pub open spec fn dict_lookup(d: DictView, key: Seq<char>) -> Option<Seq<char>> {
    tree_lookup(d.map, split_on(key, d.delimiter))
}

/// What a cascade answers: the first dictionary in order that answers at
/// all decides.
pub open spec fn cascade_lookup(ds: Seq<DictView>, key: Seq<char>) -> Option<Seq<char>>
    decreases ds.len(),
{
    if ds.len() == 0 {
        None
    } else {
        match dict_lookup(ds[0], key) {
            Some(s) => Some(s),
            None => cascade_lookup(ds.drop_first(), key),
        }
    }
}

/// The field under which a document names its language.
pub open spec fn name_key() -> Seq<char> {
    seq!['n', 'a', 'm', 'e']
}

/// The field under which a document holds its translation table.
pub open spec fn map_key() -> Seq<char> {
    seq!['m', 'a', 'p']
}

/// A document builds into a dictionary exactly when its root is a table
/// whose `name` field is a string and whose `map` field is a table.
pub open spec fn spec_build(doc: RawView, delimiter: Seq<char>) -> Option<DictView> {
    match doc {
        RawView::Table(top) => match (raw_find(top, name_key()), raw_find(top, map_key())) {
            (Some(RawView::Str(nm)), Some(RawView::Table(mp))) => Some(
                DictView { name: nm, delimiter: delimiter, map: convert_entries(mp) },
            ),
            _ => None,
        },
        _ => None,
    }
}

} // verus!
