use vstd::prelude::*;

use crate::deser::json_doc;
use crate::deser::parse_json;
use crate::deser::parse_toml;
use crate::deser::toml_doc;
use crate::laws::lemma_spec_build_wf;
use crate::model::dict_lookup;
use crate::model::dict_wf;
use crate::model::map_key;
use crate::model::name_key;
use crate::model::spec_build;
use crate::model::table_find;
use crate::model::tree_lookup;
use crate::model::DictView;
use crate::model::NodeView;
use crate::model::lemma_split_on_nonempty;
use crate::model::split_on;
use crate::split::seg_views;
use crate::split::split_key;
use crate::split::str_eq;
use crate::raw::convert_table;
use crate::raw::raw_table_get;
use crate::raw::RawNode;
use crate::LoadError;
use vstd::string::StringExecFns;

verus! {

broadcast use vstd::std_specs::vec::axiom_vec_index_decreases, vstd::std_specs::vec::axiom_vec_decreases_to_view;

/// One value of a dictionary tree: a translation leaf, or a sub-table of
/// further entries keyed by path segment.
pub enum DictValue {
    Leaf(String),
    SubTable(Vec<(String, DictValue)>),
}

/// The tree a value stands for.
pub open spec fn node_view(v: DictValue) -> NodeView
    decreases v,
{
    match v {
        DictValue::Leaf(s) => NodeView::Leaf(s@),
        DictValue::SubTable(m) => NodeView::Sub(entries_view(m@)),
    }
}

/// The table a list of entries stands for.
pub open spec fn entries_view(m: Seq<(String, DictValue)>) -> Seq<(Seq<char>, NodeView)>
    decreases m,
{
    if m.len() == 0 {
        Seq::empty()
    } else {
        seq![(m[0].0@, node_view(m[0].1))] + entries_view(m.drop_first())
    }
}

impl View for DictValue {
    type V = NodeView;

    open spec fn view(&self) -> NodeView {
        node_view(*self)
    }
}

pub proof fn lemma_entries_view_index(m: Seq<(String, DictValue)>)
    ensures
        entries_view(m).len() == m.len(),
        forall|i: int|
            0 <= i < m.len() ==> entries_view(m)[i] == (m[i].0@, node_view(m[i].1)),
    decreases m.len(),
{
    if m.len() > 0 {
        lemma_entries_view_index(m.drop_first());
    }
}

/// One language's translation table: a named tree of string leaves, looked
/// up by keys that the delimiter splits into path segments.
pub struct Dictionary {
    pub name: String,
    pub delimiter: String,
    pub map: Vec<(String, DictValue)>,
}

impl View for Dictionary {
    type V = DictView;

    open spec fn view(&self) -> DictView {
        DictView { name: self.name@, delimiter: self.delimiter@, map: entries_view(self.map@) }
    }
}

/// The dictionaries a list of them stands for.
pub open spec fn dict_views(ds: Seq<Dictionary>) -> Seq<DictView> {
    ds.map_values(|d: Dictionary| d@)
}

/// A reference to the value of the first entry of `m` whose key reads as
/// `k`, if any.
fn table_get<'a>(m: &'a Vec<(String, DictValue)>, k: &str) -> (r: Option<&'a DictValue>)
    ensures
        match r {
            Some(v) => table_find(entries_view(m@), k@) == Some(node_view(*v)),
            None => table_find(entries_view(m@), k@) is None,
        },
{
    proof {
        lemma_entries_view_index(m@);
    }
    let ghost ev = entries_view(m@);
    proof {
        assert(ev.skip(0) =~= ev);
    }
    let mut j: usize = 0;
    while j < m.len()
        invariant
            ev == entries_view(m@),
            ev.len() == m@.len(),
            forall|l: int| 0 <= l < m@.len() ==> ev[l] == (m@[l].0@, node_view(m@[l].1)),
            j <= m@.len(),
            table_find(ev, k@) == table_find(ev.skip(j as int), k@),
        decreases m@.len() - j,
    {
        proof {
            assert(ev.skip(j as int)[0] == ev[j as int]);
        }
        if str_eq(m[j].0.as_str(), k) {
            return Some(&m[j].1);
        }
        proof {
            assert(ev.skip(j as int).drop_first() =~= ev.skip(j as int + 1));
        }
        j += 1;
    }
    proof {
        assert(ev.skip(m@.len() as int).len() == 0);
    }
    None
}

impl Dictionary {
    /// Looks a key up: the key is split on this dictionary's delimiter and
    /// the tree is walked segment by segment; only a leaf reached exactly
    /// at the last segment answers.
    pub fn translate<'a>(&'a self, key: &str) -> (r: Option<&'a String>)
        ensures
            match r {
                Some(s) => dict_lookup(self@, key@) == Some(s@),
                None => dict_lookup(self@, key@) is None,
            },
    {
        let segs: Vec<String> = split_key(key, self.delimiter.as_str());
        let ghost vs = seg_views(segs@);
        proof {
            lemma_split_on_nonempty(key@, self.delimiter@);
            assert(vs.skip(0) =~= vs);
        }
        let mut m: &Vec<(String, DictValue)> = &self.map;
        let mut i: usize = 0;
        while i < segs.len()
            invariant
                vs == split_on(key@, self@.delimiter),
                vs.len() == segs@.len(),
                forall|l: int| 0 <= l < segs@.len() ==> vs[l] == segs@[l]@,
                i < segs@.len(),
                tree_lookup(entries_view(m@), vs.skip(i as int)) == dict_lookup(self@, key@),
            decreases segs@.len() - i,
        {
            let ghost tail = vs.skip(i as int);
            proof {
                assert(tail[0] == vs[i as int]);
            }
            match table_get(m, segs[i].as_str()) {
                None => {
                    return None;
                },
                Some(v) => match v {
                    DictValue::Leaf(s) => {
                        if i + 1 == segs.len() {
                            return Some(s);
                        } else {
                            return None;
                        }
                    },
                    DictValue::SubTable(sub) => {
                        if i + 1 == segs.len() {
                            return None;
                        }
                        proof {
                            assert(tail.drop_first() =~= vs.skip(i as int + 1));
                        }
                        m = sub;
                        i += 1;
                    },
                },
            }
        }
        None
    }
}

impl Dictionary {
    /// Builds a dictionary from a parsed document. The root must be a
    /// table whose `name` field is a string and whose `map` field is a
    /// table; every other shape is a parse error. Within the map, string
    /// values become leaves, tables become sub-tables, and entries of any
    /// other kind are dropped without an error.
    pub fn build(doc: &RawNode, delimiter: &str) -> (r: Result<Dictionary, LoadError>)
        ensures
            match r {
                Ok(d) => spec_build(doc@, delimiter@) == Some(d@),
                Err(e) => spec_build(doc@, delimiter@) is None && e == LoadError::Parse,
            },
    {
        proof {
            reveal_strlit("name");
            reveal_strlit("map");
            assert("name"@ =~= name_key());
            assert("map"@ =~= map_key());
        }
        match doc {
            RawNode::Table(top) => {
                let name_node = raw_table_get(top, "name");
                let map_node = raw_table_get(top, "map");
                match (name_node, map_node) {
                    (Some(RawNode::Str(nm)), Some(RawNode::Table(mp))) => Ok(
                        Dictionary {
                            name: nm.clone(),
                            delimiter: String::from_str(delimiter),
                            map: convert_table(mp),
                        },
                    ),
                    _ => Err(LoadError::Parse),
                }
            },
            _ => Err(LoadError::Parse),
        }
    }
}

/// What loading JSON text yields: the parse, then the build.
pub open spec fn spec_from_json(s: Seq<char>, delimiter: Seq<char>) -> Option<DictView> {
    match json_doc(s) {
        None => None,
        Some(doc) => spec_build(doc, delimiter),
    }
}

/// What loading TOML text yields: the parse, then the build.
pub open spec fn spec_from_toml(s: Seq<char>, delimiter: Seq<char>) -> Option<DictView> {
    match toml_doc(s) {
        None => None,
        Some(doc) => spec_build(doc, delimiter),
    }
}

impl Dictionary {
    /// Parses JSON text and builds a dictionary from it; text that does
    /// not parse, and a document of the wrong shape, are parse errors.
    pub fn with_json_str(json: &str, delimiter: &str) -> (r: Result<Dictionary, LoadError>)
        ensures
            match r {
                Ok(d) => spec_from_json(json@, delimiter@) == Some(d@) && dict_wf(d@),
                Err(e) => spec_from_json(json@, delimiter@) is None && e == LoadError::Parse,
            },
    {
        match parse_json(json) {
            Err(_) => Err(LoadError::Parse),
            Ok(doc) => match Dictionary::build(&doc, delimiter) {
                Ok(d) => {
                    proof {
                        lemma_spec_build_wf(doc@, delimiter@, d@);
                    }
                    Ok(d)
                },
                Err(e) => Err(e),
            },
        }
    }

    /// Parses TOML text and builds a dictionary from it; text that does
    /// not parse, and a document of the wrong shape, are parse errors.
    pub fn with_toml_str(toml_text: &str, delimiter: &str) -> (r: Result<Dictionary, LoadError>)
        ensures
            match r {
                Ok(d) => spec_from_toml(toml_text@, delimiter@) == Some(d@) && dict_wf(d@),
                Err(e) => spec_from_toml(toml_text@, delimiter@) is None && e
                    == LoadError::Parse,
            },
    {
        match parse_toml(toml_text) {
            Err(_) => Err(LoadError::Parse),
            Ok(doc) => match Dictionary::build(&doc, delimiter) {
                Ok(d) => {
                    proof {
                        lemma_spec_build_wf(doc@, delimiter@, d@);
                    }
                    Ok(d)
                },
                Err(e) => Err(e),
            },
        }
    }
}

} // verus!
