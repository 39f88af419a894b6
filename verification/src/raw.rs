use vstd::prelude::*;

use crate::dict::entries_view;
use crate::dict::node_view;
use crate::dict::lemma_entries_view_index;
use crate::dict::DictValue;
use crate::model::convert_entries;
use crate::model::convert_node;
use crate::model::raw_find;
use crate::model::RawView;

verus! {

broadcast use vstd::std_specs::vec::axiom_vec_index_decreases, vstd::std_specs::vec::axiom_vec_decreases_to_view;

/// A node of a parsed source document, as the deserializers hand it over:
/// a string, a table of named child nodes, or a value of any other kind
/// (number, boolean, datetime, array, null).
pub enum RawNode {
    Str(String),
    Table(Vec<(String, RawNode)>),
    Other,
}

/// The tree a node stands for.
pub open spec fn raw_node_view(n: RawNode) -> RawView
    decreases n,
{
    match n {
        RawNode::Str(s) => RawView::Str(s@),
        RawNode::Table(m) => RawView::Table(raw_entries_view(m@)),
        RawNode::Other => RawView::Other,
    }
}

/// The table a list of entries stands for.
pub open spec fn raw_entries_view(m: Seq<(String, RawNode)>) -> Seq<(Seq<char>, RawView)>
    decreases m,
{
    if m.len() == 0 {
        Seq::empty()
    } else {
        seq![(m[0].0@, raw_node_view(m[0].1))] + raw_entries_view(m.drop_first())
    }
}

impl View for RawNode {
    type V = RawView;

    open spec fn view(&self) -> RawView {
        raw_node_view(*self)
    }
}

pub proof fn lemma_raw_entries_view_index(m: Seq<(String, RawNode)>)
    ensures
        raw_entries_view(m).len() == m.len(),
        forall|i: int|
            0 <= i < m.len() ==> raw_entries_view(m)[i] == (m[i].0@, raw_node_view(m[i].1)),
    decreases m.len(),
{
    if m.len() > 0 {
        lemma_raw_entries_view_index(m.drop_first());
    }
}

/// A reference to the value of the first entry of `m` whose key reads as
/// `k`, if any.
pub(crate) fn raw_table_get<'a>(m: &'a Vec<(String, RawNode)>, k: &str) -> (r: Option<
    &'a RawNode,
>)
    ensures
        match r {
            Some(v) => raw_find(raw_entries_view(m@), k@) == Some(raw_node_view(*v)),
            None => raw_find(raw_entries_view(m@), k@) is None,
        },
{
    proof {
        lemma_raw_entries_view_index(m@);
    }
    let ghost ev = raw_entries_view(m@);
    proof {
        assert(ev.skip(0) =~= ev);
    }
    let mut j: usize = 0;
    while j < m.len()
        invariant
            ev == raw_entries_view(m@),
            ev.len() == m@.len(),
            forall|l: int| 0 <= l < m@.len() ==> ev[l] == (m@[l].0@, raw_node_view(m@[l].1)),
            j <= m@.len(),
            raw_find(ev, k@) == raw_find(ev.skip(j as int), k@),
        decreases m@.len() - j,
    {
        proof {
            assert(ev.skip(j as int)[0] == ev[j as int]);
        }
        if crate::split::str_eq(m[j].0.as_str(), k) {
            return Some(&m[j].1);
        }
        proof {
            assert(ev.skip(j as int).drop_first() =~= ev.skip(j as int + 1));
        }
        j += 1;
    }
    proof {
        assert(ev.skip(m@.len() as int).len() == 0);
    }
    None
}

/// Converts one source node: a string becomes a leaf, a table becomes a
/// sub-table, anything else is dropped.
pub(crate) fn convert_value(n: &RawNode) -> (r: Option<DictValue>)
    ensures
        match r {
            Some(v) => convert_node(raw_node_view(*n)) == Some(node_view(v)),
            None => convert_node(raw_node_view(*n)) is None,
        },
    decreases *n,
{
    match n {
        RawNode::Str(s) => Some(DictValue::Leaf(s.clone())),
        RawNode::Table(m) => Some(DictValue::SubTable(convert_table(m))),
        RawNode::Other => None,
    }
}

/// Converts the entries of one source table in order, dropping those whose
/// value is neither a string nor a table.
pub(crate) fn convert_table(m: &Vec<(String, RawNode)>) -> (r: Vec<(String, DictValue)>)
    ensures
        entries_view(r@) == convert_entries(raw_entries_view(m@)),
    decreases *m,
{
    proof {
        lemma_raw_entries_view_index(m@);
    }
    let ghost rv = raw_entries_view(m@);
    proof {
        assert(rv.skip(0) =~= rv);
    }
    let mut out: Vec<(String, DictValue)> = Vec::new();
    let mut i: usize = 0;
    while i < m.len()
        invariant
            rv == raw_entries_view(m@),
            rv.len() == m@.len(),
            forall|l: int| 0 <= l < m@.len() ==> rv[l] == (m@[l].0@, raw_node_view(m@[l].1)),
            i <= m@.len(),
            convert_entries(rv) == entries_view(out@) + convert_entries(rv.skip(i as int)),
        decreases m@.len() - i,
    {
        proof {
            assert(rv.skip(i as int)[0] == rv[i as int]);
            assert(rv.skip(i as int).drop_first() =~= rv.skip(i as int + 1));
        }
        let ghost old_out = out@;
        match convert_value(&m[i].1) {
            Some(v) => {
                let ghost nv = node_view(v);
                out.push((m[i].0.clone(), v));
                proof {
                    lemma_entries_view_index(old_out);
                    lemma_entries_view_index(out@);
                    assert(entries_view(out@) =~= entries_view(old_out) + seq![
                        (m@[i as int].0@, nv),
                    ]);
                    assert(entries_view(old_out) + convert_entries(rv.skip(i as int))
                        =~= entries_view(out@) + convert_entries(rv.skip(i as int + 1)));
                }
            },
            None => {
            },
        }
        i += 1;
    }
    proof {
        assert(convert_entries(rv.skip(m@.len() as int)).len() == 0);
        assert(convert_entries(rv) =~= entries_view(out@));
    }
    out
}

} // verus!
