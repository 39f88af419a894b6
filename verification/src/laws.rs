use vstd::prelude::*;

use crate::model::cascade_lookup;
use crate::model::convert_entries;
use crate::model::convert_node;
use crate::model::dict_lookup;
use crate::model::first_match_from;
use crate::model::join_with;
use crate::model::match_at;
use crate::model::split_from;
use crate::model::split_on;
use crate::model::dict_wf;
use crate::model::keys_unique;
use crate::model::map_key;
use crate::model::name_key;
use crate::model::node_wf;
use crate::model::raw_find;
use crate::model::raw_lookup;
use crate::model::raw_node_wf;
use crate::model::raw_table_wf;
use crate::model::spec_build;
use crate::model::table_find;
use crate::model::table_wf;
use crate::model::tree_lookup;
use crate::model::DictView;
use crate::model::NodeView;
use crate::model::RawView;

verus! {

// The laws the library promises, proved over the model: conversion keeps
// exactly the string leaves, and a cascade answers with its first hit.

proof fn lemma_keys_unique_drop<T>(m: Seq<(Seq<char>, T)>)
    requires
        keys_unique(m),
        m.len() > 0,
    ensures
        keys_unique(m.drop_first()),
{
    assert forall|i: int, j: int|
        0 <= i < j < m.drop_first().len() implies m.drop_first()[i].0 != m.drop_first()[j].0 by {
        assert(m.drop_first()[i] == m[i + 1]);
        assert(m.drop_first()[j] == m[j + 1]);
    }
}

/// `raw_find` misses exactly when no entry carries the key.
pub proof fn lemma_raw_find_absent(m: Seq<(Seq<char>, RawView)>, k: Seq<char>)
    ensures
        (raw_find(m, k) is None) <==> (forall|i: int| 0 <= i < m.len() ==> m[i].0 != k),
    decreases m.len(),
{
    if m.len() > 0 {
        lemma_raw_find_absent(m.drop_first(), k);
        if raw_find(m, k) is None {
            assert forall|i: int| 0 <= i < m.len() implies m[i].0 != k by {
                if i > 0 {
                    assert(m.drop_first()[i - 1] == m[i]);
                }
            }
        } else {
            if m[0].0 != k {
                assert(!(forall|i: int|
                    0 <= i < m.drop_first().len() ==> m.drop_first()[i].0 != k));
                let i = choose|i: int|
                    0 <= i < m.drop_first().len() && m.drop_first()[i].0 == k;
                assert(m[i + 1].0 == k);
            }
        }
    }
}

/// `table_find` misses exactly when no entry carries the key.
pub proof fn lemma_table_find_absent(m: Seq<(Seq<char>, NodeView)>, k: Seq<char>)
    ensures
        (table_find(m, k) is None) <==> (forall|i: int| 0 <= i < m.len() ==> m[i].0 != k),
    decreases m.len(),
{
    if m.len() > 0 {
        lemma_table_find_absent(m.drop_first(), k);
        if table_find(m, k) is None {
            assert forall|i: int| 0 <= i < m.len() implies m[i].0 != k by {
                if i > 0 {
                    assert(m.drop_first()[i - 1] == m[i]);
                }
            }
        } else {
            if m[0].0 != k {
                assert(!(forall|i: int|
                    0 <= i < m.drop_first().len() ==> m.drop_first()[i].0 != k));
                let i = choose|i: int|
                    0 <= i < m.drop_first().len() && m.drop_first()[i].0 == k;
                assert(m[i + 1].0 == k);
            }
        }
    }
}

/// Conversion never invents an entry: a key absent from a source table is
/// absent from the converted table.
proof fn lemma_convert_absent(m: Seq<(Seq<char>, RawView)>, k: Seq<char>)
    requires
        raw_find(m, k) is None,
    ensures
        table_find(convert_entries(m), k) is None,
    decreases m.len(),
{
    if m.len() > 0 {
        lemma_convert_absent(m.drop_first(), k);
        match convert_node(m[0].1) {
            None => {},
            Some(n) => {
                let ce = seq![(m[0].0, n)] + convert_entries(m.drop_first());
                assert(ce[0] == (m[0].0, n));
                assert(ce.drop_first() =~= convert_entries(m.drop_first()));
            },
        }
    }
}

/// What `table_find` sees in a converted table is exactly the conversion
/// of what `raw_find` sees in the source table.
pub proof fn lemma_convert_find(m: Seq<(Seq<char>, RawView)>, k: Seq<char>)
    requires
        keys_unique(m),
    ensures
        table_find(convert_entries(m), k) == (match raw_find(m, k) {
            None => None::<NodeView>,
            Some(r) => convert_node(r),
        }),
    decreases m.len(),
{
    if m.len() > 0 {
        lemma_keys_unique_drop(m);
        lemma_convert_find(m.drop_first(), k);
        if m[0].0 == k {
            match convert_node(m[0].1) {
                Some(n) => {
                    let ce = seq![(m[0].0, n)] + convert_entries(m.drop_first());
                    assert(ce[0] == (m[0].0, n));
                },
                None => {
                    assert forall|i: int|
                        0 <= i < m.drop_first().len() implies m.drop_first()[i].0 != k by {
                        assert(m.drop_first()[i] == m[i + 1]);
                    }
                    lemma_raw_find_absent(m.drop_first(), k);
                    lemma_convert_absent(m.drop_first(), k);
                },
            }
        } else {
            match convert_node(m[0].1) {
                Some(n) => {
                    let ce = seq![(m[0].0, n)] + convert_entries(m.drop_first());
                    assert(ce[0] == (m[0].0, n));
                    assert(ce.drop_first() =~= convert_entries(m.drop_first()));
                },
                None => {},
            }
        }
    }
}

proof fn lemma_raw_table_wf_drop(m: Seq<(Seq<char>, RawView)>)
    requires
        raw_table_wf(m),
        m.len() > 0,
    ensures
        raw_table_wf(m.drop_first()),
{
    lemma_keys_unique_drop(m);
    assert forall|i: int|
        0 <= i < m.drop_first().len() implies raw_node_wf(#[trigger] m.drop_first()[i].1) by {
        assert(m.drop_first()[i] == m[i + 1]);
        assert(raw_node_wf(m[i + 1].1));
    }
}

/// In a well-formed source table, whatever `raw_find` yields is itself
/// well-formed.
pub proof fn lemma_raw_find_wf(m: Seq<(Seq<char>, RawView)>, k: Seq<char>)
    requires
        raw_table_wf(m),
    ensures
        raw_find(m, k) matches Some(r) ==> raw_node_wf(r),
    decreases m.len(),
{
    if m.len() > 0 {
        assert(raw_node_wf(m[0].1));
        lemma_raw_table_wf_drop(m);
        lemma_raw_find_wf(m.drop_first(), k);
    }
}

/// Conversion keeps well-formedness: unique keys stay unique, in every
/// sub-table.
pub proof fn lemma_convert_wf(m: Seq<(Seq<char>, RawView)>)
    requires
        raw_table_wf(m),
    ensures
        table_wf(convert_entries(m)),
    decreases m,
{
    if m.len() > 0 {
        lemma_raw_table_wf_drop(m);
        lemma_convert_wf(m.drop_first());
        match convert_node(m[0].1) {
            None => {},
            Some(n) => {
                lemma_convert_node_wf(m[0].1);
                assert forall|i: int|
                    0 <= i < m.drop_first().len() implies m.drop_first()[i].0 != m[0].0 by {
                    assert(m.drop_first()[i] == m[i + 1]);
                }
                lemma_raw_find_absent(m.drop_first(), m[0].0);
                lemma_convert_absent(m.drop_first(), m[0].0);
                lemma_table_find_absent(convert_entries(m.drop_first()), m[0].0);
                let ce = seq![(m[0].0, n)] + convert_entries(m.drop_first());
                assert forall|i: int, j: int| 0 <= i < j < ce.len() implies ce[i].0 != ce[j].0 by {
                    assert(ce[j] == convert_entries(m.drop_first())[j - 1]);
                    if i > 0 {
                        assert(ce[i] == convert_entries(m.drop_first())[i - 1]);
                    }
                }
                assert forall|i: int| 0 <= i < ce.len() implies node_wf(#[trigger] ce[i].1) by {
                    if i > 0 {
                        assert(ce[i] == convert_entries(m.drop_first())[i - 1]);
                    }
                }
            },
        }
    }
}

proof fn lemma_convert_node_wf(r: RawView)
    requires
        raw_node_wf(r),
    ensures
        convert_node(r) matches Some(n) ==> node_wf(n),
    decreases r,
{
    match r {
        RawView::Table(m) => lemma_convert_wf(m),
        _ => {},
    }
}

/// The round trip, and the fate of malformed entries, in one statement:
/// looking any path up in a converted table answers exactly as in the
/// source, so every string leaf is returned at its own path with its
/// original text, and a value of any other kind neither appears as a
/// result nor hides one.
pub proof fn lemma_convert_lookup(m: Seq<(Seq<char>, RawView)>, segs: Seq<Seq<char>>)
    requires
        raw_table_wf(m),
    ensures
        tree_lookup(convert_entries(m), segs) == raw_lookup(m, segs),
    decreases segs.len(),
{
    if segs.len() > 0 {
        lemma_convert_find(m, segs[0]);
        match raw_find(m, segs[0]) {
            None => {},
            Some(r) => {
                lemma_raw_find_wf(m, segs[0]);
                match r {
                    RawView::Table(t) => {
                        if segs.len() > 1 {
                            lemma_convert_lookup(t, segs.drop_first());
                        }
                    },
                    _ => {},
                }
            },
        }
    }
}

/// A dictionary built from a well-formed document is well-formed.
pub proof fn lemma_spec_build_wf(doc: RawView, delimiter: Seq<char>, d: DictView)
    requires
        raw_node_wf(doc),
        spec_build(doc, delimiter) == Some(d),
    ensures
        dict_wf(d),
{
    match doc {
        RawView::Table(top) => {
            match (raw_find(top, name_key()), raw_find(top, map_key())) {
                (Some(RawView::Str(_)), Some(RawView::Table(mp))) => {
                    lemma_raw_find_wf(top, map_key());
                    lemma_convert_wf(mp);
                },
                _ => {},
            }
        },
        _ => {},
    }
}

proof fn lemma_match_at_char(s: Seq<char>, d: Seq<char>, i: int)
    requires
        d.len() == 1,
        0 <= i < s.len(),
    ensures
        match_at(s, d, i) <==> s[i] == d[0],
{
    if s[i] == d[0] {
        assert(s.subrange(i, i + 1) =~= d);
    } else {
        assert(s.subrange(i, i + 1)[0] == s[i]);
    }
}

proof fn lemma_no_match_char(s: Seq<char>, d: Seq<char>, from: int)
    requires
        d.len() == 1,
        0 <= from,
        forall|j: int| from <= j < s.len() ==> s[j] != d[0],
    ensures
        first_match_from(s, d, from) is None,
    decreases s.len() - from,
{
    if from + 1 <= s.len() {
        lemma_match_at_char(s, d, from);
        lemma_no_match_char(s, d, from + 1);
    }
}

proof fn lemma_first_match_char(s: Seq<char>, d: Seq<char>, from: int, p: int)
    requires
        d.len() == 1,
        0 <= from <= p < s.len(),
        s[p] == d[0],
        forall|j: int| from <= j < p ==> s[j] != d[0],
    ensures
        first_match_from(s, d, from) == Some(p),
    decreases p - from,
{
    lemma_match_at_char(s, d, from);
    if from < p {
        lemma_first_match_char(s, d, from + 1, p);
    }
}

proof fn lemma_split_from_join(s: Seq<char>, d: Seq<char>, start: int, segs: Seq<Seq<char>>)
    requires
        d.len() == 1,
        segs.len() >= 1,
        0 <= start <= s.len(),
        s.subrange(start, s.len() as int) == join_with(segs, d),
        forall|i: int| 0 <= i < segs.len() ==> !(#[trigger] segs[i]).contains(d[0]),
    ensures
        split_from(s, d, start) == segs,
    decreases segs.len(),
{
    let tail = s.subrange(start, s.len() as int);
    if segs.len() == 1 {
        assert(tail == segs[0]);
        assert forall|j: int| start <= j < s.len() implies s[j] != d[0] by {
            assert(tail[j - start] == s[j]);
            assert(!segs[0].contains(d[0]));
        }
        lemma_no_match_char(s, d, start);
        assert(split_from(s, d, start) =~= segs);
    } else {
        let rest = segs.drop_first();
        let joined_rest = join_with(rest, d);
        assert(tail =~= segs[0] + d + joined_rest);
        let p = start + segs[0].len() as int;
        assert(s[p] == d[0]) by {
            assert(tail[segs[0].len() as int] == d[0]);
        }
        assert forall|j: int| start <= j < p implies s[j] != d[0] by {
            assert(tail[j - start] == segs[0][j - start]);
            assert(!segs[0].contains(d[0]));
        }
        lemma_first_match_char(s, d, start, p);
        assert(s.subrange(start, p) =~= segs[0]) by {
            assert forall|l: int| 0 <= l < segs[0].len() implies s.subrange(start, p)[l]
                == segs[0][l] by {
                assert(tail[l] == segs[0][l]);
            }
        }
        assert(s.subrange(p + 1, s.len() as int) =~= joined_rest) by {
            assert forall|l: int| 0 <= l < joined_rest.len() implies s.subrange(
                p + 1,
                s.len() as int,
            )[l] == joined_rest[l] by {
                assert(tail[segs[0].len() + 1 + l] == joined_rest[l]);
            }
        }
        assert forall|i: int| 0 <= i < rest.len() implies !(#[trigger] rest[i]).contains(
            d[0],
        ) by {
            assert(rest[i] == segs[i + 1]);
        }
        lemma_split_from_join(s, d, p + 1, rest);
        assert(split_from(s, d, start) =~= seq![segs[0]] + rest);
        assert(seq![segs[0]] + rest =~= segs);
    }
}

/// Splitting the join of segments on a one-character delimiter that no
/// segment contains gives exactly the segments back.
pub proof fn lemma_split_join(segs: Seq<Seq<char>>, d: Seq<char>)
    requires
        d.len() == 1,
        segs.len() >= 1,
        forall|i: int| 0 <= i < segs.len() ==> !(#[trigger] segs[i]).contains(d[0]),
    ensures
        split_on(join_with(segs, d), d) == segs,
{
    let s = join_with(segs, d);
    assert(s.subrange(0, s.len() as int) =~= s);
    lemma_split_from_join(s, d, 0, segs);
}

/// The round trip at the key level: a path's segments, joined with a
/// one-character delimiter that no segment contains, look up in the
/// dictionary exactly what the path reaches in its tree.
pub proof fn lemma_translate_round_trip(d: DictView, segs: Seq<Seq<char>>)
    requires
        d.delimiter.len() == 1,
        segs.len() >= 1,
        forall|i: int| 0 <= i < segs.len() ==> !(#[trigger] segs[i]).contains(d.delimiter[0]),
    ensures
        dict_lookup(d, join_with(segs, d.delimiter)) == tree_lookup(d.map, segs),
{
    lemma_split_join(segs, d.delimiter);
}

/// The whole round trip: build a dictionary from a well-formed document,
/// join any path of segments with a one-character delimiter that none of
/// them contains, and look the joined key up — the answer is exactly what
/// that path reaches among the source's string leaves.
pub proof fn lemma_build_round_trip(
    top: Seq<(Seq<char>, RawView)>,
    mp: Seq<(Seq<char>, RawView)>,
    delimiter: Seq<char>,
    d: DictView,
    segs: Seq<Seq<char>>,
)
    requires
        raw_table_wf(top),
        raw_find(top, map_key()) == Some(RawView::Table(mp)),
        spec_build(RawView::Table(top), delimiter) == Some(d),
        delimiter.len() == 1,
        segs.len() >= 1,
        forall|i: int| 0 <= i < segs.len() ==> !(#[trigger] segs[i]).contains(delimiter[0]),
    ensures
        dict_lookup(d, join_with(segs, delimiter)) == raw_lookup(mp, segs),
{
    lemma_raw_find_wf(top, map_key());
    lemma_convert_lookup(mp, segs);
    lemma_translate_round_trip(d, segs);
}

/// Priority: the first dictionary that answers a key decides the cascade's
/// answer, whatever the dictionaries after it hold.
pub proof fn lemma_cascade_first_hit(ds: Seq<DictView>, key: Seq<char>, i: int)
    requires
        0 <= i < ds.len(),
        forall|j: int| 0 <= j < i ==> dict_lookup(ds[j], key) is None,
        dict_lookup(ds[i], key) is Some,
    ensures
        cascade_lookup(ds, key) == dict_lookup(ds[i], key),
    decreases i,
{
    if i > 0 {
        assert forall|j: int|
            0 <= j < i - 1 implies dict_lookup(ds.drop_first()[j], key) is None by {
            assert(ds.drop_first()[j] == ds[j + 1]);
        }
        assert(ds.drop_first()[i - 1] == ds[i]);
        lemma_cascade_first_hit(ds.drop_first(), key, i - 1);
    }
}

/// Totality: the cascade misses a key exactly when every dictionary in it
/// misses that key.
pub proof fn lemma_cascade_totality(ds: Seq<DictView>, key: Seq<char>)
    ensures
        (cascade_lookup(ds, key) is None) <==> (forall|i: int|
            0 <= i < ds.len() ==> dict_lookup(ds[i], key) is None),
    decreases ds.len(),
{
    if ds.len() > 0 {
        lemma_cascade_totality(ds.drop_first(), key);
        if cascade_lookup(ds, key) is None {
            assert forall|i: int| 0 <= i < ds.len() implies dict_lookup(ds[i], key) is None by {
                if i > 0 {
                    assert(ds.drop_first()[i - 1] == ds[i]);
                }
            }
        } else {
            if dict_lookup(ds[0], key) is None {
                assert(cascade_lookup(ds.drop_first(), key) is Some);
                assert(!(forall|i: int|
                    0 <= i < ds.drop_first().len() ==> dict_lookup(ds.drop_first()[i], key)
                        is None));
                let i = choose|i: int|
                    0 <= i < ds.drop_first().len() && dict_lookup(ds.drop_first()[i], key)
                        is Some;
                assert(ds.drop_first()[i] == ds[i + 1]);
            }
        }
    }
}

} // verus!
