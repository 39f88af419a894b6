use vstd::prelude::*;

pub mod deser;
pub mod laws;
pub mod model;
pub mod paths;
pub mod raw;
pub mod dict;
pub mod split;

pub use dict::Dictionary;
pub use dict::DictValue;

use crate::dict::dict_views;
use crate::dict::spec_from_json;
use crate::dict::spec_from_toml;
use crate::model::cascade_lookup;
use crate::model::wants_toml;
use crate::model::DictView;
use crate::paths::is_toml_path;

verus! {

/// The two failure kinds a load can surface: a file that could not be
/// read, or a document that could not be parsed into a dictionary.
#[derive(Clone, Copy, PartialEq, Eq, Structural, Debug)]
pub enum LoadError {
    Io,
    Parse,
}

impl LoadError {
    /// True exactly for the parse-failure kind.
    pub fn is_parse(&self) -> (r: bool)
        ensures
            r == (*self == LoadError::Parse),
    {
        match self {
            LoadError::Parse => true,
            LoadError::Io => false,
        }
    }
}

/// What loading one source yields: its format read off its path, then the
/// parse and the build.
pub open spec fn spec_load_source(path: Seq<char>, text: Seq<char>, delimiter: Seq<char>) -> Option<
    DictView,
> {
    if wants_toml(path) {
        spec_from_toml(text, delimiter)
    } else {
        spec_from_json(text, delimiter)
    }
}

/// An ordered list of dictionaries: the earlier a dictionary stands, the
/// higher its priority at lookup.
pub struct Cascade {
    pub dicts: Vec<Dictionary>,
}

impl View for Cascade {
    type V = Seq<DictView>;

    open spec fn view(&self) -> Seq<DictView> {
        dict_views(self.dicts@)
    }
}

impl Cascade {
    /// Builds one dictionary per source, in order. A source is a path and
    /// the document text read from it; a `toml` extension selects the TOML
    /// format and any other path is read as JSON; the first source that
    /// fails to parse aborts the whole load, and no partial cascade is
    /// ever produced.
    pub fn with_filepath_strs(sources: &Vec<(String, String)>, delimiter: &str) -> (r: Result<
        Cascade,
        LoadError,
    >)
        ensures
            match r {
                Ok(c) => c@.len() == sources@.len() && forall|i: int|
                    0 <= i < sources@.len() ==> spec_load_source(
                        sources@[i].0@,
                        sources@[i].1@,
                        delimiter@,
                    ) == Some(#[trigger] c@[i]),
                Err(e) => e == LoadError::Parse && exists|i: int|
                    0 <= i < sources@.len() && spec_load_source(
                        #[trigger] sources@[i].0@,
                        sources@[i].1@,
                        delimiter@,
                    ) is None && (forall|j: int|
                        0 <= j < i ==> spec_load_source(
                            #[trigger] sources@[j].0@,
                            sources@[j].1@,
                            delimiter@,
                        ) is Some),
            },
    {
        let mut ds: Vec<Dictionary> = Vec::new();
        let mut idx: usize = 0;
        while idx < sources.len()
            invariant
                idx <= sources@.len(),
                ds@.len() == idx,
                forall|i: int|
                    0 <= i < idx ==> spec_load_source(
                        sources@[i].0@,
                        sources@[i].1@,
                        delimiter@,
                    ) == Some(#[trigger] ds@[i]@),
            decreases sources@.len() - idx,
        {
            let src = &sources[idx];
            let loaded = if is_toml_path(src.0.as_str()) {
                Dictionary::with_toml_str(src.1.as_str(), delimiter)
            } else {
                Dictionary::with_json_str(src.1.as_str(), delimiter)
            };
            match loaded {
                Ok(d) => {
                    ds.push(d);
                },
                Err(e) => {
                    proof {
                        assert forall|j: int|
                            0 <= j < idx implies spec_load_source(
                            sources@[j].0@,
                            sources@[j].1@,
                            delimiter@,
                        ) is Some by {
                            assert(spec_load_source(sources@[j].0@, sources@[j].1@, delimiter@)
                                == Some(ds@[j]@));
                        }
                        assert(spec_load_source(
                            sources@[idx as int].0@,
                            sources@[idx as int].1@,
                            delimiter@,
                        ) is None);
                    }
                    return Err(e);
                },
            }
            idx += 1;
        }
        let c = Cascade { dicts: ds };
        proof {
            assert forall|i: int|
                0 <= i < sources@.len() implies spec_load_source(
                sources@[i].0@,
                sources@[i].1@,
                delimiter@,
            ) == Some(#[trigger] c@[i]) by {
                assert(dict_views(c.dicts@)[i] == c.dicts@[i]@);
            }
        }
        Ok(c)
    }

    /// Asks each dictionary in order and returns the first answer; a miss
    /// comes back only when every dictionary in the cascade misses.
    pub fn translate<'a>(&'a self, key: &str) -> (r: Option<&'a str>)
        ensures
            match r {
                Some(s) => cascade_lookup(self@, key@) == Some(s@),
                None => cascade_lookup(self@, key@) is None,
            },
    {
        proof {
            assert(self@.skip(0) =~= self@);
        }
        let mut i: usize = 0;
        while i < self.dicts.len()
            invariant
                i <= self.dicts@.len(),
                self@.len() == self.dicts@.len(),
                cascade_lookup(self@, key@) == cascade_lookup(self@.skip(i as int), key@),
            decreases self.dicts@.len() - i,
        {
            proof {
                assert(self@.skip(i as int)[0] == self@[i as int]);
            }
            let d = &self.dicts[i];
            match d.translate(key) {
                Some(s) => {
                    return Some(s.as_str());
                },
                None => {
                    proof {
                        assert(self@.skip(i as int).drop_first() =~= self@.skip(i as int + 1));
                    }
                    i += 1;
                },
            }
        }
        proof {
            assert(self@.skip(self.dicts@.len() as int).len() == 0);
        }
        None
    }
}

} // verus!
