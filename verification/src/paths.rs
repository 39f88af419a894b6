use vstd::prelude::*;
use vstd::string::StrSliceExecFns;

use crate::model::last_pos;
use crate::model::last_pos_from;
use crate::model::lemma_last_pos_bounds;
use crate::model::toml_ext;
use crate::model::wants_toml;
use crate::split::str_eq;

verus! {

// Format sniffing: reading a source's format off its path, verified
// against the model's `wants_toml`.

/// The largest index of `s` holding the character `c`, if any.
fn rfind_char(s: &str, c: char) -> (r: Option<usize>)
    ensures
        match r {
            Some(i) => last_pos(s@, c) == Some(i as int),
            None => last_pos(s@, c) is None,
        },
{
    let n = s.unicode_len();
    let mut i: usize = n;
    while i > 0
        invariant
            n == s@.len(),
            i <= n,
            last_pos(s@, c) == last_pos_from(s@, c, i as int - 1),
        decreases i,
    {
        i -= 1;
        if s.get_char(i) == c {
            return Some(i);
        }
    }
    None
}

/// Decides a source's format from its path: true exactly when the last
/// path component ends in a real `toml` extension.
pub(crate) fn is_toml_path(path: &str) -> (r: bool)
    ensures
        r == wants_toml(path@),
{
    let n = path.unicode_len();
    let comp_start: usize = match rfind_char(path, '/') {
        None => 0,
        Some(i) => {
            proof {
                lemma_last_pos_bounds(path@, '/', n as int - 1, i as int);
            }
            i + 1
        },
    };
    let comp = path.substring_char(comp_start, n);
    let cn = comp.unicode_len();
    match rfind_char(comp, '.') {
        None => false,
        Some(j) => {
            if j == 0 {
                false
            } else {
                proof {
                    lemma_last_pos_bounds(comp@, '.', cn as int - 1, j as int);
                }
                let ext = comp.substring_char(j + 1, cn);
                proof {
                    reveal_strlit("toml");
                    assert("toml"@ =~= toml_ext());
                }
                str_eq(ext, "toml")
            }
        },
    }
}

} // verus!
