//! Edit decision lists: where the sources and side files they name live.
use crate::paths::{join, join_path};
use crate::text::str_eq;
use vstd::prelude::*;

verus! {

/// Resolves a path named in an EDL: an absolute path stands as it is, a
/// relative one is taken from `base`.
pub fn resolve_path(maybe_path: &str, base: &str) -> (r: String)
    ensures
        r@ == join_path(base@, maybe_path@),
{
    join(base, maybe_path)
}

/// Where the source called `name` lives: its path from the EDL's `sources`
/// table (`(name, path)` pairs), resolved against `edit_dir`; `None` when
/// the table does not name it.
pub fn resolve_source_path(sources: &[(String, String)], name: &str, edit_dir: &str) -> (r:
    Option<String>)
    ensures
        match r {
            Some(p) => exists|i: int|
                0 <= i < sources@.len() && (#[trigger] sources@[i]).0@ == name@ && (forall|j: int|
                    0 <= j < i ==> (#[trigger] sources@[j]).0@ != name@) && p@ == join_path(
                    edit_dir@,
                    sources@[i].1@,
                ),
            None => forall|i: int| 0 <= i < sources@.len() ==> (#[trigger] sources@[i]).0@ != name@,
        },
{
    let mut i: usize = 0;
    while i < sources.len()
        invariant
            i <= sources@.len(),
            forall|j: int| 0 <= j < i ==> (#[trigger] sources@[j]).0@ != name@,
        decreases sources.len() - i,
    {
        if str_eq(sources[i].0.as_str(), name) {
            let r = resolve_path(sources[i].1.as_str(), edit_dir);
            assert(sources@[i as int].0@ == name@);
            return Some(r);
        }
        i = i + 1;
    }
    None
}

} // verus!
