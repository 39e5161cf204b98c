//! Paths: the part of an absolute path above the watched root, the part from
//! the root down, and the names in it.

use vstd::prelude::*;
use crate::text::{chars_of, string_of, split, split_spec, starts_with, views, lemma_split_pieces};
use crate::tree::components_spec;

verus! {

/// The last piece of a split string is what follows its last separator.
pub proof fn lemma_split_last(s: Seq<char>, sep: char, j: int)
    requires
        0 <= j <= s.len(),
        forall|k: int| j <= k < s.len() ==> s[k] != sep,
        j == 0 || s[j - 1] == sep,
    ensures
        split_spec(s, sep).len() >= 1,
        split_spec(s, sep).last() == s.skip(j),
    decreases s.len(),
{
    lemma_split_pieces(s, sep);
    if s.len() == 0 {
        assert(s.skip(j) =~= Seq::<char>::empty());
    } else if s.last() == sep {
        assert(j == s.len());
        assert(s.skip(j) =~= Seq::<char>::empty());
    } else {
        lemma_split_pieces(s.drop_last(), sep);
        lemma_split_last(s.drop_last(), sep, j);
        assert(s.skip(j) =~= s.drop_last().skip(j).push(s.last()));
    }
}

/// Cuts an absolute path after its last slash: the part up to and with that
/// slash is the base, the rest the name of the watched root. The path itself
/// is cut down to the base.
pub fn split_root_path(absolute_path: &mut String) -> (r: (String, String))
    ensures
        r.0@ + r.1@ == old(absolute_path)@,
        r.1@ == split_spec(old(absolute_path)@, '/').last(),
        final(absolute_path)@ == r.0@,
{
    let chars = chars_of(absolute_path.as_str());
    let mut j: usize = chars.len();
    while j > 0 && chars[j - 1] != '/'
        invariant
            j <= chars@.len(),
            forall|k: int| j <= k < chars@.len() ==> chars@[k] != '/',
        decreases j,
    {
        j -= 1;
    }
    let base = string_of(&chars, 0, j);
    let local = string_of(&chars, j, chars.len());
    proof {
        lemma_split_last(chars@, '/', j as int);
        assert(chars@.skip(j as int) =~= chars@.subrange(j as int, chars@.len() as int));
        assert(base@ + local@ =~= chars@);
    }
    *absolute_path = base.clone();
    (base, local)
}

/// Takes the base off the front of an absolute path and returns the rest,
/// which starts with the name of the watched root. The path itself is cut
/// down to the base.
pub fn local_path(absolute_path: &mut String, base_path: String) -> (local: String)
    requires
        base_path@.is_prefix_of(old(absolute_path)@),
    ensures
        local@ == old(absolute_path)@.skip(base_path@.len() as int),
        base_path@ + local@ == old(absolute_path)@,
        final(absolute_path)@ == base_path@,
{
    let chars = chars_of(absolute_path.as_str());
    let n = chars_of(base_path.as_str()).len();
    let local = string_of(&chars, n, chars.len());
    proof {
        assert(chars@.skip(n as int) =~= chars@.subrange(n as int, chars@.len() as int));
        assert(base_path@ =~= chars@.subrange(0, n as int));
        assert(base_path@ + local@ =~= chars@);
    }
    *absolute_path = base_path;
    local
}

/// The part of `absolute` from the watched root down, if `absolute` lies
/// under `base`.
pub fn local_part(absolute: &String, base: &String) -> (r: Option<String>)
    ensures
        match r {
            Some(local) => base@.is_prefix_of(absolute@) && local@ == absolute@.skip(
                base@.len() as int,
            ),
            None => !base@.is_prefix_of(absolute@),
        },
{
    if starts_with(absolute.as_str(), base.as_str()) {
        let mut path = absolute.clone();
        Some(local_path(&mut path, base.clone()))
    } else {
        None
    }
}

/// The names in a path.
pub fn components(path: &str) -> (r: Vec<String>)
    ensures
        views(r@) == components_spec(path@),
{
    let mut parts = split(path, '/');
    proof {
        lemma_split_pieces(path@, '/');
    }
    if parts.len() > 0 && parts[0].as_str().is_empty() {
        let ghost before = views(parts@);
        parts.remove(0);
        proof {
            assert(views(parts@) =~= before.drop_first());
        }
    }
    parts
}

} // verus!
