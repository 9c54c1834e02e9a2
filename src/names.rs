//! Participant entry-point names: `{prefix}{base}`, where an existing prefix is
//! kept rather than doubled.
use vstd::prelude::*;

verus! {

pub open spec fn starts_with(s: Seq<char>, prefix: Seq<char>) -> bool {
    prefix.len() <= s.len() && s.subrange(0, prefix.len() as int) == prefix
}

/// The entry point for `name` under `prefix`.
pub open spec fn entry_point_name(prefix: Seq<char>, name: Seq<char>) -> Seq<char> {
    if starts_with(name, prefix) {
        name
    } else {
        prefix + name
    }
}

pub open spec fn prepare_entry_point(name: Seq<char>) -> Seq<char> {
    entry_point_name("prepare_"@, name)
}

pub open spec fn commit_entry_point(name: Seq<char>) -> Seq<char> {
    entry_point_name("commit_"@, name)
}

pub open spec fn rollback_entry_point(name: Seq<char>) -> Seq<char> {
    entry_point_name("rollback_"@, name)
}

/// Deriving an entry point twice under the same prefix gives the same name as
/// deriving it once, and the derived name always starts with the prefix.
pub proof fn lemma_entry_point_idempotent(prefix: Seq<char>, name: Seq<char>)
    ensures
        entry_point_name(prefix, entry_point_name(prefix, name)) == entry_point_name(prefix, name),
        starts_with(entry_point_name(prefix, name), prefix),
{
    if !starts_with(name, prefix) {
        assert((prefix + name).subrange(0, prefix.len() as int) =~= prefix);
    }
}

fn has_prefix(s: &str, prefix: &str) -> (r: bool)
    ensures
        r == starts_with(s@, prefix@),
{
    let plen = prefix.unicode_len();
    let slen = s.unicode_len();
    if plen > slen {
        return false;
    }
    let mut i: usize = 0;
    while i < plen
        invariant
            plen == prefix@.len(),
            slen == s@.len(),
            plen <= slen,
            i <= plen,
            forall|k: int| 0 <= k < i ==> s@[k] == prefix@[k],
        decreases plen - i,
    {
        if s.get_char(i) != prefix.get_char(i) {
            assert(s@.subrange(0, plen as int)[i as int] != prefix@[i as int]);
            return false;
        }
        i += 1;
    }
    assert(s@.subrange(0, plen as int) =~= prefix@);
    true
}

/// Derives the entry point for `function_name` under `prefix`.
pub fn entry_point(prefix: &str, function_name: &String) -> (r: String)
    ensures
        r@ == entry_point_name(prefix@, function_name@),
{
    if has_prefix(function_name.as_str(), prefix) {
        function_name.clone()
    } else {
        String::from_str(prefix).concat(function_name.as_str())
    }
}

} // verus!
