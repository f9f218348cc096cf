//! Tables keyed by name, each name at most once.
use vstd::prelude::*;
use crate::zktree::keyed::{unique_keys, has_key, keyed_map, lemma_keyed_at, lemma_keyed_update, lemma_keyed_push};

verus! {

/// The table with its names as character sequences.
pub open spec fn names_view<V>(t: Seq<(String, V)>) -> Seq<(Seq<char>, V)> {
    Seq::new(t.len(), |i: int| (t[i].0@, t[i].1))
}

/// The map a table stands for.
pub open spec fn table_map<V>(t: Seq<(String, V)>) -> Map<Seq<char>, V> {
    keyed_map(names_view(t))
}

/// No name occurs twice.
pub open spec fn table_wf<V>(t: Seq<(String, V)>) -> bool {
    unique_keys(names_view(t))
}

/// The position of `name` in the table.
pub fn find_name<V>(t: &Vec<(String, V)>, name: &String) -> (r: Option<usize>)
    ensures
        r matches Some(i) ==> i < t@.len() && t@[i as int].0@ == name@,
        r is None ==> !has_key(names_view(t@), name@),
{
    let mut i: usize = 0;
    while i < t.len()
        invariant
            i <= t@.len(),
            forall|j: int| 0 <= j < i ==> (#[trigger] t@[j]).0@ != name@,
        decreases t@.len() - i,
    {
        if t[i].0 == *name {
            return Some(i);
        }
        i = i + 1;
    }
    proof {
        assert forall|j: int| 0 <= j < names_view(t@).len() implies #[trigger] names_view(t@)[j].0 != name@ by {
            assert(names_view(t@)[j].0 == t@[j].0@);
        }
    }
    None
}

/// What the table holds under `name`, if anything.
pub fn table_get<'a, V>(t: &'a Vec<(String, V)>, name: &String) -> (r: Option<&'a V>)
    requires
        table_wf(t@),
    ensures
        r matches Some(v) ==> table_map(t@).contains_key(name@) && *v == table_map(t@)[name@],
        r is None ==> !table_map(t@).contains_key(name@),
{
    match find_name(t, name) {
        Some(i) => {
            proof {
                assert(names_view(t@)[i as int] == (t@[i as int].0@, t@[i as int].1));
                lemma_keyed_at(names_view(t@), i as int);
            }
            Some(&t[i].1)
        }
        None => None,
    }
}

/// Puts `v` under `name`, replacing what was there.
pub fn table_insert<V>(t: &mut Vec<(String, V)>, name: String, v: V)
    requires
        table_wf(old(t)@),
    ensures
        table_wf(final(t)@),
        table_map(final(t)@) == table_map(old(t)@).insert(name@, v),
{
    let ghost before = names_view(t@);
    let ghost key = name@;
    match find_name(t, &name) {
        Some(i) => {
            t.set(i, (name, v));
            proof {
                assert(names_view(t@) =~= before.update(i as int, (key, v)));
                lemma_keyed_update(before, i as int, (key, v));
            }
        }
        None => {
            t.push((name, v));
            proof {
                assert(names_view(t@) =~= before.push((key, v)));
                lemma_keyed_push(before, (key, v));
            }
        }
    }
}

} // verus!
