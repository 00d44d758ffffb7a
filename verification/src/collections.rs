//! The insertion-ordered collections that the resolver keeps its graph in
//! and the scheduler its waiting tasks.
//!
//! `linked_hash_map::LinkedHashMap` and `linked_hash_set::LinkedHashSet` are
//! not verified here. Each function below makes one call into them, and its
//! contract says what that call does to the collection's contents.

use crate::json::{Json, JsonView};
use linked_hash_map::LinkedHashMap;
use linked_hash_set::LinkedHashSet;
use std::collections::HashSet;
use vstd::prelude::*;

verus! {

/// `linked_hash_map::LinkedHashMap`, as a type whose inside is not seen.
#[verifier::external_type_specification]
#[verifier::external_body]
#[verifier::reject_recursive_types(K)]
#[verifier::reject_recursive_types(V)]
#[verifier::reject_recursive_types(S)]
pub struct ExLinkedHashMap<K, V, S>(LinkedHashMap<K, V, S>);

/// `linked_hash_set::LinkedHashSet`, as a type whose inside is not seen.
#[verifier::external_type_specification]
#[verifier::external_body]
#[verifier::reject_recursive_types(T)]
#[verifier::reject_recursive_types(S)]
pub struct ExLinkedHashSet<T, S>(LinkedHashSet<T, S>);

/// The successors of one node, kept in insertion order.
pub type EdgeSet = LinkedHashSet<usize>;

/// A graph: for each expanded node, its successors.
pub type EdgeMap = LinkedHashMap<usize, LinkedHashSet<usize>>;

/// The items of a set, in the order in which it hands them out.
pub uninterp spec fn set_items(s: LinkedHashSet<usize>) -> Seq<usize>;

/// The keys of a graph, in the order in which it hands them out.
pub uninterp spec fn graph_keys(m: LinkedHashMap<usize, LinkedHashSet<usize>>) -> Seq<usize>;

/// For each key of a graph, the items of the set kept under it.
pub uninterp spec fn graph_map(m: LinkedHashMap<usize, LinkedHashSet<usize>>) -> Map<usize, Seq<usize>>;

/// The tasks that wait, each with the tasks it still waits for.
pub type WaitMap = LinkedHashMap<usize, HashSet<usize>>;

/// The keys of a wait map, in the order in which it hands them out.
pub uninterp spec fn wait_keys(m: LinkedHashMap<usize, HashSet<usize>>) -> Seq<usize>;

/// For each key of a wait map, the members of the set kept under it.
pub uninterp spec fn wait_map(m: LinkedHashMap<usize, HashSet<usize>>) -> Map<usize, Set<usize>>;

/// The environment of a task: names with their values, in insertion order.
pub type TaskEnv = LinkedHashMap<String, Json>;

/// The names of an environment with their values, in the order in which the
/// map hands them out.
pub uninterp spec fn env_members(m: LinkedHashMap<String, Json>) -> Seq<(Seq<char>, JsonView)>;

/// The members of an environment without the one of the name `key`, the
/// order of the rest kept.
pub open spec fn without_name(members: Seq<(Seq<char>, JsonView)>, key: Seq<char>) -> Seq<
    (Seq<char>, JsonView),
>
    decreases members.len(),
{
    if members.len() == 0 {
        members
    } else if members.last().0 == key {
        without_name(members.drop_last(), key)
    } else {
        without_name(members.drop_last(), key).push(members.last())
    }
}

/// The names of the members, in order.
pub open spec fn names_of(members: Seq<(Seq<char>, JsonView)>) -> Seq<Seq<char>> {
    Seq::new(members.len(), |i: int| members[i].0)
}

/// Members without a name that none of them has are the members.
pub proof fn lemma_without_name(members: Seq<(Seq<char>, JsonView)>, key: Seq<char>)
    requires
        !names_of(members).contains(key),
    ensures
        without_name(members, key) == members,
    decreases members.len(),
{
    if members.len() > 0 {
        assert(names_of(members)[members.len() - 1] == members.last().0);
        assert forall|i: int| 0 <= i < members.drop_last().len() implies names_of(members.drop_last())[i]
            != key by {
            assert(names_of(members)[i] == members[i].0);
        }
        if names_of(members.drop_last()).contains(key) {
            let i = choose|i: int|
                0 <= i < names_of(members.drop_last()).len() && names_of(members.drop_last())[i] == key;
            assert(false);
        }
        lemma_without_name(members.drop_last(), key);
        assert(members.drop_last().push(members.last()) =~= members);
    }
}

/// `LinkedHashMap::new`: an environment without names.
#[verifier::external_body]
pub(crate) fn env_new() -> (r: TaskEnv)
    ensures
        env_members(r) =~= Seq::empty(),
{
    LinkedHashMap::new()
}

/// `LinkedHashMap::insert`: the name becomes the last name, whether or not
/// the map held it, with the value under it; the other names keep their
/// order and their values.
#[verifier::external_body]
pub(crate) fn env_insert(m: &mut TaskEnv, key: String, value: Json)
    ensures
        env_members(*final(m)) == without_name(env_members(*old(m)), key@).push((key@, value@)),
{
    m.insert(key, value);
}

/// `LinkedHashMap::iter`: the names with their values, in the order of the
/// map, each name once.
#[verifier::external_body]
pub(crate) fn env_entries(m: &TaskEnv) -> (r: Vec<(&String, &Json)>)
    ensures
        r@.len() == env_members(*m).len(),
        forall|i: int|
            0 <= i < r@.len() ==> (#[trigger] r@[i]).0@ == env_members(*m)[i].0 && r@[i].1@ == env_members(
                *m,
            )[i].1,
        forall|i: int, j: int| 0 <= i < j < r@.len() ==> (#[trigger] r@[i]).0@ != (#[trigger] r@[j]).0@,
{
    m.iter().collect()
}

/// `s` without `v`, the order of the rest kept.
pub open spec fn without(s: Seq<usize>, v: usize) -> Seq<usize>
    decreases s.len(),
{
    if s.len() == 0 {
        s
    } else if s.last() == v {
        without(s.drop_last(), v)
    } else {
        without(s.drop_last(), v).push(s.last())
    }
}

/// The members of a sequence with one more item at its end.
pub proof fn lemma_push_to_set(s: Seq<usize>, x: usize)
    ensures
        s.push(x).to_set() == s.to_set().insert(x),
{
    assert forall|y: usize| s.push(x).to_set().contains(y) <==> s.to_set().insert(x).contains(y) by {
        if s.push(x).contains(y) {
            let i = choose|i: int| 0 <= i < s.push(x).len() && s.push(x)[i] == y;
            if i < s.len() {
                assert(s[i] == y);
            }
        }
        if s.contains(y) {
            let i = choose|i: int| 0 <= i < s.len() && s[i] == y;
            assert(s.push(x)[i] == y);
        }
        assert(s.push(x)[s.len() as int] == x);
    }
    assert(s.push(x).to_set() =~= s.to_set().insert(x));
}

/// `without` keeps the order of what it keeps.
pub proof fn lemma_without_keeps_order(s: Seq<usize>, v: usize, a: int, b: int)
    requires
        0 <= a < b < s.len(),
        s[a] != v,
        s[b] != v,
    ensures
        exists|x: int, y: int|
            0 <= x < y < without(s, v).len() && #[trigger] without(s, v)[x] == s[a]
                && #[trigger] without(s, v)[y] == s[b],
    decreases s.len(),
{
    let t = s.drop_last();
    let w = without(t, v);
    if b == s.len() - 1 {
        lemma_without(t, v);
        assert(t[a] == s[a]);
        assert(t.contains(s[a]));
        assert(w.contains(s[a]));
        let x = choose|x: int| 0 <= x < w.len() && w[x] == s[a];
        let y = w.len() as int;
        assert(without(s, v) == w.push(s.last()));
        assert(without(s, v)[x] == s[a] && without(s, v)[y] == s[b]);
    } else {
        lemma_without_keeps_order(t, v, a, b);
        let (x, y) = choose|x: int, y: int|
            0 <= x < y < w.len() && #[trigger] w[x] == t[a] && #[trigger] w[y] == t[b];
        assert(without(s, v)[x] == w[x] && without(s, v)[y] == w[y]);
    }
}

/// What `without` keeps and what it leaves out.
pub proof fn lemma_without(s: Seq<usize>, v: usize)
    ensures
        forall|x: usize| without(s, v).contains(x) <==> (s.contains(x) && x != v),
        s.no_duplicates() ==> without(s, v).no_duplicates(),
        !s.contains(v) ==> without(s, v) == s,
        without(s, v).len() <= s.len(),
    decreases s.len(),
{
    if s.len() == 0 {
    } else {
        let t = s.drop_last();
        let w = without(t, v);
        let last = s.last();
        lemma_without(t, v);
        assert(s =~= t.push(last));
        assert forall|x: usize| s.contains(x) <==> (t.contains(x) || x == last) by {
            if s.contains(x) {
                let i = choose|i: int| 0 <= i < s.len() && s[i] == x;
                if i < t.len() {
                    assert(t[i] == x);
                }
            }
            if t.contains(x) {
                let i = choose|i: int| 0 <= i < t.len() && t[i] == x;
                assert(s[i] == x);
            }
            assert(s[s.len() - 1] == last);
        }
        if last == v {
            if s.no_duplicates() {
                assert forall|i: int, j: int| 0 <= i < t.len() && 0 <= j < t.len() && i != j implies t[i]
                    != t[j] by {
                    assert(s[i] == t[i] && s[j] == t[j]);
                }
            }
        } else {
            let r = w.push(last);
            assert forall|x: usize| r.contains(x) <==> (w.contains(x) || x == last) by {
                if r.contains(x) {
                    let i = choose|i: int| 0 <= i < r.len() && r[i] == x;
                    if i < w.len() {
                        assert(w[i] == x);
                    }
                }
                if w.contains(x) {
                    let i = choose|i: int| 0 <= i < w.len() && w[i] == x;
                    assert(r[i] == x);
                }
                assert(r[r.len() - 1] == last);
            }
            if s.no_duplicates() {
                assert forall|i: int, j: int| 0 <= i < t.len() && 0 <= j < t.len() && i != j implies t[i]
                    != t[j] by {
                    assert(s[i] == t[i] && s[j] == t[j]);
                }
                assert(!t.contains(last)) by {
                    if t.contains(last) {
                        let i = choose|i: int| 0 <= i < t.len() && t[i] == last;
                        assert(s[i] == s[s.len() - 1]);
                    }
                }
                assert(!w.contains(last));
                assert forall|i: int, j: int| 0 <= i < r.len() && 0 <= j < r.len() && i != j implies r[i]
                    != r[j] by {
                    if i < w.len() && j < w.len() {
                        assert(r[i] == w[i] && r[j] == w[j]);
                    } else if i < w.len() {
                        assert(w.contains(w[i]));
                    } else if j < w.len() {
                        assert(w.contains(w[j]));
                    }
                }
            }
            if !s.contains(v) {
                assert(!t.contains(v));
                assert(r =~= s);
            }
        }
    }
}

/// `LinkedHashSet::new`: a set without items.
#[verifier::external_body]
pub(crate) fn edge_set_new() -> (r: EdgeSet)
    ensures
        set_items(r) =~= Seq::empty(),
{
    LinkedHashSet::new()
}

/// `LinkedHashSet::insert`: the value becomes the last item, whether or not
/// the set held it; the other items keep their order. Returns whether the
/// value is new.
#[verifier::external_body]
pub(crate) fn edge_set_insert(s: &mut EdgeSet, v: usize) -> (r: bool)
    ensures
        set_items(*final(s)) == without(set_items(*old(s)), v).push(v),
        r == !set_items(*old(s)).contains(v),
{
    s.insert(v)
}

/// `LinkedHashSet::iter`: the items in insertion order, none of them twice.
#[verifier::external_body]
pub(crate) fn edge_set_items(s: &EdgeSet) -> (r: Vec<usize>)
    ensures
        r@ == set_items(*s),
        r@.no_duplicates(),
{
    s.iter().copied().collect()
}

/// `LinkedHashMap::new`: a map without keys.
#[verifier::external_body]
pub(crate) fn edge_map_new() -> (r: EdgeMap)
    ensures
        graph_keys(r) =~= Seq::empty(),
        graph_map(r) =~= Map::empty(),
{
    LinkedHashMap::new()
}

/// `LinkedHashMap::insert`: the key becomes the last key, whether or not the
/// map held it, and the set is kept under it; the other keys keep their
/// order and what is kept under them.
#[verifier::external_body]
pub(crate) fn edge_map_insert(m: &mut EdgeMap, k: usize, v: EdgeSet)
    ensures
        graph_keys(*final(m)) == without(graph_keys(*old(m)), k).push(k),
        graph_map(*final(m)) == graph_map(*old(m)).insert(k, set_items(v)),
{
    m.insert(k, v);
}

/// `LinkedHashMap::get`: the set kept under a key, if the map holds the key.
#[verifier::external_body]
pub(crate) fn edge_map_get(m: &EdgeMap, k: usize) -> (r: Option<&EdgeSet>)
    ensures
        match r {
            Some(s) => graph_map(*m).dom().contains(k) && set_items(*s) == graph_map(*m)[k],
            None => !graph_map(*m).dom().contains(k),
        },
{
    m.get(&k)
}

/// `LinkedHashMap::keys`: the keys in insertion order, none of them twice;
/// they are the keys under which something is kept.
#[verifier::external_body]
pub(crate) fn edge_map_keys(m: &EdgeMap) -> (r: Vec<usize>)
    ensures
        r@ == graph_keys(*m),
        r@.no_duplicates(),
        forall|k: usize| r@.contains(k) <==> graph_map(*m).dom().contains(k),
{
    m.keys().copied().collect()
}

/// `LinkedHashMap::new`: a map without keys.
#[verifier::external_body]
pub(crate) fn wait_map_new() -> (r: WaitMap)
    ensures
        wait_keys(r) =~= Seq::empty(),
        wait_map(r) =~= Map::empty(),
{
    LinkedHashMap::new()
}

/// `LinkedHashMap::len`: the number of keys.
#[verifier::external_body]
pub(crate) fn wait_map_len(m: &WaitMap) -> (r: usize)
    ensures
        r == wait_keys(*m).len(),
{
    m.len()
}

/// `LinkedHashMap::insert`: the key becomes the last key, whether or not the
/// map held it, and the set is kept under it; the other keys keep their
/// order and what is kept under them.
#[verifier::external_body]
pub(crate) fn wait_map_insert(m: &mut WaitMap, k: usize, v: HashSet<usize>)
    ensures
        wait_keys(*final(m)) == without(wait_keys(*old(m)), k).push(k),
        wait_map(*final(m)) == wait_map(*old(m)).insert(k, v@),
{
    m.insert(k, v);
}

/// `LinkedHashMap::remove`: the key leaves with what was kept under it,
/// which is returned; the other keys keep their order and what is kept
/// under them.
#[verifier::external_body]
pub(crate) fn wait_map_remove(m: &mut WaitMap, k: usize) -> (r: Option<HashSet<usize>>)
    ensures
        wait_keys(*final(m)) == without(wait_keys(*old(m)), k),
        wait_map(*final(m)) == wait_map(*old(m)).remove(k),
        match r {
            Some(s) => wait_map(*old(m)).dom().contains(k) && s@ == wait_map(*old(m))[k],
            None => !wait_map(*old(m)).dom().contains(k),
        },
{
    m.remove(&k)
}

/// `LinkedHashMap::get`: the set kept under a key, if the map holds the key.
#[verifier::external_body]
pub(crate) fn wait_map_get(m: &WaitMap, k: usize) -> (r: Option<&HashSet<usize>>)
    ensures
        match r {
            Some(s) => wait_map(*m).dom().contains(k) && s@ == wait_map(*m)[k],
            None => !wait_map(*m).dom().contains(k),
        },
{
    m.get(&k)
}

/// `LinkedHashMap::get_mut`: the set kept under a key, to be changed in
/// place; the keys and their order stay, and so does what is kept under the
/// other keys.
#[verifier::external_body]
pub(crate) fn wait_map_get_mut(m: &mut WaitMap, k: usize) -> (r: Option<&mut HashSet<usize>>)
    ensures
        wait_keys(*final(m)) == wait_keys(*old(m)),
        match r {
            Some(s) => wait_map(*old(m)).dom().contains(k) && s@ == wait_map(*old(m))[k]
                && wait_map(*final(m)) == wait_map(*old(m)).insert(k, final(s)@),
            None => !wait_map(*old(m)).dom().contains(k) && wait_map(*final(m)) == wait_map(*old(m)),
        },
{
    m.get_mut(&k)
}

/// `LinkedHashMap::keys`: the keys in insertion order, none of them twice;
/// they are the keys under which something is kept.
#[verifier::external_body]
pub(crate) fn wait_map_keys(m: &WaitMap) -> (r: Vec<usize>)
    ensures
        r@ == wait_keys(*m),
        r@.no_duplicates(),
        forall|k: usize| r@.contains(k) <==> wait_map(*m).dom().contains(k),
{
    m.keys().copied().collect()
}

} // verus!
