//! Tasks, the references between them, and the catalogs that hold them.

use crate::json::{json_members_view, Json, JsonView};
use crate::collections::{
    env_entries, env_insert, env_members, env_new, lemma_without_name, names_of, TaskEnv,
};
use crate::strmap::StrMap;
use vstd::prelude::*;

pub mod from_yaml;
pub mod frontend;
pub mod instantiation;
pub mod invocation;
pub mod loader;
pub mod params;
pub mod task;
pub mod task_ref;
pub mod taskfile;
pub mod workspace;

verus! {

/// What a template sees: the arguments of the invocation under `args`, the
/// environment under `env`.
#[derive(Debug)]
pub struct BirbRenderContext<Args, Env> {
    pub args: Args,
    pub env: Env,
}

/// The names of a map with the values under them, as the members of an object.
pub open spec fn map_members(m: StrMap<Json>) -> Seq<(Seq<char>, JsonView)> {
    Seq::new(m.keys().len(), |i: int| (m.keys()[i], m.values()[i]@))
}

/// The object that templates are rendered over: the arguments under `args`,
/// the environment under `env`.
pub open spec fn render_context(args: StrMap<Json>, env: StrMap<Json>) -> JsonView {
    JsonView::Object(
        seq![
            ("args"@, JsonView::Object(map_members(args))),
            ("env"@, JsonView::Object(map_members(env))),
        ],
    )
}

/// A map as a JSON object: its names in order, each with its value.
pub fn map_to_json(m: &StrMap<Json>) -> (r: Json)
    ensures
        r@ == JsonView::Object(map_members(*m)),
{
    let mut members: Vec<(String, Json)> = Vec::new();
    let mut i: usize = 0;
    proof {
        m.lemma_len();
    }
    while i < m.len()
        invariant
            i <= m.keys().len(),
            m.keys().len() == m.values().len(),
            members@.len() == i,
            forall|j: int|
                0 <= j < i ==> (#[trigger] members@[j]).0@ == m.keys()[j] && members@[j].1@
                    == m.values()[j]@,
        decreases m.keys().len() - i,
    {
        members.push((m.key_at(i).clone(), m.value_at(i).duplicate()));
        i += 1;
    }
    proof {
        Json::lemma_object_view(members);
        assert(json_members_view(members@) =~= map_members(*m));
    }
    Json::Object(members)
}

/// The names of `base` that `over` does not hold, in their order.
pub open spec fn names_kept(base: Seq<Seq<char>>, over: Seq<Seq<char>>) -> Seq<Seq<char>>
    decreases base.len(),
{
    if base.len() == 0 {
        Seq::empty()
    } else if over.contains(base.last()) {
        names_kept(base.drop_last(), over)
    } else {
        names_kept(base.drop_last(), over).push(base.last())
    }
}

/// The names of `base` that `over` does not hold and, after them, the
/// names of `over`: a name that is overridden moves to the end, as it does
/// in an insertion-ordered map into which `over` is put.
pub open spec fn names_over(base: Seq<Seq<char>>, over: Seq<Seq<char>>) -> Seq<Seq<char>> {
    names_kept(base, over) + over
}

/// `out` is `base` with `over` laid over it: it holds the names of both,
/// those of `over` last, and under a name of `over` the value of `over`.
pub open spec fn layered(
    base: StrMap<Json>,
    over: Seq<(Seq<char>, JsonView)>,
    out: StrMap<Json>,
) -> bool {
    &&& out.wf()
    &&& out.keys() == names_over(base.keys(), names_of(over))
    &&& forall|k: Seq<char>| out.has(k) <==> (base.has(k) || names_of(over).contains(k))
    &&& forall|i: int| 0 <= i < over.len() ==> (#[trigger] out.at(over[i].0))@ == over[i].1
    &&& forall|k: Seq<char>|
        out.has(k) && !names_of(over).contains(k) ==> (#[trigger] out.at(k))@ == base.at(k)@
}

/// Two environments that are the same two laid over each other hold the
/// same names in the same order, with the same values.
pub proof fn lemma_layered_same(
    base: StrMap<Json>,
    over: Seq<(Seq<char>, JsonView)>,
    a: StrMap<Json>,
    b: StrMap<Json>,
)
    requires
        layered(base, over, a),
        layered(base, over, b),
    ensures
        map_members(a) == map_members(b),
{
    a.lemma_len();
    b.lemma_len();
    assert forall|i: int| 0 <= i < a.keys().len() implies a.values()[i]@ == b.values()[i]@ by {
        a.lemma_at_position(i);
        b.lemma_at_position(i);
        let k = a.keys()[i];
        if names_of(over).contains(k) {
            let p = choose|p: int| 0 <= p < names_of(over).len() && names_of(over)[p] == k;
            assert(over[p].0 == k);
            assert(a.at(over[p].0)@ == over[p].1);
            assert(b.at(over[p].0)@ == over[p].1);
        } else {
            assert(a.at(k)@ == base.at(k)@);
            assert(b.at(k)@ == base.at(k)@);
        }
    }
    assert(map_members(a) =~= map_members(b));
}

/// Whether one of the entries has the name `key`.
fn entries_have(entries: &Vec<(&String, &Json)>, key: &str) -> (r: bool)
    ensures
        r == exists|i: int| 0 <= i < entries@.len() && (#[trigger] entries@[i]).0@ == key@,
{
    let mut i: usize = 0;
    while i < entries.len()
        invariant
            i <= entries@.len(),
            forall|j: int| 0 <= j < i ==> (#[trigger] entries@[j]).0@ != key@,
        decreases entries@.len() - i,
    {
        if crate::text::text_eq(entries[i].0.as_str(), key) {
            return true;
        }
        i += 1;
    }
    false
}

/// Lays the environment of a task over that of its taskfile: a name of
/// `over` overrides the same name of `base`.
pub fn layer_env(base: &StrMap<Json>, over: &TaskEnv) -> (out: StrMap<Json>)
    requires
        base.wf(),
    ensures
        layered(*base, env_members(*over), out),
{
    let entries = env_entries(over);
    let ghost members = env_members(*over);
    let ghost names = names_of(members);
    proof {
        assert(names.len() == members.len());
    }
    let mut out: StrMap<Json> = StrMap::new();
    let mut i: usize = 0;
    proof {
        assert(base.keys().take(0) =~= Seq::empty());
    }
    while i < base.len()
        invariant
            i <= base.keys().len(),
            base.wf(),
            out.wf(),
            members == env_members(*over),
            names == names_of(members),
            entries@.len() == members.len(),
            forall|p: int| 0 <= p < entries@.len() ==> (#[trigger] entries@[p]).0@ == members[p].0,
            out.keys() == names_kept(base.keys().take(i as int), names),
            forall|k: Seq<char>|
                out.has(k) <==> (base.keys().take(i as int).contains(k) && !names.contains(k)),
            forall|k: Seq<char>| out.has(k) ==> (#[trigger] out.at(k))@ == base.at(k)@,
        decreases base.keys().len() - i,
    {
        let key = base.key_at(i);
        let ghost seen = base.keys().take(i as int);
        let ghost seen1 = base.keys().take(i + 1);
        proof {
            base.lemma_at_position(i as int);
            assert(seen1 =~= seen.push(key@));
            assert(seen1.drop_last() =~= seen);
            assert forall|k: Seq<char>| seen1.contains(k) <==> (seen.contains(k) || k == key@) by {
                if seen1.contains(k) {
                    let j = choose|j: int| 0 <= j < seen1.len() && seen1[j] == k;
                    if j < seen.len() {
                        assert(seen[j] == k);
                    }
                }
                if seen.contains(k) {
                    let j = choose|j: int| 0 <= j < seen.len() && seen[j] == k;
                    assert(seen1[j] == k);
                }
                assert(seen1[seen.len() as int] == key@);
            }
            if seen.contains(key@) {
                let j = choose|j: int| 0 <= j < seen.len() && seen[j] == key@;
                assert(base.keys()[j] == base.keys()[i as int]);
            }
        }
        let overridden = entries_have(&entries, key.as_str());
        proof {
            if overridden {
                let p = choose|p: int| 0 <= p < entries@.len() && (#[trigger] entries@[p]).0@ == key@;
                assert(names[p] == key@);
            }
            if names.contains(key@) {
                let p = choose|p: int| 0 <= p < names.len() && names[p] == key@;
                assert(entries@[p].0@ == key@);
            }
        }
        if !overridden {
            let ghost before = out;
            let value = base.value_at(i).duplicate();
            let added = out.insert(key.clone(), value);
            assert(added is None);
            assert forall|k: Seq<char>| out.has(k) implies (#[trigger] out.at(k))@ == base.at(k)@ by {
                if k != key@ {
                    assert(before.has(k));
                    assert(out.at(k) == before.at(k));
                }
            }
        }
        i += 1;
    }
    proof {
        assert(base.keys().take(base.keys().len() as int) =~= base.keys());
        assert(names.take(0) =~= Seq::empty());
        assert(names_kept(base.keys(), names) + Seq::<Seq<char>>::empty() =~= names_kept(
            base.keys(),
            names,
        ));
    }
    let mut j: usize = 0;
    while j < entries.len()
        invariant
            j <= entries@.len(),
            base.wf(),
            out.wf(),
            members == env_members(*over),
            names == names_of(members),
            entries@.len() == members.len(),
            forall|p: int|
                0 <= p < entries@.len() ==> (#[trigger] entries@[p]).0@ == members[p].0 && entries@[p].1@
                    == members[p].1,
            forall|p: int, q: int|
                0 <= p < q < entries@.len() ==> (#[trigger] entries@[p]).0@ != (#[trigger] entries@[q]).0@,
            out.keys() == names_kept(base.keys(), names) + names.take(j as int),
            forall|k: Seq<char>|
                out.has(k) <==> ((base.has(k) && !names.contains(k)) || names.take(j as int).contains(k)),
            forall|p: int| 0 <= p < j ==> (#[trigger] out.at(members[p].0))@ == members[p].1,
            forall|k: Seq<char>|
                out.has(k) && !names.contains(k) ==> (#[trigger] out.at(k))@ == base.at(k)@,
        decreases entries@.len() - j,
    {
        let key = entries[j].0.clone();
        let value = entries[j].1.duplicate();
        let ghost before = out;
        let ghost seen = names.take(j as int);
        let ghost seen1 = names.take(j + 1);
        proof {
            assert(names[j as int] == key@);
            assert(seen1 =~= seen.push(key@));
            assert forall|k: Seq<char>| seen1.contains(k) <==> (seen.contains(k) || k == key@) by {
                if seen1.contains(k) {
                    let p = choose|p: int| 0 <= p < seen1.len() && seen1[p] == k;
                    if p < seen.len() {
                        assert(seen[p] == k);
                    }
                }
                if seen.contains(k) {
                    let p = choose|p: int| 0 <= p < seen.len() && seen[p] == k;
                    assert(seen1[p] == k);
                }
                assert(seen1[seen.len() as int] == key@);
            }
            if seen.contains(key@) {
                let p = choose|p: int| 0 <= p < seen.len() && seen[p] == key@;
                assert(entries@[p].0@ == entries@[j as int].0@);
            }
            assert(names.contains(key@));
            assert(!before.has(key@));
        }
        let added = out.insert(key, value);
        proof {
            assert(added is None);
            assert(out.keys() =~= names_kept(base.keys(), names) + seen1);
            assert forall|p: int| 0 <= p < j + 1 implies (#[trigger] out.at(members[p].0))@
                == members[p].1 by {
                if p < j {
                    assert(members[p].0 != key@) by {
                        assert(entries@[p].0@ != entries@[j as int].0@);
                    }
                    assert(before.has(members[p].0)) by {
                        assert(seen[p] == members[p].0);
                    }
                    assert(out.at(members[p].0) == before.at(members[p].0));
                }
            }
            assert forall|k: Seq<char>| out.has(k) && !names.contains(k) implies (#[trigger] out.at(k))@
                == base.at(k)@ by {
                assert(k != key@);
                assert(before.has(k));
                assert(out.at(k) == before.at(k));
            }
        }
        j += 1;
    }
    proof {
        assert(names.take(names.len() as int) =~= names);
        assert forall|k: Seq<char>| out.has(k) <==> (base.has(k) || names.contains(k)) by {}
    }
    out
}

/// An environment with the names and values of a map, in its order.
pub fn to_env(map: &StrMap<Json>) -> (r: TaskEnv)
    requires
        map.wf(),
    ensures
        env_members(r) == map_members(*map),
{
    let mut out = env_new();
    let mut i: usize = 0;
    proof {
        map.lemma_len();
    }
    while i < map.len()
        invariant
            i <= map.keys().len(),
            map.wf(),
            map.keys().len() == map.values().len(),
            env_members(out) == map_members(*map).take(i as int),
        decreases map.keys().len() - i,
    {
        let ghost before = env_members(out);
        proof {
            assert forall|p: int| 0 <= p < names_of(before).len() implies names_of(before)[p]
                != map.keys()[i as int] by {
                assert(before[p] == map_members(*map)[p]);
                assert(map.keys()[p] != map.keys()[i as int]);
            }
            if names_of(before).contains(map.keys()[i as int]) {
                let p = choose|p: int|
                    0 <= p < names_of(before).len() && names_of(before)[p] == map.keys()[i as int];
                assert(false);
            }
            lemma_without_name(before, map.keys()[i as int]);
        }
        env_insert(&mut out, map.key_at(i).clone(), map.value_at(i).duplicate());
        proof {
            assert(map_members(*map).take(i + 1) =~= map_members(*map).take(i as int).push(
                map_members(*map)[i as int],
            ));
        }
        i += 1;
    }
    proof {
        assert(map_members(*map).take(map.keys().len() as int) =~= map_members(*map));
    }
    out
}

/// A copy of an environment: the same names in the same order, each with a
/// copy of its value.
pub fn copy_env(env: &TaskEnv) -> (r: TaskEnv)
    ensures
        env_members(r) == env_members(*env),
{
    let entries = env_entries(env);
    let ghost members = env_members(*env);
    let mut out = env_new();
    let mut i: usize = 0;
    while i < entries.len()
        invariant
            i <= entries@.len(),
            members == env_members(*env),
            entries@.len() == members.len(),
            forall|p: int|
                0 <= p < entries@.len() ==> (#[trigger] entries@[p]).0@ == members[p].0 && entries@[p].1@
                    == members[p].1,
            forall|p: int, q: int|
                0 <= p < q < entries@.len() ==> (#[trigger] entries@[p]).0@ != (#[trigger] entries@[q]).0@,
            env_members(out) == members.take(i as int),
        decreases entries@.len() - i,
    {
        let ghost before = env_members(out);
        proof {
            let key = entries@[i as int].0@;
            assert forall|p: int| 0 <= p < names_of(before).len() implies names_of(before)[p] != key by {
                assert(before[p] == members[p]);
                assert(entries@[p].0@ != entries@[i as int].0@);
            }
            if names_of(before).contains(key) {
                let p = choose|p: int| 0 <= p < names_of(before).len() && names_of(before)[p] == key;
                assert(false);
            }
            lemma_without_name(before, key);
        }
        env_insert(&mut out, entries[i].0.clone(), entries[i].1.duplicate());
        proof {
            assert(members.take(i + 1) =~= members.take(i as int).push(members[i as int]));
        }
        i += 1;
    }
    proof {
        assert(members.take(members.len() as int) =~= members);
    }
    out
}

impl<'a> BirbRenderContext<&'a StrMap<Json>, &'a StrMap<Json>> {
    /// The context as the object that templates are rendered over.
    pub fn to_json(&self) -> (r: Json)
        ensures
            r@ == render_context(*self.args, *self.env),
    {
        let args = map_to_json(self.args);
        let env = map_to_json(self.env);
        let mut members: Vec<(String, Json)> = Vec::new();
        members.push((String::from_str("args"), args));
        members.push((String::from_str("env"), env));
        proof {
            Json::lemma_object_view(members);
            assert(json_members_view(members@) =~= seq![
                ("args"@, JsonView::Object(map_members(*self.args))),
                ("env"@, JsonView::Object(map_members(*self.env))),
            ]);
        }
        Json::Object(members)
    }
}

} // verus!
