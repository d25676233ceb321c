//! The manifest tree of one backup and its depth-first walk.
use vstd::prelude::*;

use crate::identifier::SingleHashIdentifier;
use crate::index::NameIndex;

verus! {

/// An associative collection decoded from the object stream: entries in stream
/// order, each key at most once (see `keys_unique`).
pub type JavaHashMap<K, V> = Vec<(K, V)>;

/// The views of the keys.
pub open spec fn keys_of<V>(entries: Seq<(String, V)>) -> Seq<Seq<char>> {
    entries.map_values(|e: (String, V)| e.0@)
}

/// No key occurs twice.
pub open spec fn keys_unique<V>(entries: Seq<(String, V)>) -> bool {
    forall|i: int, j: int| 0 <= i < j < entries.len() ==> entries[i].0@ != entries[j].0@
}

/// Sets the value of `key`: an entry with that key keeps its place and takes
/// the new value, otherwise the pair goes at the end.
pub fn map_insert<V>(map: &mut JavaHashMap<String, V>, key: String, value: V)
    requires
        keys_unique(old(map)@),
    ensures
        keys_unique(final(map)@),
        match keys_of(old(map)@).index_of_first(key@) {
            Some(i) => final(map)@ == old(map)@.update(i, (key, value)),
            None => final(map)@ == old(map)@.push((key, value)),
        },
{
    let n = map.len();
    let mut i: usize = 0;
    while i < n
        invariant
            n == map@.len(),
            i <= n,
            map@ == old(map)@,
            keys_unique(old(map)@),
            forall|j: int| 0 <= j < i ==> map@[j].0@ != key@,
        decreases n - i,
    {
        if map[i].0 == key {
            proof {
                let ks = keys_of(old(map)@);
                assert(ks[i as int] == key@);
                assert(forall|j: int| 0 <= j < i ==> ks[j] != key@);
                lemma_first_index(ks, key@, i as int);
            }
            map.set(i, (key, value));
            return;
        }
        i = i + 1;
    }
    proof {
        let ks = keys_of(old(map)@);
        assert(!ks.contains(key@)) by {
            if ks.contains(key@) {
                let j = choose|j: int| 0 <= j < ks.len() && ks[j] == key@;
                assert(map@[j].0@ == key@);
            }
        }
        ks.index_of_first_ensures(key@);
    }
    map.push((key, value));
}

proof fn lemma_first_index(ks: Seq<Seq<char>>, k: Seq<char>, i: int)
    requires
        0 <= i < ks.len(),
        ks[i] == k,
        forall|j: int| 0 <= j < i ==> ks[j] != k,
    ensures
        ks.index_of_first(k) == Some(i),
{
    ks.index_of_first_ensures(k);
    assert(ks.contains(k));
}

/// A leaf of the tree: one named reference to a content object.
#[derive(Debug)]
pub struct ObjectElement {
    pub name: String,
    pub identifier: SingleHashIdentifier,
}

/// A node of the tree: its elements and its sub-collections, each keyed by name.
#[derive(Debug)]
pub struct ObjectCollection2 {
    pub name: String,
    pub elements: JavaHashMap<String, ObjectElement>,
    pub sub_collections: JavaHashMap<String, ObjectCollection2>,
}

/// One decoded backup manifest.
#[derive(Debug)]
pub struct SavedIncBackupV1 {
    pub object_collection2: ObjectCollection2,
    pub backup_name: String,
    pub total_size_bytes: i64,
    pub increased_size_bytes: i64,
    pub files_added: i32,
    pub total_files: i32,
}

/// The canonical names of the elements of one node, in entry order.
pub open spec fn element_names(es: Seq<(String, ObjectElement)>) -> Seq<Seq<char>> {
    es.map_values(|e: (String, ObjectElement)| e.1.identifier.name())
}

/// The depth-first walk of a collection: its own elements, then the walk of
/// each sub-collection in entry order.
pub open spec fn walk(c: ObjectCollection2) -> Seq<Seq<char>>
    decreases c, c.sub_collections@.len() + 1,
{
    element_names(c.elements@) + walk_subs(c, 0)
}

/// The walks of the sub-collections of `c` from the `i`-th on, one after another.
pub open spec fn walk_subs(c: ObjectCollection2, i: int) -> Seq<Seq<char>>
    decreases c, c.sub_collections@.len() - i,
{
    if 0 <= i < c.sub_collections@.len() {
        walk(c.sub_collections@[i].1) + walk_subs(c, i + 1)
    } else {
        Seq::empty()
    }
}

/// The node that a path of sub-collection positions leads to from `c`.
pub open spec fn node_at(c: ObjectCollection2, path: Seq<int>) -> Option<ObjectCollection2>
    decreases path.len(),
{
    if path.len() == 0 {
        Some(c)
    } else if 0 <= path[0] < c.sub_collections@.len() {
        node_at(c.sub_collections@[path[0]].1, path.drop_first())
    } else {
        None
    }
}

/// The number of elements in the tree, over all its nodes.
pub open spec fn element_total(c: ObjectCollection2) -> nat
    decreases c, c.sub_collections@.len() + 1,
{
    c.elements@.len() + subs_total(c, 0)
}

pub open spec fn subs_total(c: ObjectCollection2, i: int) -> nat
    decreases c, c.sub_collections@.len() - i,
{
    if 0 <= i < c.sub_collections@.len() {
        element_total(c.sub_collections@[i].1) + subs_total(c, i + 1)
    } else {
        0
    }
}

proof fn lemma_walk_len(c: ObjectCollection2)
    ensures
        walk(c).len() == element_total(c),
    decreases c, c.sub_collections@.len() + 1,
{
    lemma_walk_subs_len(c, 0);
}

proof fn lemma_walk_subs_len(c: ObjectCollection2, i: int)
    ensures
        walk_subs(c, i).len() == subs_total(c, i),
    decreases c, c.sub_collections@.len() - i,
{
    if 0 <= i < c.sub_collections@.len() {
        lemma_walk_len(c.sub_collections@[i].1);
        lemma_walk_subs_len(c, i + 1);
    }
}

proof fn lemma_walk_subs_holds(c: ObjectCollection2, i: int, k: int, x: Seq<char>)
    requires
        0 <= i <= k < c.sub_collections@.len(),
        walk(c.sub_collections@[k].1).contains(x),
    ensures
        walk_subs(c, i).contains(x),
    decreases k - i,
{
    let w = walk(c.sub_collections@[i].1);
    let rest = walk_subs(c, i + 1);
    assert(walk_subs(c, i) == w + rest);
    if i == k {
        let j = choose|j: int| 0 <= j < w.len() && w[j] == x;
        assert((w + rest)[j] == x);
    } else {
        lemma_walk_subs_holds(c, i + 1, k, x);
        let j = choose|j: int| 0 <= j < rest.len() && rest[j] == x;
        assert((w + rest)[w.len() + j] == x);
    }
}

/// Walking a tree yields every element of every node once per occurrence: the
/// walk holds the canonical name of each element of each node that a path leads
/// to, and it is exactly as long as the tree has elements.
pub proof fn lemma_walk_complete(c: ObjectCollection2, path: Seq<int>, i: int)
    requires
        node_at(c, path) is Some,
        0 <= i < node_at(c, path)->Some_0.elements@.len(),
    ensures
        walk(c).contains(node_at(c, path)->Some_0.elements@[i].1.identifier.name()),
        walk(c).len() == element_total(c),
    decreases path.len(),
{
    lemma_walk_len(c);
    let n = node_at(c, path)->Some_0;
    let x = n.elements@[i].1.identifier.name();
    let own = element_names(c.elements@);
    if path.len() == 0 {
        assert(own[i] == x);
        assert(walk(c)[i] == x);
    } else {
        let k = path[0];
        let child = c.sub_collections@[k].1;
        lemma_walk_complete(child, path.drop_first(), i);
        lemma_walk_subs_holds(c, 0, k, x);
        let j = choose|j: int| 0 <= j < walk_subs(c, 0).len() && walk_subs(c, 0)[j] == x;
        assert(walk(c)[own.len() + j] == x);
    }
}

/// The views of a vector of strings.
pub open spec fn views(v: Seq<String>) -> Seq<Seq<char>> {
    v.map_values(|s: String| s@)
}

/// Appends the canonical name of every element reachable from `coll`, depth first:
/// the elements of a node before those of its sub-collections.
pub fn traverse_all(coll: &ObjectCollection2, out: &mut Vec<String>)
    ensures
        views(final(out)@) == views(old(out)@) + walk(*coll),
    decreases coll,
{
    let es = &coll.elements;
    let mut i: usize = 0;
    while i < es.len()
        invariant
            es == &coll.elements,
            i <= es@.len(),
            views(out@) == views(old(out)@) + element_names(es@.take(i as int)),
        decreases es@.len() - i,
    {
        let ghost prev = out@;
        let s = es[i].1.identifier.to_string();
        out.push(s);
        proof {
            assert(views(out@) =~= views(prev).push(es@[i as int].1.identifier.name()));
            assert(element_names(es@.take(i + 1)) =~= element_names(es@.take(i as int)).push(
                es@[i as int].1.identifier.name(),
            ));
        }
        i = i + 1;
        assert(views(out@) =~= views(old(out)@) + element_names(es@.take(i as int)));
    }
    assert(es@.take(i as int) =~= es@);
    let subs = &coll.sub_collections;
    let mut j: usize = 0;
    let ghost mid = out@;
    while j < subs.len()
        invariant
            subs == &coll.sub_collections,
            j <= subs@.len(),
            views(mid) == views(old(out)@) + element_names(es@),
            es@ == coll.elements@,
            views(out@) + walk_subs(*coll, j as int) == views(mid) + walk_subs(*coll, 0),
        decreases subs@.len() - j,
    {
        let ghost before = out@;
        traverse_all(&subs[j].1, out);
        assert(walk_subs(*coll, j as int) == walk(subs@[j as int].1) + walk_subs(*coll, j + 1));
        assert(views(out@) + walk_subs(*coll, j + 1) =~= views(before) + walk_subs(*coll, j as int));
        j = j + 1;
    }
    assert(walk_subs(*coll, j as int) =~= Seq::empty());
    assert(views(out@) =~= views(old(out)@) + walk(*coll));
}

/// The canonical names of every object that a manifest references, depth first.
pub fn collect_kbi_objects(backup: &SavedIncBackupV1) -> (r: Vec<String>)
    ensures
        views(r@) == walk(backup.object_collection2),
{
    let mut out: Vec<String> = Vec::new();
    traverse_all(&backup.object_collection2, &mut out);
    assert(views(out@) =~= walk(backup.object_collection2));
    out
}

proof fn lemma_push_contains(s: Seq<Seq<char>>, a: Seq<char>, y: Seq<char>)
    ensures
        s.push(a).contains(y) <==> (s.contains(y) || y == a),
{
    if s.contains(y) {
        let j = choose|j: int| 0 <= j < s.len() && s[j] == y;
        assert(s.push(a)[j] == y);
    }
    if y == a {
        assert(s.push(a)[s.len() as int] == y);
    }
    if s.push(a).contains(y) {
        let j = choose|j: int| 0 <= j < s.push(a).len() && s.push(a)[j] == y;
        if j < s.len() {
            assert(s[j] == y);
        }
    }
}

/// Takes in the names of `names` that `seen` does not hold yet, each once, and
/// returns them.
pub fn add_unseen(seen: &mut NameIndex, names: &Vec<String>) -> (fresh: Vec<String>)
    requires
        old(seen).wf(),
    ensures
        final(seen).wf(),
        final(seen).view() == old(seen).view() + views(fresh@),
        views(fresh@).no_duplicates(),
        forall|x: Seq<char>|
            views(fresh@).contains(x) <==> (views(names@).contains(x) && !old(seen).view().contains(x)),
{
    let mut fresh: Vec<String> = Vec::new();
    let mut i: usize = 0;
    while i < names.len()
        invariant
            seen.wf(),
            i <= names@.len(),
            seen.view() == old(seen).view() + views(fresh@),
            views(fresh@).no_duplicates(),
            forall|x: Seq<char>|
                views(fresh@).contains(x) <==> (views(names@.take(i as int)).contains(x)
                    && !old(seen).view().contains(x)),
        decreases names@.len() - i,
    {
        let ghost f0 = fresh@;
        let ghost s0 = seen.view();
        let ghost x = names@[i as int]@;
        assert(views(names@.take(i + 1)) =~= views(names@.take(i as int)).push(x));
        if seen.find(&names[i]).is_none() {
            assert(!views(fresh@).contains(x)) by {
                if views(fresh@).contains(x) {
                    let j = choose|j: int| 0 <= j < views(fresh@).len() && views(fresh@)[j] == x;
                    assert(seen.view()[old(seen).view().len() + j] == x);
                }
            }
            assert(!old(seen).view().contains(x)) by {
                if old(seen).view().contains(x) {
                    let j = choose|j: int| 0 <= j < old(seen).view().len() && old(seen).view()[j] == x;
                    assert(seen.view()[j] == x);
                }
            }
            fresh.push(names[i].clone());
            seen.push(names[i].clone());
            assert(views(fresh@) =~= views(f0).push(x));
            assert(seen.view() =~= s0.push(x));
            assert(seen.view() =~= old(seen).view() + views(fresh@));
        } else {
            assert(seen.view().contains(x));
            assert(views(fresh@).contains(x) || old(seen).view().contains(x)) by {
                let j = choose|j: int| 0 <= j < seen.view().len() && seen.view()[j] == x;
                if j < old(seen).view().len() {
                    assert(old(seen).view()[j] == x);
                } else {
                    assert(views(fresh@)[j - old(seen).view().len()] == x);
                }
            }
        }
        proof {
            let t0 = views(names@.take(i as int));
            assert forall|y: Seq<char>|
                views(fresh@).contains(y) <==> (#[trigger] t0.push(x).contains(y) && !old(seen).view().contains(y)) by {
                lemma_push_contains(t0, x, y);
                lemma_push_contains(views(f0), x, y);
            }
        }
        i = i + 1;
    }
    assert(names@.take(i as int) =~= names@);
    fresh
}

} // verus!
