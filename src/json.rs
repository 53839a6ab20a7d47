use vstd::prelude::*;

verus! {

/// A parsed document tree: the shape that YAML and JSON decode to.
#[derive(Debug, PartialEq, Eq)]
pub enum Json {
    Null,
    Bool(bool),
    /// A number, kept in its textual form: nothing here computes with it.
    Number(String),
    Str(String),
    Array(Vec<Json>),
    /// Key/value pairs in document order.
    Object(Vec<(String, Json)>),
}

/// The mathematical model of a [`Json`] tree.
pub enum Tree {
    Null,
    Bool(bool),
    Number(Seq<char>),
    Str(Seq<char>),
    Array(Seq<Tree>),
    Object(Seq<(Seq<char>, Tree)>),
}

pub open spec fn items_view(s: Seq<Json>) -> Seq<Tree>
    decreases s,
{
    if s.len() == 0 {
        Seq::empty()
    } else {
        items_view(s.subrange(0, s.len() - 1)).push(s[s.len() - 1].view())
    }
}

pub open spec fn entries_view(s: Seq<(String, Json)>) -> Seq<(Seq<char>, Tree)>
    decreases s,
{
    if s.len() == 0 {
        Seq::empty()
    } else {
        let e = s[s.len() - 1];
        entries_view(s.subrange(0, s.len() - 1)).push((e.0@, e.1.view()))
    }
}

impl View for Json {
    type V = Tree;

    open spec fn view(&self) -> Tree
        decreases *self,
    {
        match self {
            Json::Null => Tree::Null,
            Json::Bool(b) => Tree::Bool(*b),
            Json::Number(n) => Tree::Number(n@),
            Json::Str(s) => Tree::Str(s@),
            Json::Array(v) => Tree::Array(items_view(v@)),
            Json::Object(v) => Tree::Object(entries_view(v@)),
        }
    }
}

pub proof fn lemma_items_view(s: Seq<Json>)
    ensures
        items_view(s).len() == s.len(),
        forall|i: int| 0 <= i < s.len() ==> #[trigger] items_view(s)[i] == s[i]@,
    decreases s.len(),
{
    if s.len() > 0 {
        let t = s.subrange(0, s.len() - 1);
        lemma_items_view(t);
        assert(items_view(s) == items_view(t).push(s[s.len() - 1]@));
        assert forall|i: int| 0 <= i < s.len() implies #[trigger] items_view(s)[i] == s[i]@ by {
            if i < s.len() - 1 {
                assert(t[i] == s[i]);
            }
        }
    }
}

pub proof fn lemma_entries_view(s: Seq<(String, Json)>)
    ensures
        entries_view(s).len() == s.len(),
        forall|i: int|
            0 <= i < s.len() ==> #[trigger] entries_view(s)[i] == (s[i].0@, s[i].1@),
    decreases s.len(),
{
    if s.len() > 0 {
        let t = s.subrange(0, s.len() - 1);
        lemma_entries_view(t);
        assert(entries_view(s) == entries_view(t).push((s[s.len() - 1].0@, s[s.len() - 1].1@)));
        assert forall|i: int| 0 <= i < s.len() implies #[trigger] entries_view(s)[i] == (
        s[i].0@, s[i].1@) by {
            if i < s.len() - 1 {
                assert(t[i] == s[i]);
            }
        }
    }
}

/// The value under the first entry whose key is `k`.
pub open spec fn lookup<V>(es: Seq<(Seq<char>, V)>, k: Seq<char>) -> Option<V>
    decreases es.len(),
{
    if es.len() == 0 {
        None
    } else if es[0].0 == k {
        Some(es[0].1)
    } else {
        lookup(es.subrange(1, es.len() as int), k)
    }
}

/// Whether some entry has the key `k`.
pub open spec fn has_key<V>(es: Seq<(Seq<char>, V)>, k: Seq<char>) -> bool {
    exists|i: int| 0 <= i < es.len() && #[trigger] es[i].0 == k
}

pub proof fn lemma_lookup_some<V>(es: Seq<(Seq<char>, V)>, k: Seq<char>)
    ensures
        lookup(es, k) is Some <==> has_key(es, k),
        lookup(es, k) matches Some(v) ==> exists|i: int|
            0 <= i < es.len() && #[trigger] es[i] == (k, v),
    decreases es.len(),
{
    if es.len() > 0 {
        let t = es.subrange(1, es.len() as int);
        lemma_lookup_some(t, k);
        if es[0].0 != k {
            if has_key(es, k) {
                let i = choose|i: int| 0 <= i < es.len() && #[trigger] es[i].0 == k;
                assert(t[i - 1].0 == k);
            }
            if lookup(es, k) is Some {
                let v = lookup(es, k)->0;
                let j = choose|j: int| 0 <= j < t.len() && #[trigger] t[j] == (k, v);
                assert(es[j + 1] == (k, v));
            }
        } else {
            assert(es[0] == (k, es[0].1));
        }
    }
}

/// Index of the first entry with key `k`, if any, in a vector of pairs.
pub fn find_key<V>(es: &Vec<(String, V)>, k: &String) -> (r: Option<usize>)
    ensures
        match r {
            Some(i) => i < es@.len() && es@[i as int].0@ == k@ && forall|j: int|
                0 <= j < i ==> (#[trigger] es@[j]).0@ != k@,
            None => forall|j: int| 0 <= j < es@.len() ==> (#[trigger] es@[j]).0@ != k@,
        },
{
    let mut i: usize = 0;
    while i < es.len()
        invariant
            i <= es@.len(),
            forall|j: int| 0 <= j < i ==> (#[trigger] es@[j]).0@ != k@,
        decreases es@.len() - i,
    {
        if es[i].0 == *k {
            return Some(i);
        }
        i = i + 1;
    }
    None
}

/// Lookup over the keys of a sequence, given the index of the first match.
pub proof fn lemma_lookup_first<V>(es: Seq<(Seq<char>, V)>, k: Seq<char>, i: int)
    requires
        0 <= i <= es.len(),
        forall|j: int| 0 <= j < i ==> (#[trigger] es[j]).0 != k,
        i < es.len() ==> es[i].0 == k,
    ensures
        i < es.len() ==> lookup(es, k) == Some(es[i].1),
        i == es.len() ==> lookup(es, k) is None,
    decreases i,
{
    if i > 0 {
        let t = es.subrange(1, es.len() as int);
        assert forall|j: int| 0 <= j < i - 1 implies (#[trigger] t[j]).0 != k by {
            assert(t[j] == es[j + 1]);
        }
        lemma_lookup_first(t, k, i - 1);
    }
}

impl Json {
    /// A copy of the whole tree.
    #[verifier::loop_isolation(false)]
    pub fn copy(&self) -> (r: Json)
        ensures
            r@ == self@,
        decreases *self,
    {
        match self {
            Json::Null => Json::Null,
            Json::Bool(b) => Json::Bool(*b),
            Json::Number(n) => Json::Number(n.clone()),
            Json::Str(s) => Json::Str(s.clone()),
            Json::Array(v) => {
                let mut out: Vec<Json> = Vec::new();
                let mut i: usize = 0;
                while i < v.len()
                    invariant
                        i <= v@.len(),
                        out@.len() == i,
                        items_view(out@) == items_view(v@.subrange(0, i as int)),
                    decreases v@.len() - i,
                {
                    proof {
                        assert(decreases_to!(*v => v@));
                        assert(decreases_to!(v@ => v@[i as int]));
                        assert(decreases_to!(*self => v@[i as int]));
                    }
                    let c = v[i].copy();
                    proof {
                        let s = v@.subrange(0, i + 1);
                        assert(s.subrange(0, i as int) =~= v@.subrange(0, i as int));
                        assert(out@.push(c).subrange(0, i as int) =~= out@);
                    }
                    out.push(c);
                    i = i + 1;
                }
                assert(v@.subrange(0, v@.len() as int) =~= v@);
                Json::Array(out)
            },
            Json::Object(v) => {
                let mut out: Vec<(String, Json)> = Vec::new();
                let mut i: usize = 0;
                while i < v.len()
                    invariant
                        i <= v@.len(),
                        out@.len() == i,
                        entries_view(out@) == entries_view(v@.subrange(0, i as int)),
                    decreases v@.len() - i,
                {
                    proof {
                        assert(decreases_to!(*v => v@));
                        assert(decreases_to!(v@ => v@[i as int]));
                        assert(decreases_to!(v@[i as int] => v@[i as int].1));
                    }
                    let c = v[i].1.copy();
                    let k = v[i].0.clone();
                    proof {
                        let s = v@.subrange(0, i + 1);
                        assert(s.subrange(0, i as int) =~= v@.subrange(0, i as int));
                        assert(out@.push((k, c)).subrange(0, i as int) =~= out@);
                    }
                    out.push((k, c));
                    i = i + 1;
                }
                assert(v@.subrange(0, v@.len() as int) =~= v@);
                Json::Object(out)
            },
        }
    }

    /// The value under `key`, when this is an object that has it.
    pub fn get(&self, key: &String) -> (r: Option<&Json>)
        ensures
            match self@ {
                Tree::Object(es) => match r {
                    Some(v) => lookup(es, key@) == Some(v@),
                    None => lookup(es, key@) is None,
                },
                _ => r is None,
            },
    {
        match self {
            Json::Object(v) => {
                let found = find_key(v, key);
                proof {
                    lemma_entries_view(v@);
                    let ev = entries_view(v@);
                    let i: int = match found { Some(i) => i as int, None => v@.len() as int };
                    assert forall|j: int| 0 <= j < i implies (#[trigger] ev[j]).0 != key@ by {
                        assert(ev[j].0 == v@[j].0@);
                    }
                    lemma_lookup_first(ev, key@, i);
                }
                match found {
                    Some(i) => Some(&v[i].1),
                    None => None,
                }
            },
            _ => None,
        }
    }
}

/// Position of the first entry with key `k`, or the number of entries.
pub open spec fn key_index<V>(es: Seq<(Seq<char>, V)>, k: Seq<char>) -> int
    decreases es.len(),
{
    if es.len() == 0 {
        0
    } else if es[0].0 == k {
        0
    } else {
        1 + key_index(es.subrange(1, es.len() as int), k)
    }
}

/// The entries with `k` set to `v`: replaced in place, or added at the end.
pub open spec fn put(es: Seq<(Seq<char>, Tree)>, k: Seq<char>, v: Tree) -> Seq<(Seq<char>, Tree)> {
    let i = key_index(es, k);
    if 0 <= i < es.len() {
        es.update(i, (k, v))
    } else {
        es.push((k, v))
    }
}

pub proof fn lemma_key_index<V>(es: Seq<(Seq<char>, V)>, k: Seq<char>, i: int)
    requires
        0 <= i <= es.len(),
        forall|j: int| 0 <= j < i ==> (#[trigger] es[j]).0 != k,
        i < es.len() ==> es[i].0 == k,
    ensures
        key_index(es, k) == i,
    decreases i,
{
    if i > 0 {
        let t = es.subrange(1, es.len() as int);
        assert forall|j: int| 0 <= j < i - 1 implies (#[trigger] t[j]).0 != k by {
            assert(t[j] == es[j + 1]);
        }
        lemma_key_index(t, k, i - 1);
    }
}

/// Sets `k` to `v` among the entries (see [`put`]).
pub fn put_entry(es: &mut Vec<(String, Json)>, k: String, v: Json)
    ensures
        entries_view(final(es)@) == put(entries_view(old(es)@), k@, v@),
{
    let ghost ev = entries_view(es@);
    proof {
        lemma_entries_view(es@);
    }
    let found = find_key(es, &k);
    proof {
        let i: int = match found {
            Some(i) => i as int,
            None => es@.len() as int,
        };
        assert forall|j: int| 0 <= j < i implies (#[trigger] ev[j]).0 != k@ by {
            assert(ev[j].0 == es@[j].0@);
        }
        lemma_key_index(ev, k@, i);
    }
    match found {
        Some(i) => {
            let ghost kv = k@;
            let ghost vv = v@;
            es.set(i, (k, v));
            proof {
                lemma_entries_view(es@);
                assert(entries_view(es@) =~= ev.update(i as int, (kv, vv)));
            }
        },
        None => {
            let ghost kv = k@;
            let ghost vv = v@;
            es.push((k, v));
            proof {
                lemma_entries_view(es@);
                assert(entries_view(es@) =~= ev.push((kv, vv)));
            }
        },
    }
}

pub open spec fn keys_of<V>(es: Seq<(Seq<char>, V)>) -> Seq<Seq<char>> {
    es.map_values(|e: (Seq<char>, V)| e.0)
}

pub proof fn lemma_key_index_range<V>(es: Seq<(Seq<char>, V)>, k: Seq<char>)
    ensures
        0 <= key_index(es, k) <= es.len(),
    decreases es.len(),
{
    if es.len() > 0 && es[0].0 != k {
        lemma_key_index_range(es.subrange(1, es.len() as int), k);
    }
}

/// Where `k` was set, lookup gives the new value; elsewhere nothing changes.
pub proof fn lemma_put_lookup(es: Seq<(Seq<char>, Tree)>, k: Seq<char>, v: Tree, k2: Seq<char>)
    ensures
        lookup(put(es, k, v), k2) == if k2 == k {
            Some(v)
        } else {
            lookup(es, k2)
        },
    decreases es.len(),
{
    let p = put(es, k, v);
    if es.len() == 0 {
        assert(p =~= seq![(k, v)]);
        assert(p[0] == (k, v));
        assert(p.subrange(1, 1) =~= Seq::<(Seq<char>, Tree)>::empty());
        assert(lookup(p.subrange(1, 1), k2) is None);
        assert(lookup(p, k2) == if k2 == k { Some(v) } else { lookup(es, k2) });
    } else if es[0].0 == k {
        assert(key_index(es, k) == 0);
        assert(p == es.update(0, (k, v)));
        assert(p.len() == es.len());
        assert(p[0] == (k, v));
        assert(p.subrange(1, p.len() as int) =~= es.subrange(1, es.len() as int));
        assert(lookup(p, k2) == if k2 == k { Some(v) } else { lookup(es, k2) });
    } else {
        let t = es.subrange(1, es.len() as int);
        lemma_put_lookup(t, k, v, k2);
        lemma_key_index_range(t, k);
        let i = key_index(t, k);
        assert(key_index(es, k) == 1 + i);
        if i < t.len() {
            assert(p == es.update(1 + i, (k, v)));
        } else {
            assert(p == es.push((k, v)));
        }
        assert(p.len() >= 1);
        assert(p[0] == es[0]);
        assert(p.subrange(1, p.len() as int) =~= put(t, k, v));
        assert(lookup(p, k2) == if k2 == k { Some(v) } else { lookup(es, k2) });
    }
}

/// Setting a key keeps every other entry, and the new value stands at the key.
pub proof fn lemma_put_entries(es: Seq<(Seq<char>, Tree)>, k: Seq<char>, v: Tree)
    ensures
        forall|i: int|
            0 <= i < put(es, k, v).len() ==> #[trigger] put(es, k, v)[i] == (k, v) || (
            i < es.len() && put(es, k, v)[i] == es[i]),
{
}

/// Every object in `t` has distinct keys, all the way down.
pub open spec fn well_formed(t: Tree) -> bool
    decreases t,
{
    match t {
        Tree::Array(xs) => forall|i: int| 0 <= i < xs.len() ==> well_formed(#[trigger] xs[i]),
        Tree::Object(es) => keys_of(es).no_duplicates() && forall|i: int|
            0 <= i < es.len() ==> well_formed(#[trigger] es[i].1),
        _ => true,
    }
}

proof fn lemma_wf_item(xs: Seq<Tree>, i: int)
    requires
        0 <= i < xs.len(),
        !well_formed(xs[i]),
    ensures
        !well_formed(Tree::Array(xs)),
{
    let t = Tree::Array(xs);
    assert(decreases_to!(t => t->Array_0));
    assert(decreases_to!(xs => xs[i]));
}

proof fn lemma_wf_entry(es: Seq<(Seq<char>, Tree)>, i: int)
    requires
        0 <= i < es.len(),
        !well_formed(es[i].1),
    ensures
        !well_formed(Tree::Object(es)),
{
    let t = Tree::Object(es);
    assert(decreases_to!(t => t->Object_0));
    assert(decreases_to!(es => es[i]));
    assert(decreases_to!(es[i] => es[i].1));
}

impl Json {
    /// Whether every object in the tree has distinct keys.
    #[verifier::loop_isolation(false)]
    pub fn well_formed(&self) -> (r: bool)
        ensures
            r == well_formed(self@),
        decreases *self,
    {
        match self {
            Json::Array(v) => {
                proof {
                    lemma_items_view(v@);
                }
                let ghost iv = items_view(v@);
                let mut i: usize = 0;
                while i < v.len()
                    invariant
                        i <= v@.len(),
                        forall|j: int| 0 <= j < i ==> well_formed(#[trigger] iv[j]),
                    decreases v@.len() - i,
                {
                    proof {
                        assert(decreases_to!(*v => v@));
                        assert(decreases_to!(v@ => v@[i as int]));
                    }
                    if !v[i].well_formed() {
                        assert(!well_formed(iv[i as int]));
                        assert(self@ == Tree::Array(iv));
                        assert(i < iv.len());
                        proof {
                            lemma_wf_item(iv, i as int);
                        }
                        return false;
                    }
                    i = i + 1;
                }
                true
            },
            Json::Object(v) => {
                proof {
                    lemma_entries_view(v@);
                }
                let ghost ev = entries_view(v@);
                let mut i: usize = 0;
                while i < v.len()
                    invariant
                        i <= v@.len(),
                        forall|j: int| 0 <= j < i ==> well_formed(#[trigger] ev[j].1),
                        forall|a: int, b: int| 0 <= a < b < i ==> #[trigger] ev[a].0 != #[trigger] ev[b].0,
                    decreases v@.len() - i,
                {
                    proof {
                        assert(decreases_to!(*v => v@));
                        assert(decreases_to!(v@ => v@[i as int]));
                        assert(decreases_to!(v@[i as int] => v@[i as int].1));
                    }
                    if !v[i].1.well_formed() {
                        assert(!well_formed(ev[i as int].1));
                        proof {
                            lemma_wf_entry(ev, i as int);
                        }
                        return false;
                    }
                    let mut j: usize = 0;
                    while j < i
                        invariant
                            j <= i < v@.len(),
                            forall|a: int| 0 <= a < j ==> ev[a].0 != ev[i as int].0,
                        decreases i - j,
                    {
                        if v[j].0 == v[i].0 {
                            assert(keys_of(ev)[j as int] == keys_of(ev)[i as int]);
                            return false;
                        }
                        j = j + 1;
                    }
                    i = i + 1;
                }
                assert(keys_of(ev).no_duplicates()) by {
                    assert forall|a: int, b: int| 0 <= a < keys_of(ev).len() && 0 <= b < keys_of(ev).len() && a != b implies keys_of(ev)[a] != keys_of(ev)[b] by {
                        if a < b {
                            assert(ev[a].0 != ev[b].0);
                        } else {
                            assert(ev[b].0 != ev[a].0);
                        }
                    }
                }
                true
            },
            _ => true,
        }
    }
}

} // verus!
