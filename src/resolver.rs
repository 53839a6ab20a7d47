use vstd::prelude::*;

use crate::json::{
    entries_view, find_key, has_key, keys_of, well_formed, items_view, lemma_entries_view, lemma_items_view,
    lemma_lookup_first, lemma_lookup_some, lookup, put, put_entry, Json, Tree,
};
use crate::reference::{
    pairs_view, parse_ref, ref_text, strings_view, RefError, RefView, Reference,
};

verus! {

/// What resolution reads: the documents loaded so far (canonical path to
/// tree), the canonical form of each path met so far, and the root file.
pub struct Env {
    pub docs: Seq<(Seq<char>, Tree)>,
    pub paths: Seq<(Seq<char>, Seq<char>)>,
    pub root: Seq<char>,
}

/// The model of a [`ResolveError`].
pub enum Failure {
    ExtraKeys(Seq<Seq<char>>),
    NotAString,
    Malformed(Seq<char>),
    Canonicalize(Seq<char>),
    Load(Seq<char>),
    NoKeys(Seq<char>),
    Cycle(Seq<Seq<char>>),
    NotFound(Seq<char>),
    NotAnObject(Seq<char>),
    Reserved(Seq<char>, Seq<Seq<char>>),
}

/// The child of `t` under key `k`, when `t` is an object that has it.
pub open spec fn step(t: Tree, k: Seq<char>) -> Option<Tree> {
    match t {
        Tree::Object(es) => lookup(es, k),
        _ => None,
    }
}

/// The node that `keys` lead to from `t`, or the position of the first key
/// that is missing.
pub open spec fn walk(t: Tree, keys: Seq<Seq<char>>) -> Result<Tree, int>
    decreases keys.len(),
{
    if keys.len() == 0 {
        Ok(t)
    } else {
        match step(t, keys[0]) {
            Some(c) => match walk(c, keys.subrange(1, keys.len() as int)) {
                Ok(x) => Ok(x),
                Err(j) => Err(j + 1),
            },
            None => Err(0),
        }
    }
}

/// A reference whose file is loaded and whose keys lead somewhere in it.
pub open spec fn valid_ref(docs: Seq<(Seq<char>, Tree)>, r: RefView) -> bool {
    match lookup(docs, r.file) {
        Some(d) => walk(d, r.keys) is Ok,
        None => false,
    }
}

/// A resolution stack: distinct references, each valid.
pub open spec fn valid_stack(docs: Seq<(Seq<char>, Tree)>, s: Seq<RefView>) -> bool {
    &&& s.no_duplicates()
    &&& forall|i: int| 0 <= i < s.len() ==> valid_ref(docs, #[trigger] s[i])
}

/// Every key path that leads somewhere from `t` (with repeats).
pub open spec fn paths(t: Tree) -> Seq<Seq<Seq<char>>>
    decreases t,
{
    match t {
        Tree::Object(es) => seq![Seq::empty()] + entry_paths(es),
        _ => seq![Seq::empty()],
    }
}

pub open spec fn entry_paths(es: Seq<(Seq<char>, Tree)>) -> Seq<Seq<Seq<char>>>
    decreases es,
{
    if es.len() == 0 {
        Seq::empty()
    } else {
        let e = es[es.len() - 1];
        entry_paths(es.subrange(0, es.len() - 1)) + paths(e.1).map_values(
            |p: Seq<Seq<char>>| seq![e.0] + p,
        )
    }
}

/// Every reference that could be valid over `docs` (with repeats).
pub open spec fn all_refs(docs: Seq<(Seq<char>, Tree)>) -> Seq<RefView>
    decreases docs.len(),
{
    if docs.len() == 0 {
        Seq::empty()
    } else {
        let d = docs[0];
        paths(d.1).map_values(|p: Seq<Seq<char>>| RefView { file: d.0, keys: p }) + all_refs(
            docs.subrange(1, docs.len() as int),
        )
    }
}

/// How deep a resolution stack over `docs` can grow.
pub open spec fn bound(docs: Seq<(Seq<char>, Tree)>) -> int {
    all_refs(docs).len() as int
}

pub open spec fn is_reserved(k: Seq<char>) -> bool {
    k == "$ref"@ || k == "$file"@ || k == "$keys"@ || k == "$name"@
}

/// The first reserved key among the entries, in order.
pub open spec fn first_reserved(es: Seq<(Seq<char>, Tree)>) -> Option<Seq<char>>
    decreases es.len(),
{
    if es.len() == 0 {
        None
    } else if is_reserved(es[0].0) {
        Some(es[0].0)
    } else {
        first_reserved(es.subrange(1, es.len() as int))
    }
}

/// The keys other than `$ref`, in order.
pub open spec fn other_keys(es: Seq<(Seq<char>, Tree)>) -> Seq<Seq<char>>
    decreases es.len(),
{
    if es.len() == 0 {
        Seq::empty()
    } else {
        let k = es.last().0;
        let rest = other_keys(es.drop_last());
        if k == "$ref"@ {
            rest
        } else {
            rest.push(k)
        }
    }
}

pub open spec fn str_items(keys: Seq<Seq<char>>) -> Seq<Tree> {
    keys.map_values(|k: Seq<char>| Tree::Str(k))
}

/// A `$ref` object: `$ref` is its only key.
pub open spec fn is_ref_node(es: Seq<(Seq<char>, Tree)>) -> bool {
    has_key(es, "$ref"@) && es.len() == 1
}

/// The first reserved key that a located target defines itself. A target that
/// is a reference object has none: its annotation is replaced.
pub open spec fn own_reserved(t: Tree) -> Option<Seq<char>> {
    match t {
        Tree::Object(es) => if is_ref_node(es) {
            None
        } else {
            first_reserved(es)
        },
        _ => None,
    }
}

/// A resolved reference target with the four annotation keys set: `$ref` to
/// the reference as written, `$file`, `$keys` and `$name` from the reference.
pub open spec fn annotate(es: Seq<(Seq<char>, Tree)>, text: Seq<char>, r: RefView) -> Seq<
    (Seq<char>, Tree),
> {
    put(
        put(
            put(put(es, "$ref"@, Tree::Str(text)), "$file"@, Tree::Str(r.file)),
            "$keys"@,
            Tree::Array(str_items(r.keys)),
        ),
        "$name"@,
        Tree::Str(r.keys.last()),
    )
}

/// The references of a stack, shown.
pub open spec fn chain(s: Seq<RefView>) -> Seq<Seq<char>> {
    s.map_values(|r: RefView| ref_text(r.file, r.keys))
}

/// The file that a reference met at this depth is read in.
pub open spec fn current_file(env: Env, stack: Seq<RefView>) -> Seq<char> {
    if stack.len() == 0 {
        env.root
    } else {
        stack.last().file
    }
}

/// `t` with every reference node replaced by its annotated, resolved target.
pub open spec fn res(env: Env, stack: Seq<RefView>, t: Tree) -> Result<Tree, Failure>
    decreases bound(env.docs) - stack.len(), t,
{
    match t {
        Tree::Array(items) => match res_items(env, stack, items) {
            Ok(xs) => Ok(Tree::Array(xs)),
            Err(e) => Err(e),
        },
        Tree::Object(es) => {
            if has_key(es, "$ref"@) {
                if es.len() != 1 {
                    Err(Failure::ExtraKeys(other_keys(es)))
                } else {
                    res_ref(env, stack, es[0].1)
                }
            } else {
                match res_entries(env, stack, es) {
                    Ok(xs) => Ok(Tree::Object(xs)),
                    Err(e) => Err(e),
                }
            }
        },
        _ => Ok(t),
    }
}

pub open spec fn res_items(env: Env, stack: Seq<RefView>, items: Seq<Tree>) -> Result<
    Seq<Tree>,
    Failure,
>
    decreases bound(env.docs) - stack.len(), items,
{
    if items.len() == 0 {
        Ok(Seq::empty())
    } else {
        match res_items(env, stack, items.subrange(0, items.len() - 1)) {
            Err(e) => Err(e),
            Ok(xs) => match res(env, stack, items[items.len() - 1]) {
                Err(e) => Err(e),
                Ok(x) => Ok(xs.push(x)),
            },
        }
    }
}

pub open spec fn res_entries(env: Env, stack: Seq<RefView>, es: Seq<(Seq<char>, Tree)>) -> Result<
    Seq<(Seq<char>, Tree)>,
    Failure,
>
    decreases bound(env.docs) - stack.len(), es,
{
    if es.len() == 0 {
        Ok(Seq::empty())
    } else {
        let e = es[es.len() - 1];
        match res_entries(env, stack, es.subrange(0, es.len() - 1)) {
            Err(f) => Err(f),
            Ok(xs) => match res(env, stack, e.1) {
                Err(f) => Err(f),
                Ok(x) => Ok(xs.push((e.0, x))),
            },
        }
    }
}

/// A reference node `{"$ref": v}`, resolved.
pub open spec fn res_ref(env: Env, stack: Seq<RefView>, v: Tree) -> Result<Tree, Failure>
    decreases bound(env.docs) - stack.len(), v,
{
    match v {
        Tree::Str(text) => match parse_ref(env.paths, current_file(env, stack), text) {
            Err(Ok(t)) => Err(Failure::Malformed(t)),
            Err(Err(p)) => Err(Failure::Canonicalize(p)),
            Ok(r) => {
                if stack.contains(r) {
                    Err(Failure::Cycle(chain(stack.push(r))))
                } else if r.keys.len() == 0 {
                    Err(Failure::NoKeys(ref_text(r.file, r.keys)))
                } else {
                    match lookup(env.docs, r.file) {
                        None => Err(Failure::Load(r.file)),
                        Some(doc) => match walk(doc, r.keys) {
                            Err(i) => Err(Failure::NotFound(ref_text(r.file, r.keys.subrange(0, i + 1)))),
                            Ok(target) => {
                                if stack.len() >= bound(env.docs) {
                                    // never taken: see `lemma_stack_bound`
                                    Err(Failure::Cycle(chain(stack.push(r))))
                                } else {
                                    match res(env, stack.push(r), target) {
                                        Err(f) => Err(f),
                                        Ok(Tree::Object(es)) => match own_reserved(target) {
                                            Some(k) => Err(Failure::Reserved(k, chain(stack.push(r)))),
                                            None => Ok(Tree::Object(annotate(es, text, r))),
                                        },
                                        Ok(_) => Err(Failure::NotAnObject(ref_text(r.file, r.keys))),
                                    }
                                }
                            },
                        },
                    }
                }
            },
        },
        _ => Err(Failure::NotAString),
    }
}

/// The whole resolution of the root document.
pub open spec fn resolution(env: Env) -> Result<Tree, Failure> {
    match lookup(env.docs, env.root) {
        Some(doc) => res(env, Seq::empty(), doc),
        None => Err(Failure::Load(env.root)),
    }
}

proof fn lemma_entry_paths(es: Seq<(Seq<char>, Tree)>, i: int, p: Seq<Seq<char>>)
    requires
        0 <= i < es.len(),
        paths(es[i].1).contains(p),
    ensures
        entry_paths(es).contains(seq![es[i].0] + p),
    decreases es.len(),
{
    let n = es.len();
    let front = es.subrange(0, n - 1);
    let e = es[n - 1];
    let tail = paths(e.1).map_values(|q: Seq<Seq<char>>| seq![e.0] + q);
    assert(entry_paths(es) == entry_paths(front) + tail);
    if i < n - 1 {
        assert(front[i] == es[i]);
        lemma_entry_paths(front, i, p);
        let j = choose|j: int| 0 <= j < entry_paths(front).len() && entry_paths(front)[j] == seq![es[i].0] + p;
        assert((entry_paths(front) + tail)[j] == seq![es[i].0] + p);
    } else {
        let j = choose|j: int| 0 <= j < paths(e.1).len() && paths(e.1)[j] == p;
        assert((entry_paths(front) + tail)[entry_paths(front).len() + j] == seq![es[i].0] + p);
    }
}

/// Every key path that leads somewhere is listed by `paths`.
proof fn lemma_walk_paths(t: Tree, keys: Seq<Seq<char>>)
    requires
        walk(t, keys) is Ok,
    ensures
        paths(t).contains(keys),
    decreases keys.len(),
{
    if keys.len() == 0 {
        match t {
            Tree::Object(es) => {
                assert(paths(t)[0] == Seq::<Seq<char>>::empty());
            },
            _ => {
                assert(paths(t)[0] == Seq::<Seq<char>>::empty());
            },
        }
        assert(keys =~= Seq::<Seq<char>>::empty());
    } else {
        let rest = keys.subrange(1, keys.len() as int);
        match t {
            Tree::Object(es) => {
                let c = lookup(es, keys[0])->0;
                lemma_walk_paths(c, rest);
                lemma_lookup_some(es, keys[0]);
                let i = choose|i: int| 0 <= i < es.len() && #[trigger] es[i] == (keys[0], c);
                lemma_entry_paths(es, i, rest);
                assert(seq![keys[0]] + rest =~= keys);
                let j = choose|j: int| 0 <= j < entry_paths(es).len() && entry_paths(es)[j] == keys;
                assert(paths(t)[j + 1] == keys);
            },
            _ => {},
        }
    }
}

proof fn lemma_all_refs(docs: Seq<(Seq<char>, Tree)>, r: RefView)
    requires
        valid_ref(docs, r),
    ensures
        all_refs(docs).contains(r),
    decreases docs.len(),
{
    let d = docs[0];
    let head = paths(d.1).map_values(|p: Seq<Seq<char>>| RefView { file: d.0, keys: p });
    let rest = docs.subrange(1, docs.len() as int);
    assert(all_refs(docs) == head + all_refs(rest));
    if d.0 == r.file {
        lemma_walk_paths(d.1, r.keys);
        let j = choose|j: int| 0 <= j < paths(d.1).len() && paths(d.1)[j] == r.keys;
        assert((head + all_refs(rest))[j] == r);
    } else {
        lemma_all_refs(rest, r);
        let j = choose|j: int| 0 <= j < all_refs(rest).len() && all_refs(rest)[j] == r;
        assert((head + all_refs(rest))[head.len() + j] == r);
    }
}

/// A valid stack is no longer than the number of references that can be valid.
pub proof fn lemma_stack_bound(docs: Seq<(Seq<char>, Tree)>, s: Seq<RefView>)
    requires
        valid_stack(docs, s),
    ensures
        s.len() <= bound(docs),
{
    broadcast use vstd::seq_lib::seq_to_set_is_finite;

    let u = all_refs(docs);
    assert forall|r: RefView| s.to_set().contains(r) implies u.to_set().contains(r) by {
        let i = choose|i: int| 0 <= i < s.len() && s[i] == r;
        assert(valid_ref(docs, s[i]));
        lemma_all_refs(docs, r);
    }
    s.unique_seq_to_set();
    vstd::set_lib::lemma_len_subset(s.to_set(), u.to_set());
    u.lemma_cardinality_of_set();
}


/// Why resolution stopped.
#[derive(Debug, PartialEq, Eq)]
pub enum ResolveError {
    /// A `$ref` object with more keys: the others, in order.
    ExtraKeys(Vec<String>),
    /// A `$ref` whose value is not a string.
    NotAString,
    /// A reference text without `#`.
    Malformed(String),
    /// This path has no known canonical form yet: canonicalize it and resolve again.
    Canonicalize(String),
    /// This canonical file is not loaded yet: load it and resolve again.
    Load(String),
    /// A reference with no keys.
    NoKeys(String),
    /// A reference met again while it is being expanded: the chain, in order.
    Cycle(Vec<String>),
    /// A key that is missing: the reference up to that key.
    NotFound(String),
    /// A reference whose resolved target is not an object.
    NotAnObject(String),
    /// A reference target that defines this reserved key itself: the key, and
    /// the chain of references down to that target.
    Reserved(String, Vec<String>),
}

impl View for ResolveError {
    type V = Failure;

    open spec fn view(&self) -> Failure {
        match self {
            ResolveError::ExtraKeys(k) => Failure::ExtraKeys(strings_view(k@)),
            ResolveError::NotAString => Failure::NotAString,
            ResolveError::Malformed(t) => Failure::Malformed(t@),
            ResolveError::Canonicalize(p) => Failure::Canonicalize(p@),
            ResolveError::Load(f) => Failure::Load(f@),
            ResolveError::NoKeys(r) => Failure::NoKeys(r@),
            ResolveError::Cycle(c) => Failure::Cycle(strings_view(c@)),
            ResolveError::NotFound(r) => Failure::NotFound(r@),
            ResolveError::NotAnObject(r) => Failure::NotAnObject(r@),
            ResolveError::Reserved(k, c) => Failure::Reserved(k@, strings_view(c@)),
        }
    }
}

pub open spec fn out_view(r: Result<Json, ResolveError>) -> Result<Tree, Failure> {
    match r {
        Ok(j) => Ok(j@),
        Err(e) => Err(e@),
    }
}

pub open spec fn stack_view(s: Seq<Reference>) -> Seq<RefView> {
    s.map_values(|r: Reference| r@)
}

proof fn lemma_entries_push(s: Seq<(String, Json)>, e: (String, Json))
    ensures
        entries_view(s.push(e)) == entries_view(s).push((e.0@, e.1@)),
{
    assert(s.push(e).subrange(0, s.len() as int) =~= s);
}

proof fn lemma_items_push(s: Seq<Json>, e: Json)
    ensures
        items_view(s.push(e)) == items_view(s).push(e@),
{
    assert(s.push(e).subrange(0, s.len() as int) =~= s);
}

proof fn lemma_items_err(env: Env, stack: Seq<RefView>, items: Seq<Tree>, i: int)
    requires
        0 <= i <= items.len(),
        res_items(env, stack, items.subrange(0, i)) is Err,
    ensures
        res_items(env, stack, items) == res_items(env, stack, items.subrange(0, i)),
    decreases items.len() - i,
{
    if i < items.len() {
        let a = items.subrange(0, i + 1);
        assert(a.subrange(0, i) =~= items.subrange(0, i));
        lemma_items_err(env, stack, items, i + 1);
    } else {
        assert(items.subrange(0, i) =~= items);
    }
}

proof fn lemma_entries_err(env: Env, stack: Seq<RefView>, es: Seq<(Seq<char>, Tree)>, i: int)
    requires
        0 <= i <= es.len(),
        res_entries(env, stack, es.subrange(0, i)) is Err,
    ensures
        res_entries(env, stack, es) == res_entries(env, stack, es.subrange(0, i)),
    decreases es.len() - i,
{
    if i < es.len() {
        let a = es.subrange(0, i + 1);
        assert(a.subrange(0, i) =~= es.subrange(0, i));
        lemma_entries_err(env, stack, es, i + 1);
    } else {
        assert(es.subrange(0, i) =~= es);
    }
}

fn reserved_key(k: &String) -> (r: bool)
    ensures
        r == is_reserved(k@),
{
    *k == String::from_str("$ref") || *k == String::from_str("$file") || *k == String::from_str(
        "$keys",
    ) || *k == String::from_str("$name")
}

/// The first reserved key among the entries, in order.
fn first_reserved_key(es: &Vec<(String, Json)>) -> (r: Option<String>)
    ensures
        match r {
            Some(k) => first_reserved(entries_view(es@)) == Some(k@),
            None => first_reserved(entries_view(es@)) is None,
        },
{
    let ghost ev = entries_view(es@);
    proof {
        lemma_entries_view(es@);
    }
    assert(ev.subrange(0, ev.len() as int) =~= ev);
    let mut i: usize = 0;
    while i < es.len()
        invariant
            ev == entries_view(es@),
            ev.len() == es@.len(),
            forall|j: int| 0 <= j < es@.len() ==> #[trigger] ev[j] == (es@[j].0@, es@[j].1@),
            i <= es@.len(),
            first_reserved(ev) == first_reserved(ev.subrange(i as int, ev.len() as int)),
        decreases es@.len() - i,
    {
        let ghost t = ev.subrange(i as int, ev.len() as int);
        assert(t[0] == ev[i as int]);
        assert(t.subrange(1, t.len() as int) =~= ev.subrange(i + 1, ev.len() as int));
        if reserved_key(&es[i].0) {
            return Some(es[i].0.clone());
        }
        i = i + 1;
    }
    None
}

/// The first reserved key that a located target defines itself (see [`own_reserved`]).
fn own_reserved_key(t: &Json) -> (r: Option<String>)
    ensures
        match r {
            Some(k) => own_reserved(t@) == Some(k@),
            None => own_reserved(t@) is None,
        },
{
    match t {
        Json::Object(es) => {
            let found = find_key(es, &String::from_str("$ref"));
            proof {
                lemma_entries_view(es@);
                let ev = entries_view(es@);
                if let Some(i) = found {
                    assert(ev[i as int].0 == "$ref"@);
                } else if has_key(ev, "$ref"@) {
                    let j = choose|j: int| 0 <= j < ev.len() && #[trigger] ev[j].0 == "$ref"@;
                    assert(ev[j].0 == es@[j].0@);
                }
            }
            if found.is_some() && es.len() == 1 {
                None
            } else {
                first_reserved_key(es)
            }
        },
        _ => None,
    }
}

/// The keys other than `$ref`, in order.
fn other_keys_of(es: &Vec<(String, Json)>) -> (r: Vec<String>)
    ensures
        strings_view(r@) == other_keys(entries_view(es@)),
{
    let ghost ev = entries_view(es@);
    proof {
        lemma_entries_view(es@);
    }
    let r_key = String::from_str("$ref");
    let mut out: Vec<String> = Vec::new();
    let mut i: usize = 0;
    while i < es.len()
        invariant
            r_key@ == "$ref"@,
            ev == entries_view(es@),
            ev.len() == es@.len(),
            forall|j: int| 0 <= j < es@.len() ==> #[trigger] ev[j] == (es@[j].0@, es@[j].1@),
            i <= es@.len(),
            strings_view(out@) == other_keys(ev.subrange(0, i as int)),
        decreases es@.len() - i,
    {
        let ghost before = out@;
        let ghost sub = ev.subrange(0, i + 1);
        assert(sub.drop_last() =~= ev.subrange(0, i as int));
        if es[i].0 != r_key {
            out.push(es[i].0.clone());
            assert(strings_view(out@) =~= strings_view(before).push(es@[i as int].0@));
        }
        i = i + 1;
    }
    assert(ev.subrange(0, ev.len() as int) =~= ev);
    out
}

/// The keys as an array of strings.
fn keys_json(keys: &Vec<String>) -> (r: Vec<Json>)
    ensures
        items_view(r@) == str_items(strings_view(keys@)),
{
    let mut out: Vec<Json> = Vec::new();
    let mut i: usize = 0;
    while i < keys.len()
        invariant
            i <= keys@.len(),
            items_view(out@) == str_items(strings_view(keys@.subrange(0, i as int))),
        decreases keys@.len() - i,
    {
        let x = Json::Str(keys[i].clone());
        proof {
            lemma_items_push(out@, x);
        }
        out.push(x);
        i = i + 1;
        assert(items_view(out@) =~= str_items(strings_view(keys@.subrange(0, i as int))));
    }
    assert(keys@.subrange(0, i as int) =~= keys@);
    out
}

/// The stack with `r` on top, shown.
fn chain_of(stack: &Vec<Reference>, r: &Reference) -> (c: Vec<String>)
    ensures
        strings_view(c@) == chain(stack_view(stack@).push(r@)),
{
    let ghost full = stack_view(stack@).push(r@);
    let mut out: Vec<String> = Vec::new();
    let mut i: usize = 0;
    while i < stack.len()
        invariant
            full == stack_view(stack@).push(r@),
            i <= stack@.len(),
            strings_view(out@) == chain(full.subrange(0, i as int)),
        decreases stack@.len() - i,
    {
        let t = stack[i].to_string();
        let ghost before = out@;
        assert(full[i as int] == stack@[i as int]@);
        out.push(t);
        i = i + 1;
        assert(full.subrange(0, i as int).drop_last() =~= full.subrange(0, i - 1));
        assert(strings_view(out@) =~= strings_view(before).push(t@));
        assert(strings_view(out@) =~= chain(full.subrange(0, i as int)));
    }
    let t = r.to_string();
    let ghost before = out@;
    out.push(t);
    assert(full.subrange(0, i as int) =~= full.drop_last());
    assert(strings_view(out@) =~= strings_view(before).push(t@));
    assert(strings_view(out@) =~= chain(full));
    out
}

/// A resolution session over the documents loaded so far.
///
/// Loading and canonicalizing are left to the caller: when resolution needs a
/// file or a canonical path that is not here yet, it stops with
/// [`ResolveError::Load`] or [`ResolveError::Canonicalize`]; the caller adds it
/// and resolves again.
pub struct Resolver {
    /// The canonical root file.
    pub file: String,
    /// Loaded documents by canonical path, in the order they were loaded.
    pub files: Vec<(String, Json)>,
    /// Canonical form of each path met so far.
    pub paths: Vec<(String, String)>,
}

impl Resolver {
    /// Each file and each path is recorded once, and every document has
    /// distinct keys in each object.
    pub open spec fn wf(&self) -> bool {
        &&& keys_of(self.env().docs).no_duplicates()
        &&& keys_of(self.env().paths).no_duplicates()
        &&& forall|i: int|
            0 <= i < self.env().docs.len() ==> well_formed(#[trigger] self.env().docs[i].1)
    }

    pub open spec fn env(&self) -> Env {
        Env { docs: entries_view(self.files@), paths: pairs_view(self.paths@), root: self.file@ }
    }

    /// A session whose root `file` (canonical) holds `doc`.
    pub fn new(file: String, doc: Json) -> (r: Resolver)
        requires
            well_formed(doc@),
        ensures
            r.wf(),
            r.env() == (Env {
                docs: seq![(file@, doc@)],
                paths: Seq::empty(),
                root: file@,
            }),
    {
        let mut files: Vec<(String, Json)> = Vec::new();
        let root = file.clone();
        proof {
            lemma_entries_push(files@, (root, doc));
        }
        files.push((root, doc));
        let r = Resolver { file, files, paths: Vec::new() };
        assert(r.env().docs =~= seq![(file@, doc@)]);
        assert(r.env().paths =~= Seq::empty());
        assert(keys_of(r.env().docs) =~= seq![file@]);
        assert(keys_of(r.env().paths) =~= Seq::<Seq<char>>::empty());
        r
    }

    /// Records the document of a canonical file; a file already loaded keeps its document.
    pub fn add_file(&mut self, file: String, doc: Json)
        requires
            old(self).wf(),
            well_formed(doc@),
        ensures
            final(self).wf(),
            final(self).file == old(self).file,
            final(self).paths == old(self).paths,
            final(self).env().docs == if has_key(old(self).env().docs, file@) {
                old(self).env().docs
            } else {
                old(self).env().docs.push((file@, doc@))
            },
    {
        proof {
            crate::resolution::loaded_files_stay_distinct(self.env().docs, file@, doc@);
        }
        proof {
            lemma_entries_view(self.files@);
            lemma_lookup_some(self.env().docs, file@);
        }
        match find_key(&self.files, &file) {
            Some(i) => {
                proof {
                    let ev = self.env().docs;
                    assert(ev[i as int].0 == file@);
                }
            },
            None => {
                proof {
                    lemma_entries_push(self.files@, (file, doc));
                    let ev = self.env().docs;
                    if has_key(ev, file@) {
                        let i = choose|i: int| 0 <= i < ev.len() && #[trigger] ev[i].0 == file@;
                        assert(ev[i].0 == self.files@[i].0@);
                    }
                }
                self.files.push((file, doc));
            },
        }
    }

    /// Records the canonical form of a path; a path already known keeps its form.
    pub fn add_path(&mut self, path: String, canonical: String)
        requires
            old(self).wf(),
        ensures
            final(self).wf(),
            final(self).file == old(self).file,
            final(self).files == old(self).files,
            final(self).env().paths == if has_key(old(self).env().paths, path@) {
                old(self).env().paths
            } else {
                old(self).env().paths.push((path@, canonical@))
            },
    {
        proof {
            crate::resolution::loaded_files_stay_distinct(self.env().paths, path@, canonical@);
        }
        match find_key(&self.paths, &path) {
            Some(i) => {
                proof {
                    let pv = self.env().paths;
                    assert(pv[i as int].0 == path@);
                }
            },
            None => {
                proof {
                    let pv = self.env().paths;
                    if has_key(pv, path@) {
                        let i = choose|i: int| 0 <= i < pv.len() && #[trigger] pv[i].0 == path@;
                        assert(pv[i].0 == self.paths@[i].0@);
                    }
                }
                self.paths.push((path, canonical));
                assert(self.env().paths =~= old(self).env().paths.push((path@, canonical@)));
            },
        }
    }

    /// `v` with every reference node below it resolved, given the stack of
    /// references being expanded.
    #[verifier::loop_isolation(false)]
    fn resolve_node(&self, stack: &mut Vec<Reference>, v: &Json) -> (r: Result<Json, ResolveError>)
        requires
            valid_stack(self.env().docs, stack_view(old(stack)@)),
        ensures
            final(stack)@ == old(stack)@,
            out_view(r) == res(self.env(), stack_view(old(stack)@), v@),
        decreases bound(self.env().docs) - old(stack)@.len(), *v,
    {
        let ghost env = self.env();
        let ghost sv = stack_view(stack@);
        proof {
            lemma_stack_bound(env.docs, sv);
        }
        match v {
            Json::Array(items) => {
                proof {
                    lemma_items_view(items@);
                }
                let ghost iv = items_view(items@);
                let mut out: Vec<Json> = Vec::new();
                let mut i: usize = 0;
                assert(res_items(env, sv, iv.subrange(0, 0)) == Ok::<Seq<Tree>, Failure>(items_view(out@)));
                while i < items.len()
                    invariant
                        stack@ == old(stack)@,
                        i <= items@.len(),
                        out@.len() == i,
                        res_items(env, sv, iv.subrange(0, i as int)) == Ok::<Seq<Tree>, Failure>(items_view(out@)),
                    decreases items@.len() - i,
                {
                    proof {
                        assert(decreases_to!(items@ => items@[i as int]));
                    }
                    let x = self.resolve_node(stack, &items[i]);
                    let ghost sub = iv.subrange(0, i + 1);
                    assert(sub.subrange(0, i as int) =~= iv.subrange(0, i as int));
                    assert(sub[i as int] == items@[i as int]@);
                    match x {
                        Err(e) => {
                            proof {
                                lemma_items_err(env, sv, iv, i + 1);
                            }
                            return Err(e);
                        },
                        Ok(j) => {
                            proof {
                                lemma_items_push(out@, j);
                            }
                            out.push(j);
                        },
                    }
                    i = i + 1;
                }
                assert(iv.subrange(0, i as int) =~= iv);
                Ok(Json::Array(out))
            },
            Json::Object(es) => {
                proof {
                    lemma_entries_view(es@);
                }
                let ghost ev = entries_view(es@);
                let r_key = String::from_str("$ref");
                let found = find_key(es, &r_key);
                proof {
                    match found {
                        Some(i) => {
                            assert(ev[i as int].0 == "$ref"@);
                        },
                        None => {
                            if has_key(ev, "$ref"@) {
                                let j = choose|j: int| 0 <= j < ev.len() && #[trigger] ev[j].0 == "$ref"@;
                                assert(ev[j].0 == es@[j].0@);
                            }
                        },
                    }
                }
                if found.is_some() {
                    if es.len() != 1 {
                        return Err(ResolveError::ExtraKeys(other_keys_of(es)));
                    }
                    proof {
                        assert(decreases_to!(es@ => es@[0]));
                        assert(decreases_to!(es@[0] => es@[0].1));
                    }
                    return self.resolve_ref(stack, &es[0].1);
                }
                let mut out: Vec<(String, Json)> = Vec::new();
                let mut i: usize = 0;
                assert(res_entries(env, sv, ev.subrange(0, 0)) == Ok::<Seq<(Seq<char>, Tree)>, Failure>(entries_view(out@)));
                while i < es.len()
                    invariant
                        stack@ == old(stack)@,
                        i <= es@.len(),
                        out@.len() == i,
                        res_entries(env, sv, ev.subrange(0, i as int)) == Ok::<Seq<(Seq<char>, Tree)>, Failure>(entries_view(out@)),
                    decreases es@.len() - i,
                {
                    proof {
                        assert(decreases_to!(es@ => es@[i as int]));
                        assert(decreases_to!(es@[i as int] => es@[i as int].1));
                    }
                    let x = self.resolve_node(stack, &es[i].1);
                    let ghost sub = ev.subrange(0, i + 1);
                    assert(sub.subrange(0, i as int) =~= ev.subrange(0, i as int));
                    assert(sub[i as int] == (es@[i as int].0@, es@[i as int].1@));
                    match x {
                        Err(e) => {
                            proof {
                                lemma_entries_err(env, sv, ev, i + 1);
                            }
                            return Err(e);
                        },
                        Ok(j) => {
                            let k = es[i].0.clone();
                            proof {
                                lemma_entries_push(out@, (k, j));
                            }
                            out.push((k, j));
                        },
                    }
                    i = i + 1;
                }
                assert(ev.subrange(0, i as int) =~= ev);
                Ok(Json::Object(out))
            },
            Json::Null => Ok(Json::Null),
            Json::Bool(b) => Ok(Json::Bool(*b)),
            Json::Number(n) => Ok(Json::Number(n.clone())),
            Json::Str(t) => Ok(Json::Str(t.clone())),
        }
    }

    /// The reference node `{"$ref": v}`, resolved.
    #[verifier::loop_isolation(false)]
    fn resolve_ref(&self, stack: &mut Vec<Reference>, v: &Json) -> (r: Result<Json, ResolveError>)
        requires
            valid_stack(self.env().docs, stack_view(old(stack)@)),
        ensures
            final(stack)@ == old(stack)@,
            out_view(r) == res_ref(self.env(), stack_view(old(stack)@), v@),
        decreases bound(self.env().docs) - old(stack)@.len(), *v,
    {
        let ghost env = self.env();
        let ghost sv = stack_view(stack@);
        let text = match v {
            Json::Str(t) => t,
            _ => {
                return Err(ResolveError::NotAString);
            },
        };
        let current = if stack.len() == 0 {
            self.file.clone()
        } else {
            stack[stack.len() - 1].file.clone()
        };
        assert(current@ == current_file(env, sv));
        let rf = match Reference::new(current.as_str(), text.as_str(), &self.paths) {
            Ok(rf) => rf,
            Err(RefError::Malformed(t)) => {
                return Err(ResolveError::Malformed(t));
            },
            Err(RefError::Canonicalize(p)) => {
                return Err(ResolveError::Canonicalize(p));
            },
        };
        let mut k: usize = 0;
        while k < stack.len()
            invariant
                k <= stack@.len(),
                stack@ == old(stack)@,
                forall|j: int| 0 <= j < k ==> stack@[j]@ != rf@,
            decreases stack@.len() - k,
        {
            if stack[k].same(&rf) {
                assert(sv[k as int] == rf@);
                return Err(ResolveError::Cycle(chain_of(stack, &rf)));
            }
            k = k + 1;
        }
        assert(!sv.contains(rf@)) by {
            if sv.contains(rf@) {
                let j = choose|j: int| 0 <= j < sv.len() && sv[j] == rf@;
                assert(sv[j] == stack@[j]@);
            }
        }
        if rf.keys.len() == 0 {
            return Err(ResolveError::NoKeys(rf.to_string()));
        }
        let found = find_key(&self.files, &rf.file);
        proof {
            lemma_entries_view(self.files@);
            let i: int = match found {
                Some(i) => i as int,
                None => self.files@.len() as int,
            };
            assert forall|j: int| 0 <= j < i implies (#[trigger] env.docs[j]).0 != rf@.file by {
                assert(env.docs[j].0 == self.files@[j].0@);
            }
            lemma_lookup_first(env.docs, rf@.file, i);
        }
        let doc = match found {
            Some(i) => &self.files[i].1,
            None => {
                return Err(ResolveError::Load(rf.file.clone()));
            },
        };
        let ghost keys = rf@.keys;
        let mut cur = doc;
        let mut i: usize = 0;
        assert(keys.subrange(0, keys.len() as int) =~= keys);
        while i < rf.keys.len()
            invariant
                stack@ == old(stack)@,
                keys == rf@.keys,
                i <= keys.len(),
                keys.len() == rf.keys@.len(),
                walk(doc@, keys) == match walk(cur@, keys.subrange(i as int, keys.len() as int)) {
                    Ok(x) => Ok(x),
                    Err(j) => Err::<Tree, int>(j + i),
                },
            decreases keys.len() - i,
        {
            let ghost rest = keys.subrange(i as int, keys.len() as int);
            assert(rest[0] == rf.keys@[i as int]@);
            assert(rest.subrange(1, rest.len() as int) =~= keys.subrange(i + 1, keys.len() as int));
            match cur.get(&rf.keys[i]) {
                Some(c) => {
                    cur = c;
                },
                None => {
                    return Err(ResolveError::NotFound(rf.display(i + 1)));
                },
            }
            i = i + 1;
        }
        assert(keys.subrange(i as int, keys.len() as int) =~= Seq::<Seq<char>>::empty());
        let target = cur.copy();
        proof {
            let s2 = sv.push(rf@);
            assert(valid_ref(env.docs, rf@));
            assert forall|j: int| 0 <= j < s2.len() implies valid_ref(env.docs, #[trigger] s2[j]) by {
                if j < sv.len() {
                    assert(s2[j] == sv[j]);
                }
            }
            assert(s2.no_duplicates()) by {
                assert forall|a: int, b: int| 0 <= a < s2.len() && 0 <= b < s2.len() && a != b implies s2[a] != s2[b] by {
                    if a < sv.len() && b < sv.len() {
                        assert(s2[a] == sv[a] && s2[b] == sv[b]);
                    } else if a < sv.len() {
                        assert(s2[a] == sv[a]);
                    } else if b < sv.len() {
                        assert(s2[b] == sv[b]);
                    }
                }
            }
            lemma_stack_bound(env.docs, s2);
        }
        let shown = rf.to_string();
        let file = rf.file.clone();
        let key_list = keys_json(&rf.keys);
        let name = rf.keys[rf.keys.len() - 1].clone();
        let ghost rv = rf@;
        stack.push(rf);
        assert(stack_view(stack@) =~= sv.push(rv));
        let out = self.resolve_node(stack, &target);
        // Takes back the reference pushed above.
        let rf = stack.pop().unwrap();
        assert(stack@ =~= old(stack)@);
        match out {
            Err(e) => Err(e),
            Ok(Json::Object(es)) => {
                match own_reserved_key(&target) {
                    Some(k) => {
                        return Err(ResolveError::Reserved(k, chain_of(stack, &rf)));
                    },
                    None => {},
                }
                let mut es = es;
                put_entry(&mut es, String::from_str("$ref"), Json::Str(text.clone()));
                put_entry(&mut es, String::from_str("$file"), Json::Str(file));
                put_entry(&mut es, String::from_str("$keys"), Json::Array(key_list));
                put_entry(&mut es, String::from_str("$name"), Json::Str(name));
                assert(rv.keys.last() == name@);
                Ok(Json::Object(es))
            },
            Ok(_) => Err(ResolveError::NotAnObject(shown)),
        }
    }

    /// The root document with every reference resolved, and the files loaded.
    pub fn resolve(&self) -> (r: Result<(Vec<String>, Json), ResolveError>)
        requires
            self.wf(),
        ensures
            match r {
                Ok((deps, out)) => resolution(self.env()) == Ok::<Tree, Failure>(out@)
                    && strings_view(deps@) == keys_of(self.env().docs) && strings_view(
                    deps@,
                ).no_duplicates(),
                Err(e) => resolution(self.env()) == Err::<Tree, Failure>(e@),
            },
    {
        let ghost env = self.env();
        let found = find_key(&self.files, &self.file);
        proof {
            lemma_entries_view(self.files@);
            let i: int = match found {
                Some(i) => i as int,
                None => self.files@.len() as int,
            };
            assert forall|j: int| 0 <= j < i implies (#[trigger] env.docs[j]).0 != env.root by {
                assert(env.docs[j].0 == self.files@[j].0@);
            }
            lemma_lookup_first(env.docs, env.root, i);
        }
        let doc = match found {
            Some(i) => &self.files[i].1,
            None => {
                return Err(ResolveError::Load(self.file.clone()));
            },
        };
        let mut stack: Vec<Reference> = Vec::new();
        assert(stack_view(stack@) =~= Seq::<RefView>::empty());
        let out = self.resolve_node(&mut stack, doc)?;
        let mut deps: Vec<String> = Vec::new();
        let mut i: usize = 0;
        while i < self.files.len()
            invariant
                i <= self.files@.len(),
                env == self.env(),
                forall|j: int| 0 <= j < self.files@.len() ==> #[trigger] env.docs[j] == (self.files@[j].0@, self.files@[j].1@),
                env.docs.len() == self.files@.len(),
                strings_view(deps@) == keys_of(env.docs.subrange(0, i as int)),
            decreases self.files@.len() - i,
        {
            let ghost before = deps@;
            assert(env.docs[i as int].0 == self.files@[i as int].0@);
            deps.push(self.files[i].0.clone());
            i = i + 1;
            assert(strings_view(deps@) =~= strings_view(before).push(env.docs[i - 1].0));
            assert(strings_view(deps@) =~= keys_of(env.docs.subrange(0, i as int)));
        }
        assert(env.docs.subrange(0, i as int) =~= env.docs);
        Ok((deps, out))
    }
}

} // verus!
