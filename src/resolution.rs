use vstd::prelude::*;

use crate::json::{has_key, keys_of, lemma_put_entries, lemma_put_lookup, lookup, put, Tree};
use crate::reference::{parse_ref, RefView};
use crate::resolver::{
    annotate, bound, chain, current_file, is_ref_node, lemma_stack_bound, other_keys, res, res_entries,
    res_items, res_ref, resolution, str_items, valid_ref, valid_stack, walk, Env, Failure,
};

verus! {

/// No object anywhere in `t` has a `$ref` key.
pub open spec fn ref_free(t: Tree) -> bool
    decreases t,
{
    match t {
        Tree::Array(xs) => ref_free_items(xs),
        Tree::Object(es) => !has_key(es, "$ref"@) && ref_free_entries(es),
        _ => true,
    }
}

pub open spec fn ref_free_items(xs: Seq<Tree>) -> bool
    decreases xs,
{
    if xs.len() == 0 {
        true
    } else {
        ref_free_items(xs.subrange(0, xs.len() - 1)) && ref_free(xs[xs.len() - 1])
    }
}

pub open spec fn ref_free_entries(es: Seq<(Seq<char>, Tree)>) -> bool
    decreases es,
{
    if es.len() == 0 {
        true
    } else {
        ref_free_entries(es.subrange(0, es.len() - 1)) && ref_free(es[es.len() - 1].1)
    }
}

/// An object that carries the four annotation keys, with `$name` the last of `$keys`.
pub open spec fn carries_annotation(es: Seq<(Seq<char>, Tree)>) -> bool {
    &&& lookup(es, "$ref"@) is Some
    &&& lookup(es, "$file"@) is Some
    &&& match lookup(es, "$keys"@) {
        Some(Tree::Array(ks)) => ks.len() > 0 && lookup(es, "$name"@) == Some(ks.last()),
        _ => false,
    }
}

/// Every object of `t` that has a `$ref` key carries the whole annotation.
pub open spec fn annotated(t: Tree) -> bool
    decreases t,
{
    match t {
        Tree::Array(xs) => forall|i: int| 0 <= i < xs.len() ==> annotated(#[trigger] xs[i]),
        Tree::Object(es) => (forall|i: int| 0 <= i < es.len() ==> annotated(#[trigger] es[i].1))
            && (has_key(es, "$ref"@) ==> carries_annotation(es)),
        _ => true,
    }
}

/// A reported chain: distinct references, each one being expanded inside the
/// one before, followed by one of them met again. It ends with a reference met
/// earlier in it.
pub open spec fn closes_cycle(c: Seq<Seq<char>>) -> bool {
    &&& c.len() >= 2
    &&& c.drop_last().contains(c.last())
    &&& exists|s: Seq<RefView>, j: int|
        #![trigger chain(s.push(s[j]))]
        s.no_duplicates() && 0 <= j < s.len() && c == chain(s.push(s[j]))
}

proof fn lemma_ref_free_node(env: Env, stack: Seq<RefView>, t: Tree)
    requires
        ref_free(t),
    ensures
        res(env, stack, t) == Ok::<Tree, Failure>(t),
    decreases t,
{
    match t {
        Tree::Array(xs) => {
            lemma_ref_free_items(env, stack, xs);
        },
        Tree::Object(es) => {
            lemma_ref_free_entries(env, stack, es);
        },
        _ => {},
    }
}

proof fn lemma_ref_free_items(env: Env, stack: Seq<RefView>, xs: Seq<Tree>)
    requires
        ref_free_items(xs),
    ensures
        res_items(env, stack, xs) == Ok::<Seq<Tree>, Failure>(xs),
    decreases xs,
{
    if xs.len() > 0 {
        let front = xs.subrange(0, xs.len() - 1);
        lemma_ref_free_items(env, stack, front);
        lemma_ref_free_node(env, stack, xs[xs.len() - 1]);
        assert(front.push(xs[xs.len() - 1]) =~= xs);
    } else {
        assert(xs =~= Seq::<Tree>::empty());
    }
}

proof fn lemma_ref_free_entries(env: Env, stack: Seq<RefView>, es: Seq<(Seq<char>, Tree)>)
    requires
        ref_free_entries(es),
    ensures
        res_entries(env, stack, es) == Ok::<Seq<(Seq<char>, Tree)>, Failure>(es),
    decreases es,
{
    if es.len() > 0 {
        let front = es.subrange(0, es.len() - 1);
        let e = es[es.len() - 1];
        lemma_ref_free_entries(env, stack, front);
        lemma_ref_free_node(env, stack, e.1);
        assert(front.push((e.0, e.1)) =~= es);
    } else {
        assert(es =~= Seq::<(Seq<char>, Tree)>::empty());
    }
}

/// A document without reference nodes resolves to itself, with nothing loaded
/// but its own file.
pub proof fn ref_free_document_is_unchanged(root: Seq<char>, doc: Tree)
    requires
        ref_free(doc),
    ensures
        resolution(Env { docs: seq![(root, doc)], paths: Seq::empty(), root }) == Ok::<
            Tree,
            Failure,
        >(doc),
{
    let env = Env { docs: seq![(root, doc)], paths: Seq::empty(), root };
    assert(lookup(env.docs, root) == Some(doc));
    lemma_ref_free_node(env, Seq::empty(), doc);
}

/// A `$ref` object with other keys fails on its shape alone, whatever is
/// loaded or known: nothing is asked of the files.
pub proof fn extra_keys_fail_before_loading(
    env: Env,
    stack: Seq<RefView>,
    es: Seq<(Seq<char>, Tree)>,
)
    requires
        has_key(es, "$ref"@),
        es.len() > 1,
    ensures
        res(env, stack, Tree::Object(es)) == Err::<Tree, Failure>(Failure::ExtraKeys(other_keys(es))),
{
}

proof fn lemma_put_annotated(es: Seq<(Seq<char>, Tree)>, k: Seq<char>, v: Tree)
    requires
        forall|i: int| 0 <= i < es.len() ==> annotated(#[trigger] es[i].1),
        annotated(v),
    ensures
        forall|i: int| 0 <= i < put(es, k, v).len() ==> annotated(#[trigger] put(es, k, v)[i].1),
{
    lemma_put_entries(es, k, v);
    assert forall|i: int| 0 <= i < put(es, k, v).len() implies annotated(#[trigger] put(es, k, v)[i].1) by {
        if put(es, k, v)[i] != (k, v) {
            assert(put(es, k, v)[i] == es[i]);
        }
    }
}

/// The annotated target carries the annotation, and stays annotated below.
proof fn lemma_annotate(es: Seq<(Seq<char>, Tree)>, text: Seq<char>, r: RefView)
    requires
        r.keys.len() > 0,
        forall|i: int| 0 <= i < es.len() ==> annotated(#[trigger] es[i].1),
    ensures
        annotated(Tree::Object(annotate(es, text, r))),
{
    reveal_strlit("$ref");
    reveal_strlit("$file");
    reveal_strlit("$keys");
    reveal_strlit("$name");
    assert("$ref"@.len() == 4 && "$file"@.len() == 5 && "$keys"@.len() == 5 && "$name"@.len() == 5);
    assert("$file"@[1] != "$keys"@[1] && "$file"@[1] != "$name"@[1] && "$keys"@[1] != "$name"@[1]);
    let ks = str_items(r.keys);
    let e1 = put(es, "$ref"@, Tree::Str(text));
    let e2 = put(e1, "$file"@, Tree::Str(r.file));
    let e3 = put(e2, "$keys"@, Tree::Array(ks));
    let e4 = put(e3, "$name"@, Tree::Str(r.keys.last()));
    assert forall|i: int| 0 <= i < ks.len() implies annotated(#[trigger] ks[i]) by {
        assert(ks[i] == Tree::Str(r.keys[i]));
    }
    assert(annotated(Tree::Array(ks)));
    lemma_put_annotated(es, "$ref"@, Tree::Str(text));
    lemma_put_annotated(e1, "$file"@, Tree::Str(r.file));
    lemma_put_annotated(e2, "$keys"@, Tree::Array(ks));
    lemma_put_annotated(e3, "$name"@, Tree::Str(r.keys.last()));
    lemma_put_lookup(e3, "$name"@, Tree::Str(r.keys.last()), "$name"@);
    lemma_put_lookup(e3, "$name"@, Tree::Str(r.keys.last()), "$keys"@);
    lemma_put_lookup(e2, "$keys"@, Tree::Array(ks), "$keys"@);
    lemma_put_lookup(e3, "$name"@, Tree::Str(r.keys.last()), "$file"@);
    lemma_put_lookup(e2, "$keys"@, Tree::Array(ks), "$file"@);
    lemma_put_lookup(e1, "$file"@, Tree::Str(r.file), "$file"@);
    lemma_put_lookup(e3, "$name"@, Tree::Str(r.keys.last()), "$ref"@);
    lemma_put_lookup(e2, "$keys"@, Tree::Array(ks), "$ref"@);
    lemma_put_lookup(e1, "$file"@, Tree::Str(r.file), "$ref"@);
    lemma_put_lookup(es, "$ref"@, Tree::Str(text), "$ref"@);
    assert(ks.last() == Tree::Str(r.keys.last()));
    assert(carries_annotation(e4));
}

/// What holds of every outcome of resolution.
pub open spec fn sound(r: Result<Tree, Failure>) -> bool {
    match r {
        Ok(t) => annotated(t),
        Err(Failure::Cycle(c)) => closes_cycle(c),
        _ => true,
    }
}

proof fn lemma_sound_node(env: Env, stack: Seq<RefView>, t: Tree)
    requires
        valid_stack(env.docs, stack),
    ensures
        sound(res(env, stack, t)),
    decreases bound(env.docs) - stack.len(), t,
{
    match t {
        Tree::Array(xs) => {
            lemma_sound_items(env, stack, xs);
        },
        Tree::Object(es) => {
            if has_key(es, "$ref"@) {
                if es.len() == 1 {
                    lemma_sound_ref(env, stack, es[0].1);
                }
            } else {
                lemma_sound_entries(env, stack, es);
                match res_entries(env, stack, es) {
                    Ok(xs) => {
                        if has_key(xs, "$ref"@) {
                            let i = choose|i: int| 0 <= i < xs.len() && #[trigger] xs[i].0 == "$ref"@;
                            assert(keys_of(xs).len() == xs.len());
                            assert(keys_of(xs)[i] == xs[i].0);
                            assert(keys_of(xs)[i] == keys_of(es)[i]);
                            assert(es[i].0 == "$ref"@);
                        }
                    },
                    Err(_) => {},
                }
            }
        },
        _ => {},
    }
}

proof fn lemma_sound_items(env: Env, stack: Seq<RefView>, xs: Seq<Tree>)
    requires
        valid_stack(env.docs, stack),
    ensures
        match res_items(env, stack, xs) {
            Ok(ys) => forall|i: int| 0 <= i < ys.len() ==> annotated(#[trigger] ys[i]),
            Err(Failure::Cycle(c)) => closes_cycle(c),
            Err(_) => true,
        },
    decreases bound(env.docs) - stack.len(), xs,
{
    if xs.len() > 0 {
        let front = xs.subrange(0, xs.len() - 1);
        lemma_sound_items(env, stack, front);
        lemma_sound_node(env, stack, xs[xs.len() - 1]);
        match res_items(env, stack, front) {
            Ok(ys) => match res(env, stack, xs[xs.len() - 1]) {
                Ok(y) => {
                    let zs = ys.push(y);
                    assert forall|i: int| 0 <= i < zs.len() implies annotated(#[trigger] zs[i]) by {
                        if i < ys.len() {
                            assert(zs[i] == ys[i]);
                        }
                    }
                },
                Err(_) => {},
            },
            Err(_) => {},
        }
    }
}

proof fn lemma_sound_entries(env: Env, stack: Seq<RefView>, es: Seq<(Seq<char>, Tree)>)
    requires
        valid_stack(env.docs, stack),
    ensures
        match res_entries(env, stack, es) {
            Ok(ys) => (forall|i: int| 0 <= i < ys.len() ==> annotated(#[trigger] ys[i].1)) && keys_of(ys)
                == keys_of(es),
            Err(Failure::Cycle(c)) => closes_cycle(c),
            Err(_) => true,
        },
    decreases bound(env.docs) - stack.len(), es,
{
    if es.len() > 0 {
        let front = es.subrange(0, es.len() - 1);
        let e = es[es.len() - 1];
        lemma_sound_entries(env, stack, front);
        lemma_sound_node(env, stack, e.1);
        match res_entries(env, stack, front) {
            Ok(ys) => match res(env, stack, e.1) {
                Ok(y) => {
                    let zs = ys.push((e.0, y));
                    assert forall|i: int| 0 <= i < zs.len() implies annotated(#[trigger] zs[i].1) by {
                        if i < ys.len() {
                            assert(zs[i] == ys[i]);
                        }
                    }
                    assert(keys_of(zs) =~= keys_of(ys).push(e.0));
                    assert(keys_of(es) =~= keys_of(front).push(e.0));
                },
                Err(_) => {},
            },
            Err(_) => {},
        }
    } else {
        assert(keys_of(es) =~= keys_of(Seq::<(Seq<char>, Tree)>::empty()));
    }
}

proof fn lemma_sound_ref(env: Env, stack: Seq<RefView>, v: Tree)
    requires
        valid_stack(env.docs, stack),
    ensures
        sound(res_ref(env, stack, v)),
    decreases bound(env.docs) - stack.len(), v,
{
    match v {
        Tree::Str(text) => match parse_ref(env.paths, current_file(env, stack), text) {
            Ok(r) => {
                if stack.contains(r) {
                    let s2 = stack.push(r);
                    let c = chain(s2);
                    let j = choose|j: int| 0 <= j < stack.len() && stack[j] == r;
                    assert(c.drop_last()[j] == c.last());
                    assert(s2 == stack.push(stack[j]));
                } else if r.keys.len() > 0 {
                    match lookup(env.docs, r.file) {
                        Some(doc) => match walk(doc, r.keys) {
                            Ok(target) => {
                                let s2 = stack.push(r);
                                assert(valid_ref(env.docs, r));
                                assert forall|j: int| 0 <= j < s2.len() implies valid_ref(env.docs, #[trigger] s2[j]) by {
                                    if j < stack.len() {
                                        assert(s2[j] == stack[j]);
                                    }
                                }
                                assert(s2.no_duplicates()) by {
                                    assert forall|a: int, b: int| 0 <= a < s2.len() && 0 <= b < s2.len() && a != b implies s2[a] != s2[b] by {
                                        if a < stack.len() && b < stack.len() {
                                            assert(s2[a] == stack[a] && s2[b] == stack[b]);
                                        } else if a < stack.len() {
                                            assert(s2[a] == stack[a]);
                                        } else if b < stack.len() {
                                            assert(s2[b] == stack[b]);
                                        }
                                    }
                                }
                                lemma_stack_bound(env.docs, s2);
                                lemma_sound_node(env, s2, target);
                                match res(env, s2, target) {
                                    Ok(Tree::Object(es)) => {
                                        lemma_annotate(es, text, r);
                                    },
                                    _ => {},
                                }
                            },
                            Err(_) => {},
                        },
                        None => {},
                    }
                }
            },
            Err(_) => {},
        },
        _ => {},
    }
}

/// Every outcome of resolving a document from the top: a resolved tree in
/// which each object with a `$ref` key carries `$ref`, `$file`, `$keys` and
/// `$name`, with `$name` the last of `$keys`; or, for a cycle, a chain that
/// ends with a reference met earlier in it.
pub proof fn resolution_is_sound(env: Env)
    ensures
        sound(resolution(env)),
{
    if let Some(doc) = lookup(env.docs, env.root) {
        lemma_sound_node(env, Seq::empty(), doc);
    }
}

/// Recording a file keeps the loaded files distinct: each canonical path is
/// listed once, so the files reported after resolution are a set.
pub proof fn loaded_files_stay_distinct<V>(docs: Seq<(Seq<char>, V)>, file: Seq<char>, doc: V)
    requires
        keys_of(docs).no_duplicates(),
    ensures
        keys_of(
            if has_key(docs, file) {
                docs
            } else {
                docs.push((file, doc))
            },
        ).no_duplicates(),
{
    if !has_key(docs, file) {
        let k = keys_of(docs.push((file, doc)));
        assert(k =~= keys_of(docs).push(file));
        assert forall|a: int, b: int| 0 <= a < k.len() && 0 <= b < k.len() && a != b implies k[a] != k[b] by {
            if a < docs.len() && b < docs.len() {
                assert(k[a] == keys_of(docs)[a] && k[b] == keys_of(docs)[b]);
            } else if a < docs.len() {
                assert(k[a] == docs[a].0);
            } else if b < docs.len() {
                assert(k[b] == docs[b].0);
            }
        }
    }
}

/// Somewhere in `t`, outside any reference target, a `$ref` object has other keys.
pub open spec fn has_bad_ref(t: Tree) -> bool
    decreases t,
{
    match t {
        Tree::Array(xs) => exists|i: int| 0 <= i < xs.len() && has_bad_ref(#[trigger] xs[i]),
        Tree::Object(es) => if has_key(es, "$ref"@) {
            es.len() != 1
        } else {
            exists|i: int| 0 <= i < es.len() && has_bad_ref(#[trigger] es[i].1)
        },
        _ => false,
    }
}

proof fn lemma_items_ok(env: Env, stack: Seq<RefView>, xs: Seq<Tree>, i: int)
    requires
        0 <= i < xs.len(),
        res_items(env, stack, xs) is Ok,
    ensures
        res(env, stack, xs[i]) is Ok,
    decreases xs.len(),
{
    let front = xs.subrange(0, xs.len() - 1);
    if i < xs.len() - 1 {
        assert(front[i] == xs[i]);
        lemma_items_ok(env, stack, front, i);
    }
}

proof fn lemma_entries_ok(env: Env, stack: Seq<RefView>, es: Seq<(Seq<char>, Tree)>, i: int)
    requires
        0 <= i < es.len(),
        res_entries(env, stack, es) is Ok,
    ensures
        res(env, stack, es[i].1) is Ok,
    decreases es.len(),
{
    let front = es.subrange(0, es.len() - 1);
    if i < es.len() - 1 {
        assert(front[i] == es[i]);
        lemma_entries_ok(env, stack, front, i);
    }
}

proof fn lemma_bad_ref_fails(env: Env, stack: Seq<RefView>, t: Tree)
    requires
        has_bad_ref(t),
    ensures
        res(env, stack, t) is Err,
    decreases t,
{
    match t {
        Tree::Array(xs) => {
            let i = choose|i: int| 0 <= i < xs.len() && has_bad_ref(#[trigger] xs[i]);
            lemma_bad_ref_fails(env, stack, xs[i]);
            if res_items(env, stack, xs) is Ok {
                lemma_items_ok(env, stack, xs, i);
            }
        },
        Tree::Object(es) => {
            if !has_key(es, "$ref"@) {
                let i = choose|i: int| 0 <= i < es.len() && has_bad_ref(#[trigger] es[i].1);
                lemma_bad_ref_fails(env, stack, es[i].1);
                if res_entries(env, stack, es) is Ok {
                    lemma_entries_ok(env, stack, es, i);
                }
            }
        },
        _ => {},
    }
}

/// A root document holding, anywhere outside reference targets, a `$ref`
/// object with other keys never resolves: the object itself fails on its
/// shape (see [`extra_keys_fail_before_loading`]), whatever the files hold.
pub proof fn bad_reference_object_fails_resolution(env: Env, doc: Tree)
    requires
        lookup(env.docs, env.root) == Some(doc),
        has_bad_ref(doc),
    ensures
        resolution(env) is Err,
{
    lemma_bad_ref_fails(env, Seq::empty(), doc);
}

/// No object in `t` is a reference object (`$ref` as its only key).
pub open spec fn no_ref_node(t: Tree) -> bool
    decreases t,
{
    match t {
        Tree::Array(xs) => forall|i: int| 0 <= i < xs.len() ==> no_ref_node(#[trigger] xs[i]),
        Tree::Object(es) => !is_ref_node(es) && forall|i: int|
            0 <= i < es.len() ==> no_ref_node(#[trigger] es[i].1),
        _ => true,
    }
}

/// The outcomes possible for a tree without reference objects: itself, or an
/// extra-keys failure.
pub open spec fn shape_only(r: Result<Tree, Failure>, t: Tree) -> bool {
    r == Ok::<Tree, Failure>(t) || r matches Err(Failure::ExtraKeys(_))
}

proof fn lemma_no_ref_node(env: Env, stack: Seq<RefView>, t: Tree)
    requires
        no_ref_node(t),
    ensures
        shape_only(res(env, stack, t), t),
    decreases t,
{
    match t {
        Tree::Array(xs) => {
            assert(decreases_to!(t => t->Array_0));
            lemma_no_ref_items(env, stack, xs);
        },
        Tree::Object(es) => {
            assert(decreases_to!(t => t->Object_0));
            if !has_key(es, "$ref"@) {
                lemma_no_ref_entries(env, stack, es);
            }
        },
        _ => {},
    }
}

proof fn lemma_no_ref_items(env: Env, stack: Seq<RefView>, xs: Seq<Tree>)
    requires
        forall|i: int| 0 <= i < xs.len() ==> no_ref_node(#[trigger] xs[i]),
    ensures
        res_items(env, stack, xs) == Ok::<Seq<Tree>, Failure>(xs) || res_items(env, stack, xs) matches Err(
            Failure::ExtraKeys(_),
        ),
    decreases xs,
{
    if xs.len() > 0 {
        let front = xs.subrange(0, xs.len() - 1);
        let last = xs[xs.len() - 1];
        assert forall|i: int| 0 <= i < front.len() implies no_ref_node(#[trigger] front[i]) by {
            assert(front[i] == xs[i]);
        }
        lemma_no_ref_items(env, stack, front);
        lemma_no_ref_node(env, stack, last);
        assert(front.push(last) =~= xs);
    } else {
        assert(xs =~= Seq::<Tree>::empty());
    }
}

proof fn lemma_no_ref_entries(env: Env, stack: Seq<RefView>, es: Seq<(Seq<char>, Tree)>)
    requires
        forall|i: int| 0 <= i < es.len() ==> no_ref_node(#[trigger] es[i].1),
    ensures
        res_entries(env, stack, es) == Ok::<Seq<(Seq<char>, Tree)>, Failure>(es) || res_entries(
            env,
            stack,
            es,
        ) matches Err(Failure::ExtraKeys(_)),
    decreases es,
{
    if es.len() > 0 {
        let front = es.subrange(0, es.len() - 1);
        let e = es[es.len() - 1];
        assert forall|i: int| 0 <= i < front.len() implies no_ref_node(#[trigger] front[i].1) by {
            assert(front[i] == es[i]);
        }
        lemma_no_ref_entries(env, stack, front);
        lemma_no_ref_node(env, stack, e.1);
        assert(front.push((e.0, e.1)) =~= es);
    } else {
        assert(es =~= Seq::<(Seq<char>, Tree)>::empty());
    }
}

/// A root document with no reference object, but a `$ref` object with other
/// keys somewhere, fails with the extra-keys error, whatever the files hold:
/// nothing is loaded or canonicalized for it.
pub proof fn lone_bad_reference_object_fails_on_its_shape(env: Env, doc: Tree)
    requires
        lookup(env.docs, env.root) == Some(doc),
        no_ref_node(doc),
        has_bad_ref(doc),
    ensures
        resolution(env) matches Err(Failure::ExtraKeys(_)),
{
    lemma_bad_ref_fails(env, Seq::empty(), doc);
    lemma_no_ref_node(env, Seq::empty(), doc);
}

} // verus!
