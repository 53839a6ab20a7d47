use pig::json::Json;
use pig::loader::relaxed_probe;
use pig::reference::{RefError, Reference};
use pig::resolver::{ResolveError, Resolver};
use std::collections::HashMap;

fn s(x: &str) -> Json {
    Json::Str(x.to_string())
}

fn num(x: &str) -> Json {
    Json::Number(x.to_string())
}

fn obj(es: Vec<(&str, Json)>) -> Json {
    Json::Object(es.into_iter().map(|(k, v)| (k.to_string(), v)).collect())
}

fn rf(t: &str) -> Json {
    obj(vec![("$ref", s(t))])
}

fn strs(xs: &[&str]) -> Json {
    Json::Array(xs.iter().map(|x| s(x)).collect())
}

/// Drives a session: every path is its own canonical form, and files come
/// from `files`. Returns the outcome and what was asked for, in order.
fn run(
    root: &str,
    files: Vec<(&str, Json)>,
) -> (Result<(Vec<String>, Json), ResolveError>, Vec<String>) {
    let mut files: HashMap<String, Json> =
        files.into_iter().map(|(k, v)| (k.to_string(), v)).collect();
    let doc = files.remove(root).expect("root document");
    let mut resolver = Resolver::new(root.to_string(), doc);
    let mut asked = Vec::new();
    loop {
        match resolver.resolve() {
            Err(ResolveError::Canonicalize(p)) => {
                asked.push(format!("path {}", p));
                resolver.add_path(p.clone(), p);
            }
            Err(ResolveError::Load(f)) => {
                asked.push(format!("file {}", f));
                match files.remove(&f) {
                    Some(d) => resolver.add_file(f, d),
                    None => panic!("unexpected load of {}", f),
                }
            }
            other => return (other, asked),
        }
    }
}

fn field<'a>(j: &'a Json, k: &str) -> &'a Json {
    match j {
        Json::Object(es) => &es.iter().find(|(key, _)| key == k).expect("key").1,
        _ => panic!("not an object"),
    }
}

#[test]
fn ref_free_document_resolves_to_itself() {
    let doc = || {
        obj(vec![
            ("openapi", s("3.0.0")),
            ("list", Json::Array(vec![num("1"), Json::Bool(true), Json::Null])),
            ("nested", obj(vec![("a", s("b"))])),
        ])
    };
    let (out, asked) = run("/p/a.yaml", vec![("/p/a.yaml", doc())]);
    let (deps, tree) = out.unwrap();
    assert_eq!(deps, vec!["/p/a.yaml".to_string()]);
    assert_eq!(tree, doc());
    assert!(asked.is_empty());
}

#[test]
fn resolved_reference_carries_annotation() {
    let a = obj(vec![("x", rf("b.yaml#/components/y"))]);
    let b = obj(vec![("components", obj(vec![("y", obj(vec![("value", num("1"))]))]))]);
    let (out, asked) = run("/p/a.yaml", vec![("/p/a.yaml", a), ("/p/b.yaml", b)]);
    assert_eq!(asked, vec!["path /p/b.yaml".to_string(), "file /p/b.yaml".to_string()]);
    let (deps, tree) = out.unwrap();
    assert_eq!(deps, vec!["/p/a.yaml".to_string(), "/p/b.yaml".to_string()]);
    let x = field(&tree, "x");
    assert_eq!(
        *x,
        obj(vec![
            ("value", num("1")),
            ("$ref", s("b.yaml#/components/y")),
            ("$file", s("/p/b.yaml")),
            ("$keys", strs(&["components", "y"])),
            ("$name", s("y")),
        ])
    );
}

#[test]
fn annotation_name_is_last_key() {
    let a = obj(vec![("deep", rf("#/a/b/c")), ("a", obj(vec![("b", obj(vec![("c", obj(vec![]))]))]))]);
    let (out, _) = run("/p/a.yaml", vec![("/p/a.yaml", a)]);
    let (_, tree) = out.unwrap();
    let d = field(&tree, "deep");
    assert_eq!(*field(d, "$keys"), strs(&["a", "b", "c"]));
    assert_eq!(*field(d, "$name"), s("c"));
    assert_eq!(*field(d, "$file"), s("/p/a.yaml"));
    assert_eq!(*field(d, "$ref"), s("#/a/b/c"));
}

fn ring(n: usize) -> Vec<(String, Json)> {
    (1..=n)
        .map(|i| {
            let next = if i == n { 1 } else { i + 1 };
            (format!("/p/f{}.yaml", i), obj(vec![("x", rf(&format!("f{}.yaml#/x", next)))]))
        })
        .collect()
}

fn cycle_chain(n: usize) -> Vec<String> {
    let files = ring(n);
    let owned: Vec<(&str, Json)> = files.into_iter().map(|(k, v)| (leak(k), v)).collect();
    match run("/p/f1.yaml", owned).0 {
        Err(ResolveError::Cycle(c)) => c,
        other => panic!("expected a cycle, got {:?}", other),
    }
}

fn leak(s: String) -> &'static str {
    Box::leak(s.into_boxed_str())
}

#[test]
fn cycle_of_one_file() {
    let c = cycle_chain(1);
    assert_eq!(c, vec!["/p/f1.yaml#/x".to_string(), "/p/f1.yaml#/x".to_string()]);
}

#[test]
fn cycle_of_two_files() {
    let c = cycle_chain(2);
    assert_eq!(
        c,
        vec![
            "/p/f2.yaml#/x".to_string(),
            "/p/f1.yaml#/x".to_string(),
            "/p/f2.yaml#/x".to_string()
        ]
    );
}

#[test]
fn cycle_chain_length_is_files_plus_one() {
    for n in 1..=6 {
        let c = cycle_chain(n);
        assert_eq!(c.len(), n + 1);
        assert_eq!(c.first(), c.last());
    }
}

#[test]
fn extra_keys_fail_before_any_load() {
    let a = obj(vec![("$ref", s("missing.yaml#/a")), ("extra", num("1"))]);
    let (out, asked) = run("/p/a.yaml", vec![("/p/a.yaml", a)]);
    assert_eq!(out, Err(ResolveError::ExtraKeys(vec!["extra".to_string()])));
    assert!(asked.is_empty());
}

#[test]
fn reserved_key_in_target_fails() {
    let a = obj(vec![("x", rf("#/defs/t")), ("defs", obj(vec![("t", obj(vec![("type", s("object")), ("$file", s("mine"))]))]))]);
    let (out, _) = run("/p/a.yaml", vec![("/p/a.yaml", a)]);
    assert_eq!(
        out,
        Err(ResolveError::Reserved("$file".to_string(), vec!["/p/a.yaml#/defs/t".to_string()]))
    );
}

#[test]
fn dependencies_are_each_file_once() {
    let a = obj(vec![
        ("one", rf("b.yaml#/s")),
        ("two", rf("./b.yaml#/s")),
        ("three", rf("b.yaml#/t")),
    ]);
    let b = obj(vec![("s", obj(vec![("k", s("v"))])), ("t", obj(vec![("c", rf("c.yaml#/u"))]))]);
    let c = obj(vec![("u", obj(vec![("n", num("2"))]))]);
    let mut files: HashMap<String, Json> = HashMap::new();
    files.insert("/p/b.yaml".to_string(), b);
    files.insert("/p/c.yaml".to_string(), c);
    let mut resolver = Resolver::new("/p/a.yaml".to_string(), a);
    let out = loop {
        match resolver.resolve() {
            Err(ResolveError::Canonicalize(p)) => {
                let canon = p.replace("/./", "/");
                resolver.add_path(p, canon);
            }
            Err(ResolveError::Load(f)) => {
                let d = files.remove(&f).expect("each file is loaded once");
                resolver.add_file(f, d);
            }
            other => break other,
        }
    };
    let (mut deps, _) = out.unwrap();
    deps.sort();
    assert_eq!(deps, vec!["/p/a.yaml".to_string(), "/p/b.yaml".to_string(), "/p/c.yaml".to_string()]);
}

#[test]
fn end_to_end_outer_annotation_replaces_inner() {
    // The inner same-file reference to `y` is expanded first; the outer
    // annotation is applied last, over the inner one.
    let a = rf("b.yaml#/components/x");
    let b = obj(vec![(
        "components",
        obj(vec![("x", rf("#/components/y")), ("y", obj(vec![("value", num("1"))]))]),
    )]);
    let (out, asked) = run("/p/a.yaml", vec![("/p/a.yaml", a), ("/p/b.yaml", b)]);
    assert_eq!(asked, vec!["path /p/b.yaml".to_string(), "file /p/b.yaml".to_string()]);
    let (_, tree) = out.unwrap();
    assert_eq!(
        tree,
        obj(vec![
            ("value", num("1")),
            ("$ref", s("b.yaml#/components/x")),
            ("$file", s("/p/b.yaml")),
            ("$keys", strs(&["components", "x"])),
            ("$name", s("x")),
        ])
    );
}

#[test]
fn reserved_key_collision_reports_chain() {
    let a = obj(vec![("x", rf("b.yaml#/t"))]);
    let b = obj(vec![("t", rf("#/u")), ("u", obj(vec![("$name", s("mine"))]))]);
    let (out, _) = run("/p/a.yaml", vec![("/p/a.yaml", a), ("/p/b.yaml", b)]);
    assert_eq!(
        out,
        Err(ResolveError::Reserved(
            "$name".to_string(),
            vec!["/p/b.yaml#/t".to_string(), "/p/b.yaml#/u".to_string()]
        ))
    );
}

#[test]
fn root_reference_into_other_file() {
    let a = rf("b.yaml#/components/x");
    let b = obj(vec![("components", obj(vec![("x", obj(vec![("value", num("1"))]))]))]);
    let (out, _) = run("/p/a.yaml", vec![("/p/a.yaml", a), ("/p/b.yaml", b)]);
    let (_, tree) = out.unwrap();
    assert_eq!(
        tree,
        obj(vec![
            ("value", num("1")),
            ("$ref", s("b.yaml#/components/x")),
            ("$file", s("/p/b.yaml")),
            ("$keys", strs(&["components", "x"])),
            ("$name", s("x")),
        ])
    );
}

#[test]
fn reference_inside_target_is_read_in_the_target_file() {
    let a = obj(vec![("x", rf("sub/b.yaml#/x"))]);
    let b = obj(vec![("x", obj(vec![("inner", rf("c.yaml#/y"))]))]);
    let c = obj(vec![("y", obj(vec![]))]);
    let (out, asked) = run(
        "/p/a.yaml",
        vec![("/p/a.yaml", a), ("/p/sub/b.yaml", b), ("/p/sub/c.yaml", c)],
    );
    assert!(asked.contains(&"path /p/sub/c.yaml".to_string()));
    let (_, tree) = out.unwrap();
    let inner = field(field(&tree, "x"), "inner");
    assert_eq!(*field(inner, "$file"), s("/p/sub/c.yaml"));
}

#[test]
fn non_string_reference_fails() {
    let a = obj(vec![("x", obj(vec![("$ref", num("3"))]))]);
    let (out, _) = run("/p/a.yaml", vec![("/p/a.yaml", a)]);
    assert_eq!(out, Err(ResolveError::NotAString));
}

#[test]
fn reference_without_hash_fails() {
    let a = obj(vec![("x", rf("b.yaml"))]);
    let (out, _) = run("/p/a.yaml", vec![("/p/a.yaml", a)]);
    assert_eq!(out, Err(ResolveError::Malformed("b.yaml".to_string())));
}

#[test]
fn reference_without_keys_fails() {
    let a = obj(vec![("x", rf("#/ / "))]);
    let (out, _) = run("/p/a.yaml", vec![("/p/a.yaml", a)]);
    assert_eq!(out, Err(ResolveError::NoKeys("/p/a.yaml#/".to_string())));
}

#[test]
fn missing_key_names_reference_up_to_it() {
    let a = obj(vec![("x", rf("#/a/missing/more")), ("a", obj(vec![]))]);
    let (out, _) = run("/p/a.yaml", vec![("/p/a.yaml", a)]);
    assert_eq!(out, Err(ResolveError::NotFound("/p/a.yaml#/a/missing".to_string())));
}

#[test]
fn non_object_target_fails() {
    let a = obj(vec![("x", rf("#/v")), ("v", s("text"))]);
    let (out, _) = run("/p/a.yaml", vec![("/p/a.yaml", a)]);
    assert_eq!(out, Err(ResolveError::NotAnObject("/p/a.yaml#/v".to_string())));
}

#[test]
fn first_error_in_document_order_wins() {
    let a = Json::Array(vec![rf("#/nothing"), obj(vec![("$ref", s("#/x")), ("b", Json::Null)])]);
    let (out, _) = run("/p/a.yaml", vec![("/p/a.yaml", a)]);
    assert_eq!(out, Err(ResolveError::NotFound("/p/a.yaml#/nothing".to_string())));
}

#[test]
fn reference_parts_are_trimmed_and_split() {
    let paths = vec![("/p/dir/b.yaml".to_string(), "/q/b.yaml".to_string())];
    let r = Reference::new("/p/a.yaml", "  dir/b.yaml #/ x // y / #ignored", &paths).unwrap();
    assert_eq!(r.file, "/q/b.yaml");
    assert_eq!(r.keys, vec!["x".to_string(), "y".to_string()]);
    assert_eq!(r.to_string(), "/q/b.yaml#/x/y");
    assert_eq!(r.display(1), "/q/b.yaml#/x");
    assert_eq!(r.display(0), "/q/b.yaml#/");
}

#[test]
fn reference_to_same_file_and_absolute_path() {
    let r = Reference::new("/p/a.yaml", "#/x", &vec![]).unwrap();
    assert_eq!(r.file, "/p/a.yaml");
    assert_eq!(
        Reference::new("/p/a.yaml", "/abs/c.yaml#/x", &vec![]),
        Err(RefError::Canonicalize("/abs/c.yaml".to_string()))
    );
    assert_eq!(
        Reference::new("/p/a.yaml", "nohash", &vec![]),
        Err(RefError::Malformed("nohash".to_string()))
    );
}

#[test]
fn references_compare_by_file_and_keys() {
    let a = Reference::new("/p/a.yaml", "#/x/y", &vec![]).unwrap();
    let b = Reference::new("/p/a.yaml", "a.yaml#/x/y", &vec![("/p/a.yaml".to_string(), "/p/a.yaml".to_string())]).unwrap();
    let c = Reference::new("/p/a.yaml", "#/x", &vec![]).unwrap();
    assert!(a.same(&b));
    assert!(!a.same(&c));
}

#[test]
fn relaxed_probe_fills_document_fields() {
    let frag = obj(vec![("components", obj(vec![])), ("info", s("old"))]);
    let out = relaxed_probe(&frag, &"3.0.3".to_string());
    assert_eq!(
        out,
        obj(vec![
            ("components", obj(vec![])),
            ("info", obj(vec![("title", s("")), ("version", s(""))])),
            ("openapi", s("3.0.3")),
            ("paths", obj(vec![])),
        ])
    );
    assert_eq!(relaxed_probe(&s("x"), &"3.0.3".to_string()), s("x"));
}

#[test]
fn version_of_root_document() {
    let r = Resolver::new("/p/a.yaml".to_string(), obj(vec![("openapi", s("3.1.0"))]));
    assert_eq!(r.version(), Some("3.1.0".to_string()));
    let r = Resolver::new("/p/a.yaml".to_string(), obj(vec![]));
    assert_eq!(r.version(), None);
}

#[test]
fn files_are_recorded_once() {
    let mut r = Resolver::new("/p/a.yaml".to_string(), obj(vec![]));
    r.add_file("/p/a.yaml".to_string(), s("other"));
    r.add_file("/p/b.yaml".to_string(), obj(vec![]));
    let (deps, tree) = r.resolve().unwrap();
    assert_eq!(deps, vec!["/p/a.yaml".to_string(), "/p/b.yaml".to_string()]);
    assert_eq!(tree, obj(vec![]));
}
