use pig::json::Json;
use pig::resolver::Resolver;

fn s(x: &str) -> Json {
    Json::Str(x.to_string())
}

fn obj(es: Vec<(&str, Json)>) -> Json {
    Json::Object(es.into_iter().map(|(k, v)| (k.to_string(), v)).collect())
}

fn root_doc() -> Json {
    obj(vec![
        ("openapi", s("3.0.3")),
        ("info", obj(vec![("title", s("api")), ("version", s("1"))])),
        ("paths", obj(vec![])),
        ("x", obj(vec![("$ref", s("b.yaml#/components/schemas/T"))])),
    ])
}

fn fragment() -> Json {
    obj(vec![(
        "components",
        obj(vec![("schemas", obj(vec![("T", obj(vec![("type", s("string"))]))]))]),
    )])
}

#[test]
fn open_accepts_whole_document() {
    let r = Resolver::open("/p/a.yaml".to_string(), root_doc()).unwrap();
    assert_eq!(r.version(), Some("3.0.3".to_string()));
}

#[test]
fn open_refuses_partial_root() {
    let r = Resolver::open("/p/a.yaml".to_string(), fragment());
    assert_eq!(r.err(), Some("/p/a.yaml".to_string()));
}

#[test]
fn open_refuses_repeated_keys() {
    let doc = Json::Object(vec![
        ("openapi".to_string(), s("3.0.3")),
        ("openapi".to_string(), s("3.0.3")),
    ]);
    assert_eq!(Resolver::open("/p/a.yaml".to_string(), doc).err(), Some("/p/a.yaml".to_string()));
}

#[test]
fn load_checks_fragment_but_keeps_it_unpatched() {
    let mut r = Resolver::open("/p/a.yaml".to_string(), root_doc()).unwrap();
    assert_eq!(r.load("/p/b.yaml".to_string(), fragment()), Ok(()));
    assert_eq!(r.files.len(), 2);
    assert_eq!(r.files[1].1, fragment());
    r.add_path("/p/b.yaml".to_string(), "/p/b.yaml".to_string());
    let (deps, out) = r.resolve().unwrap();
    assert_eq!(deps, vec!["/p/a.yaml".to_string(), "/p/b.yaml".to_string()]);
    match out {
        Json::Object(es) => {
            let x = &es.iter().find(|(k, _)| k == "x").unwrap().1;
            match x {
                Json::Object(xs) => assert_eq!(xs[0], ("type".to_string(), s("string"))),
                _ => panic!("x is not an object"),
            }
        }
        _ => panic!("not an object"),
    }
}

#[test]
fn load_refuses_malformed_fragment_and_keeps_session() {
    let mut r = Resolver::open("/p/a.yaml".to_string(), root_doc()).unwrap();
    let bad = obj(vec![("components", s("not a map"))]);
    assert_eq!(r.load("/p/b.yaml".to_string(), bad), Err("/p/b.yaml".to_string()));
    assert_eq!(r.files.len(), 1);
}

#[test]
fn well_formed_needs_distinct_keys_everywhere() {
    assert!(root_doc().well_formed());
    let inner = Json::Array(vec![Json::Object(vec![
        ("k".to_string(), Json::Null),
        ("k".to_string(), Json::Null),
    ])]);
    assert!(!inner.well_formed());
    assert!(!obj(vec![("a", inner)]).well_formed());
}
