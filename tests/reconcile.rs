use pig::config::ConfigEntry;
use pig::pig::Pig;

fn entry(out: &str) -> ConfigEntry {
    ConfigEntry {
        openapi: "/p/openapi.yaml".to_string(),
        input: "/p/templates".to_string(),
        output: out.to_string(),
    }
}

fn names(xs: &[&str]) -> Vec<String> {
    xs.iter().map(|x| x.to_string()).collect()
}

#[test]
fn output_strips_template_suffix() {
    assert_eq!(Pig::output(&entry("/out"), "models/user.rs.jinja"), "/out/models/user.rs");
    assert_eq!(Pig::output(&entry("/out/"), "a.jinja"), "/out/a");
}

#[test]
fn outputs_of_all_entries_in_order() {
    let entries = vec![entry("/o1"), entry("/o2")];
    let templates = vec![names(&["a.jinja", "b.txt.jinja"]), names(&["a.jinja"])];
    assert_eq!(
        Pig::outputs(&entries, &templates),
        Ok(names(&["/o1/a", "/o1/b.txt", "/o2/a"]))
    );
}

#[test]
fn outputs_collide_across_entries() {
    let entries = vec![entry("/o"), entry("/o")];
    let templates = vec![names(&["x.jinja"]), names(&["y.jinja", "x.jinja"])];
    assert_eq!(Pig::outputs(&entries, &templates), Err("/o/x".to_string()));
}

#[test]
fn outputs_collide_within_entry() {
    let entries = vec![entry("/o")];
    let templates = vec![names(&["x.jinja", "/o/x.jinja"])];
    assert_eq!(Pig::outputs(&entries, &templates), Err("/o/x".to_string()));
}

#[test]
fn clean_moves_only_stale_files() {
    let e = entry("/o");
    let outputs = names(&["/o/a.rs"]);
    let files = names(&["/o/a.rs", "/o/sub/b.rs", "/o/.pig.context.json", "/o/.pig.context.yaml"]);
    let trash = "/p/.pig.trash/1700000000000".to_string();
    let moves = Pig::clean_entry(&e, &outputs, &files, &trash);
    assert_eq!(
        moves,
        vec![("/o/sub/b.rs".to_string(), "/p/.pig.trash/1700000000000/sub/b.rs".to_string())]
    );
    let left: Vec<String> = files.into_iter().filter(|f| !moves.iter().any(|(m, _)| m == f)).collect();
    assert!(Pig::clean_entry(&e, &outputs, &left, &trash).is_empty());
}

#[test]
fn clean_keeps_context_files_only_by_exact_path() {
    let e = entry("/o");
    let files = names(&["/o/.pig.context.json.bak"]);
    let moves = Pig::clean_entry(&e, &vec![], &files, &"/t".to_string());
    assert_eq!(moves, vec![("/o/.pig.context.json.bak".to_string(), "/t/.pig.context.json.bak".to_string())]);
}

#[test]
fn trash_lies_beside_configuration() {
    assert_eq!(Pig::trash(&"/p/pig.yaml".to_string(), &"1700000000123".to_string()), "/p/.pig.trash/1700000000123");
    assert_eq!(Pig::trash(&"/pig.yaml".to_string(), &"5".to_string()), "/.pig.trash/5");
}

#[test]
fn relocation_keeps_relative_path() {
    let e = entry("/o");
    assert_eq!(Pig::relocation(&e, &"/t/9".to_string(), &"/o/a/b/c.rs".to_string()), "/t/9/a/b/c.rs");
}

#[test]
fn clean_moves_files_below_a_snapshot_named_directory() {
    let e = entry("/o");
    let files = names(&["/o/.pig.context.json/x", "/o/.pig.context.yaml", "/o/a.rs"]);
    let moves = Pig::clean_entry(&e, &names(&["/o/a.rs"]), &files, &"/t".to_string());
    assert_eq!(moves, vec![("/o/.pig.context.json/x".to_string(), "/t/.pig.context.json/x".to_string())]);
}

#[test]
fn clean_moves_exactly_the_one_stale_file() {
    let e = entry("/o");
    let files = names(&["/o/a.rs", "/o/b.rs", "/o/.pig.context.json", "/o/.pig.context.yaml"]);
    let trash = Pig::trash(&"/p/pig.yaml".to_string(), &"42".to_string());
    let moves = Pig::clean_entry(&e, &names(&["/o/a.rs"]), &files, &trash);
    assert_eq!(moves.len(), 1);
    assert_eq!(moves[0], ("/o/b.rs".to_string(), "/p/.pig.trash/42/b.rs".to_string()));
}
