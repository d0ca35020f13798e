use rhq::cache::{load_registry, save_registry};
use rhq::ops::{CloneCommand, ListCommand, ListFormat, RefreshCommand, Vcs};
use rhq::query::Query;
use rhq::registry::{Registry, Repository};
use rhq::workspace::{Config, Workspace};
use rhq::RhqError;

fn test_config() -> Config {
    Config {
        default_host: String::from("github.com"),
        default_use_ssh: false,
        include_dirs: Vec::new(),
        exclude_patterns: Vec::new(),
        root_dir: String::from("/repos"),
    }
}

fn workspace_with(paths: &[&str]) -> Workspace {
    let mut ws = Workspace::from_parts(test_config(), Registry::new());
    for p in paths {
        ws.add_repository("/", p, true).unwrap();
    }
    ws
}

#[test]
fn add_deduplicates_by_canonical_path() {
    let mut reg = Registry::new();
    let first = reg.add_repository(Repository::new(
        String::from("/home/u/proj"),
        String::from("proj"),
        None,
    ));
    let second = reg.add_repository(Repository::new(
        String::from("/home/u/proj"),
        String::from("proj"),
        None,
    ));
    assert!(first);
    assert!(!second);
    assert_eq!(reg.len(), 1);
}

#[test]
fn structurally_identical_paths_compare_equal() {
    let mut ws = Workspace::from_parts(test_config(), Registry::new());
    ws.add_repository("/home/u", "proj", true).unwrap();
    let added = ws.add_repository("/home/u", "./sub/../proj/", true).unwrap();
    assert!(!added);
    assert_eq!(ws.registry.len(), 1);
    assert_eq!(ws.registry.get(0).path_string(), "/home/u/proj");
    assert_eq!(ws.registry.get(0).name(), "proj");
}

#[test]
fn add_scenario_repo_and_non_repo() {
    let mut ws = Workspace::from_parts(test_config(), Registry::new());
    let added = ws.add_repository("/home/user", "./proj", true).unwrap();
    assert!(added);
    assert_eq!(ws.registry.len(), 1);
    assert_eq!(ws.registry.get(0).name(), "proj");
    assert_eq!(ws.registry.get(0).path_string(), "/home/user/proj");
    let refused = ws.add_repository("/home/user", "./not-a-repo", false);
    assert!(matches!(refused, Err(RhqError::NotARepository)));
    assert_eq!(ws.registry.len(), 1);
}

#[test]
fn import_never_double_counts_overlapping_roots() {
    let mut ws = Workspace::from_parts(test_config(), Registry::new());
    let candidates = vec![
        String::from("/scan/root/proj"),
        String::from("/scan/root/proj"),
        String::from("/scan/root/other"),
    ];
    let added = ws.import_paths("/", &candidates);
    assert_eq!(added, 2);
    assert_eq!(ws.registry.len(), 2);
    let again = ws.import_paths("/", &candidates);
    assert_eq!(again, 0);
    assert_eq!(ws.registry.len(), 2);
}

#[test]
fn drop_invalid_is_idempotent_without_changes() {
    let mut ws = workspace_with(&["/a/one", "/a/two", "/a/three"]);
    let alive = vec![String::from("/a/one"), String::from("/a/three")];
    let removed = ws.drop_invalid_repositories(&alive);
    assert_eq!(removed, 1);
    let removed_again = ws.drop_invalid_repositories(&alive);
    assert_eq!(removed_again, 0);
    assert_eq!(ws.registry.len(), 2);
}

#[test]
fn drop_invalid_applies_exclusion_patterns() {
    let mut cfg = test_config();
    cfg.exclude_patterns.push(String::from("/a/secret"));
    let mut ws = Workspace::from_parts(cfg, Registry::new());
    ws.add_repository("/", "/a/secret/inner", true).unwrap();
    ws.add_repository("/", "/a/open", true).unwrap();
    let alive = vec![String::from("/a/secret/inner"), String::from("/a/open")];
    let removed = ws.drop_invalid_repositories(&alive);
    assert_eq!(removed, 1);
    assert_eq!(ws.registry.len(), 1);
    assert_eq!(ws.registry.get(0).path_string(), "/a/open");
}

#[test]
fn sort_is_lexicographic_and_idempotent() {
    let mut ws = workspace_with(&["/r/c", "/r/a", "/r/b"]);
    ws.sort_repositories();
    let order: Vec<String> = (0..ws.registry.len())
        .map(|i| ws.registry.get(i).path_string().to_string())
        .collect();
    assert_eq!(order, vec!["/r/a", "/r/b", "/r/c"]);
    ws.sort_repositories();
    let order_again: Vec<String> = (0..ws.registry.len())
        .map(|i| ws.registry.get(i).path_string().to_string())
        .collect();
    assert_eq!(order, order_again);
}

#[test]
fn save_load_round_trips() {
    let ws = workspace_with(&["/r/alpha", "/r/beta"]);
    let text = ws.save_cache();
    assert_eq!(text, "/r/alpha\talpha\n/r/beta\tbeta\n");
    let loaded = load_registry(&text);
    assert_eq!(loaded.len(), 2);
    assert_eq!(loaded.get(0).path_string(), "/r/alpha");
    assert_eq!(loaded.get(0).name(), "alpha");
    assert_eq!(loaded.get(1).path_string(), "/r/beta");
    assert_eq!(loaded.get(1).name(), "beta");
}

#[test]
fn load_skips_malformed_and_duplicate_records() {
    let text = "/r/good\tgood\nno-tab-line\n\tnameless\n/r/good\tagain\n";
    let loaded = load_registry(text);
    assert_eq!(loaded.len(), 1);
    assert_eq!(loaded.get(0).path_string(), "/r/good");
    assert_eq!(loaded.get(0).name(), "good");
}

#[test]
fn empty_registry_saves_to_empty_text() {
    let reg = Registry::new();
    assert_eq!(save_registry(&reg), "");
    assert_eq!(load_registry("").len(), 0);
}

#[test]
fn list_lines_follow_format() {
    let ws = workspace_with(&["/r/one", "/r/two"]);
    let names = ListCommand { format: ListFormat::Name }.lines(&ws);
    assert_eq!(names, vec!["one", "two"]);
    let paths = ListCommand { format: ListFormat::FullPath }.lines(&ws);
    assert_eq!(paths, vec!["/r/one", "/r/two"]);
}

#[test]
fn refresh_command_drops_and_sorts() {
    let mut ws = workspace_with(&["/r/c", "/r/a", "/r/gone"]);
    let alive = vec![String::from("/r/a"), String::from("/r/c")];
    let cmd = RefreshCommand { verbose: false, sort: true };
    let removed = cmd.apply(&mut ws, &alive);
    assert_eq!(removed, 1);
    assert_eq!(ws.registry.len(), 2);
    assert_eq!(ws.registry.get(0).path_string(), "/r/a");
    assert_eq!(ws.registry.get(1).path_string(), "/r/c");
}

#[test]
fn clone_scenario_resolves_and_tracks_destination() {
    let mut ws = Workspace::from_parts(test_config(), Registry::new());
    let cmd = CloneCommand {
        query: Query::parse("ubnt-intrepid/rhq").unwrap(),
        dest: None,
        root: None,
        ssh: false,
        vcs: Vcs::Git,
        verbose: false,
    };
    let (remote, dest) = cmd.plan(&ws).unwrap();
    assert_eq!(remote.url(), "https://github.com/ubnt-intrepid/rhq.git");
    assert_eq!(dest, "/repos/github.com/ubnt-intrepid/rhq");
    let added = ws.register_clone("/", &dest, true).unwrap();
    assert!(added);
    assert_eq!(ws.registry.len(), 1);
    assert_eq!(ws.registry.get(0).path_string(), "/repos/github.com/ubnt-intrepid/rhq");
}

#[test]
fn failed_clone_is_not_tracked() {
    let mut ws = Workspace::from_parts(test_config(), Registry::new());
    let r = ws.register_clone("/", "/repos/github.com/a/b", false);
    assert!(matches!(r, Err(RhqError::VcsError)));
    assert_eq!(ws.registry.len(), 0);
}

#[test]
fn canonicalize_resolves_dots_and_trailing_separators() {
    let (p, name) = rhq::fspath::canonicalize_path("/home/u", "./a/../b/c/");
    assert_eq!(p, "/home/u/b/c");
    assert_eq!(name, "c");
    let (abs, leaf) = rhq::fspath::canonicalize_path("/ignored", "/x//y/.");
    assert_eq!(abs, "/x/y");
    assert_eq!(leaf, "y");
}
