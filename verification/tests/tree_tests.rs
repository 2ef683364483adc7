use quartz::component::{ComponentSpec, ComponentTree};
use quartz::error::Error;
use quartz::composition::CompositionPatch;
use quartz::journal::EventGrant;
use quartz::tree::{desired_spec, replace_desired, same_patch, same_spec, same_tree, split_path};

fn spec(entry: &str) -> ComponentSpec {
    ComponentSpec::new(entry.into(), format!("/artifacts/{entry}.wasm"))
}

fn tree() -> ComponentTree {
    let worker = spec("worker").with_children(vec![spec("tool")]);
    let app = spec("app").with_children(vec![worker, spec("planner")]);
    ComponentTree { roots: vec![app, spec("kernel")] }
}

#[test]
fn paths_split_at_every_separator() {
    assert_eq!(split_path("app"), vec![b"app".to_vec()]);
    assert_eq!(split_path("a/b//c"), vec![b"a".to_vec(), b"b".to_vec(), Vec::new(), b"c".to_vec()]);
    assert_eq!(split_path(""), vec![Vec::<u8>::new()]);
    assert_eq!(split_path("a/"), vec![b"a".to_vec(), Vec::new()]);
}

#[test]
fn lookups_follow_the_first_child_of_each_name() {
    let tree = tree();
    assert_eq!(desired_spec(&tree, "app").map(|s| s.entry.as_str()), Some("app"));
    assert_eq!(desired_spec(&tree, "kernel").map(|s| s.entry.as_str()), Some("kernel"));
    assert_eq!(desired_spec(&tree, "app/planner").map(|s| s.entry.as_str()), Some("planner"));
    assert_eq!(desired_spec(&tree, "app/worker/tool").map(|s| s.entry.as_str()), Some("tool"));
    assert_eq!(desired_spec(&tree, "app/missing"), None);
    assert_eq!(desired_spec(&tree, "app/"), None);
    assert_eq!(desired_spec(&tree, "worker"), None);
    assert_eq!(desired_spec(&tree, ""), None);
}

#[test]
fn a_replacement_is_read_back_and_nothing_else_moves() {
    let mut tree = tree();
    let replacement = spec("worker").with_config(7);
    assert_eq!(replace_desired(&mut tree, "app/worker", replacement), Ok(()));
    assert_eq!(desired_spec(&tree, "app/worker"), Some(&spec("worker").with_config(7)));
    assert_eq!(desired_spec(&tree, "app/worker/tool"), None);
    assert_eq!(desired_spec(&tree, "app/planner"), Some(&spec("planner")));
    assert_eq!(desired_spec(&tree, "kernel"), Some(&spec("kernel")));

    assert_eq!(replace_desired(&mut tree, "kernel", spec("kernel").with_config(3)), Ok(()));
    assert_eq!(tree.roots[1], spec("kernel").with_config(3));
}

#[test]
fn replacing_a_missing_component_changes_nothing() {
    let mut tree = tree();
    assert_eq!(
        replace_desired(&mut tree, "app/missing", spec("missing")),
        Err(Error::UnknownEntry("app/missing".into()))
    );
    assert_eq!(replace_desired(&mut tree, "ghost", spec("ghost")), Err(Error::UnknownEntry("ghost".into())));
    assert_eq!(tree, self::tree());
}

#[test]
fn declarations_compare_field_by_field_and_down_the_tree() {
    assert!(same_spec(&tree().roots[0], &tree().roots[0]));
    assert!(!same_spec(&tree().roots[0], &tree().roots[1]));
    assert!(!same_spec(&spec("app"), &spec("app").with_config(1)));
    assert!(!same_spec(&spec("app"), &spec("app").with_artifact_digest("d".into())));
    assert!(same_spec(&spec("app").with_artifact_digest("d".into()), &spec("app").with_artifact_digest("d".into())));
    let grant = EventGrant { namespace: "quartz".into(), name: "fact".into(), revision: 1 };
    assert!(!same_spec(&spec("app"), &spec("app").with_event_grants(vec![grant.clone()])));
    assert!(same_spec(&spec("app").with_event_grants(vec![grant.clone()]), &spec("app").with_event_grants(vec![grant])));
    let deep = spec("app").with_children(vec![spec("worker").with_children(vec![spec("tool").with_config(2)])]);
    let shallow = spec("app").with_children(vec![spec("worker").with_children(vec![spec("tool")])]);
    assert!(!same_spec(&deep, &shallow));
    let patched = spec("app").with_patches(vec![CompositionPatch::replace("app/worker".into(), spec("worker"))]);
    assert!(same_spec(&patched, &spec("app").with_patches(vec![CompositionPatch::replace("app/worker".into(), spec("worker"))])));
    assert!(!same_spec(&patched, &spec("app").with_patches(vec![CompositionPatch::replace("app/planner".into(), spec("worker"))])));
}

#[test]
fn patches_compare_by_kind_target_and_declaration() {
    assert!(same_patch(&CompositionPatch::remove_root("a".into()), &CompositionPatch::remove_root("a".into())));
    assert!(!same_patch(&CompositionPatch::remove_root("a".into()), &CompositionPatch::remove_root("b".into())));
    assert!(!same_patch(&CompositionPatch::remove_root("a".into()), &CompositionPatch::add_root(spec("a"))));
    assert!(same_patch(&CompositionPatch::add_root(spec("a")), &CompositionPatch::add_root(spec("a"))));
    assert!(!same_patch(&CompositionPatch::add_root(spec("a")), &CompositionPatch::add_root(spec("a").with_config(9))));
}

#[test]
fn compositions_match_roots_by_entry() {
    assert!(same_tree(&tree(), &tree()));
    let reordered = ComponentTree { roots: vec![spec("kernel"), tree().roots.remove(0)] };
    assert!(same_tree(&tree(), &reordered));
    let changed = ComponentTree { roots: vec![tree().roots.remove(0), spec("kernel").with_config(1)] };
    assert!(!same_tree(&tree(), &changed));
    assert!(!same_tree(&tree(), &ComponentTree { roots: vec![spec("kernel")] }));
    let renamed = ComponentTree { roots: vec![tree().roots.remove(0), spec("store")] };
    assert!(!same_tree(&tree(), &renamed));
}
