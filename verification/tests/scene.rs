use hyge::content::{AssetId, PrefabId};
use hyge::library::{EnvironmentLibrary, PrefabLibrary};
use hyge::prefab::{Prefab, PrefabAsset, PrefabAssets, PrefabNode, SerializedComponentOverride, WorldAsset};
use hyge::scene::{
    diff_from_comparisons, initial_load_diff, link_child, merge_children, reload_step, should_reload,
    ParentLinkError, ReloadEvent, ReloadStep, SceneDocumentDiff, WorldLoader,
};

#[test]
fn prefab_asset_extensions() {
    assert_eq!(PrefabAsset::extensions(), &["hyge-prefab"]);
}

#[test]
fn world_asset_extensions() {
    assert_eq!(WorldAsset::extensions(), &["hyge-world"]);
}

#[test]
fn diff_world_documents_reports_changed_roots_and_environment() {
    // Five instances against four: index 2 changed, one removed, the
    // environment and post-process blocks changed.
    let diff = diff_from_comparisons(5, 4, &vec![true, true, false, true], true, true);
    assert_eq!(diff.changed_instances, 1);
    assert_eq!(diff.removed_instances, 1);
    assert!(diff.environment_changed);
    assert!(diff.post_process_changed);
    // Four against six, the first four unchanged.
    let diff_added = diff_from_comparisons(4, 6, &vec![true, true, true, true], false, false);
    assert_eq!(diff_added.added_instances, 2);
}

#[test]
fn identical_documents_report_no_change() {
    let diff = diff_from_comparisons(3, 3, &vec![true, true, true], false, false);
    assert!(!diff.is_empty());
    assert!(!diff.root_instances_changed());
    assert_eq!(diff, SceneDocumentDiff::default());
    assert!(!SceneDocumentDiff::default().is_empty());
    assert_eq!(reload_step(&diff), ReloadStep::RecordOnly);
}

#[test]
fn any_change_is_reported_by_is_empty() {
    let env_only = diff_from_comparisons(2, 2, &vec![true, true], true, false);
    assert!(env_only.is_empty());
    assert!(!env_only.root_instances_changed());
    assert_eq!(reload_step(&env_only), ReloadStep::ReplaceScene);
    let changed = diff_from_comparisons(2, 2, &vec![true, false], false, false);
    assert!(changed.root_instances_changed());
    assert_eq!(changed.added_instances, 0);
    assert_eq!(changed.removed_instances, 0);
}

#[test]
fn reload_without_previous_document_counts_all_as_added() {
    let diff = initial_load_diff(5);
    assert_eq!(diff.added_instances, 5);
    assert_eq!(diff.removed_instances, 0);
    assert_eq!(diff.changed_instances, 0);
    assert!(diff.is_empty());
    assert!(!initial_load_diff(0).is_empty());
}

#[test]
fn reload_events_match_by_path_or_content_id() {
    let current = AssetId::from_content(b"scene-v1");
    let other = AssetId::from_content(b"other");
    let by_path = vec![ReloadEvent { path_matches: true, id: other }];
    let by_id = vec![ReloadEvent { path_matches: false, id: current }];
    let neither = vec![ReloadEvent { path_matches: false, id: other }];
    assert!(should_reload(&by_path, Some(current)));
    assert!(should_reload(&by_id, Some(current)));
    assert!(!should_reload(&by_id, None));
    assert!(!should_reload(&neither, Some(current)));
    assert!(!should_reload(&Vec::new(), Some(current)));
}

#[test]
fn world_loader_rejects_out_of_range_parent() {
    let links = WorldLoader::resolve_parent_links(&vec![Some(99)]);
    assert!(links.links.is_empty());
    assert_eq!(
        links.error,
        Some(ParentLinkError::OutOfRange { index: 0, parent_index: 99, count: 1 })
    );
}

#[test]
fn world_loader_links_children_in_order() {
    let links = WorldLoader::resolve_parent_links(&vec![None, Some(0), None, Some(1)]);
    assert_eq!(links.error, None);
    assert_eq!(links.links, vec![(0, 1), (1, 3)]);
}

#[test]
fn world_loader_rejects_self_parent_after_wiring_earlier_links() {
    let links = WorldLoader::resolve_parent_links(&vec![None, Some(0), Some(2), Some(0)]);
    assert_eq!(links.links, vec![(0, 1)]);
    assert_eq!(links.error, Some(ParentLinkError::SelfParent { index: 2 }));
}

#[test]
fn link_child_does_not_duplicate() {
    let mut children = vec![7u64, 9];
    link_child(&mut children, 9);
    assert_eq!(children, vec![7, 9]);
    link_child(&mut children, 3);
    assert_eq!(children, vec![7, 9, 3]);
    link_child(&mut children, 3);
    assert_eq!(children, vec![7, 9, 3]);
}

#[test]
fn prefab_node_named_is_a_leaf() {
    let node = PrefabNode::named("root");
    assert_eq!(node.name, "root");
    assert!(node.components.is_empty());
    assert!(node.children.is_empty());
    assert!(!node.persist);
    assert_eq!(PrefabNode::default().name, "");
}

fn sample_prefab(bytes: &[u8]) -> Prefab {
    let mut root = PrefabNode::named("root");
    root.components.push(SerializedComponentOverride {
        type_path: "hyge_scene::components::Name".to_string(),
        data: vec![1, 2, 3],
    });
    let mut child = PrefabNode::named("child");
    child.persist = true;
    child.children.push(PrefabNode::named("grandchild"));
    root.children.push(child);
    root.children.push(PrefabNode::named("second"));
    Prefab::from_encoding("sample".to_string(), root, PrefabAssets::default(), bytes)
}

#[test]
fn prefab_blake3_id_matches_content() {
    let prefab = sample_prefab(b"encoded-prefab");
    assert_eq!(prefab.prefab_id, PrefabId::compute(b"encoded-prefab"));
    assert_eq!(prefab.name, "sample");
}

#[test]
fn spawn_plan_is_depth_first_with_parents_first() {
    let prefab = sample_prefab(b"p");
    let plan = prefab.spawn_plan();
    let names: Vec<&str> = plan.iter().map(|s| s.name.as_str()).collect();
    assert_eq!(names, vec!["root", "child", "grandchild", "second"]);
    let parents: Vec<Option<usize>> = plan.iter().map(|s| s.parent).collect();
    assert_eq!(parents, vec![None, Some(0), Some(1), Some(0)]);
    let persist: Vec<bool> = plan.iter().map(|s| s.persist).collect();
    assert_eq!(persist, vec![false, true, false, false]);
    assert_eq!(plan[2].path, vec![0, 0]);
    assert_eq!(plan[3].path, vec![1]);
    assert!(plan[0].path.is_empty());
}

#[test]
fn prefab_library_insert_get_replace() {
    let mut library = PrefabLibrary::default();
    assert!(library.is_empty());
    let a = sample_prefab(b"a");
    let a_id = a.prefab_id;
    library.insert(a);
    let b = sample_prefab(b"b");
    let b_id = b.prefab_id;
    library.insert(b);
    assert_eq!(library.len(), 2);
    assert_eq!(library.get(&a_id).expect("a").prefab_id, a_id);
    assert!(library.get(&PrefabId::compute(b"missing")).is_none());
    let mut a2 = sample_prefab(b"a");
    a2.name = "replaced".to_string();
    library.insert(a2);
    assert_eq!(library.len(), 2);
    assert_eq!(library.get(&a_id).expect("a").name, "replaced");
    assert_eq!(library.get(&b_id).expect("b").name, "sample");
}

#[test]
fn environment_library_insert_and_get() {
    let mut library = EnvironmentLibrary::default();
    let sky = AssetId::from_content(b"runtime-sky");
    assert!(library.get(&sky).is_none());
    library.insert(sky, vec![1, 2, 3]);
    assert_eq!(library.get(&sky), Some(&[1u8, 2, 3][..]));
    library.insert(sky, vec![4]);
    assert_eq!(library.get(&sky), Some(&[4u8][..]));
    assert!(library.get(&AssetId::null()).is_none());
}

#[test]
fn merge_children_appends_without_repeats() {
    assert_eq!(merge_children(Some(vec![1, 2]), vec![2, 3, 3, 4]), vec![1, 2, 3, 4]);
    assert_eq!(merge_children(None, vec![5, 5]), vec![5, 5]);
    assert_eq!(merge_children(Some(Vec::new()), Vec::new()), Vec::<u64>::new());
}
