//! The lenses above the dependencies of a file and the blocks that show them.
use version_lens::blocks::{
    adopt_blocks, reconcile_version_lens_blocks, BlockMap, Refresh, VersionLensState,
};
use version_lens::lens::{
    badge_signature, build_renderer, chip_id, lens_signature, update_version_lens, DesiredLens,
    Lens, LensUpdate, Rendering, VersionCache,
};
use version_lens::manifest::LensFile;
use version_lens::tiers::{compute_tiers, Badge, Color};
use version_lens::version::Version;
use version_lens::workspace::{build_workspace_context, WorkspaceCache};

const MANIFEST: &str = "{\n  \"dependencies\": {\n    \"a\": \"^1.0.0\",\n    \"b\": \"catalog:\",\n    \"c\": \"file:../c\"\n  },\n  \"devDependencies\": {\n    \"a\": \"1.1.0\",\n    \"d\": \"workspace:*\",\n    \"e\": \"~2.0.0\"\n  }\n}";

fn update(
    text: &str,
    kind: LensFile,
    in_project: bool,
    workspaces: &mut WorkspaceCache,
    cache: &mut VersionCache,
) -> LensUpdate {
    update_version_lens(text, kind, Some(1), in_project, workspaces, cache)
}

fn shown(lens: &Lens) -> String {
    lens_signature(lens)
}

fn all_shown(desired: &[DesiredLens]) -> Vec<(String, String)> {
    desired.iter().map(|d| (d.name.clone(), shown(&d.lens))).collect()
}

fn pairs(expected: &[(&str, &str)]) -> Vec<(String, String)> {
    expected.iter().map(|(a, b)| (a.to_string(), b.to_string())).collect()
}

fn places(desired: &[DesiredLens]) -> Vec<(String, String, u32, u32)> {
    desired
        .iter()
        .map(|d| (d.context.clone(), d.name.clone(), d.row, d.indent))
        .collect()
}

#[test]
fn lenses_wait_and_then_tell() {
    let mut workspaces = WorkspaceCache::new();
    let mut cache = VersionCache::new();
    let kind = LensFile::PackageJson;
    let first = update(MANIFEST, kind, true, &mut workspaces, &mut cache);
    assert_eq!(first.to_fetch, vec!["a", "e"]);
    assert!(first.build_workspace);
    assert_eq!(
        all_shown(&first.desired),
        pairs(&[("a", "loading"), ("b", "loading"), ("a", "loading"), ("d", "loading"), ("e", "loading")])
    );
    // Nothing is asked for again while the answers are on their way.
    let second = update(MANIFEST, kind, true, &mut workspaces, &mut cache);
    assert!(second.to_fetch.is_empty());
    assert!(!second.build_workspace);
    assert_eq!(places(&second.desired), places(&first.desired));

    cache.store("a".to_string(), vec![Version::new(1, 0, 0), Version::new(1, 1, 0)]);
    cache.store("e".to_string(), vec![]);
    let yaml = "catalog:\n  b: ^3.0.0\n".to_string();
    workspaces.finish(1, build_workspace_context(&Some(yaml), &vec![]));
    let third = update(MANIFEST, kind, true, &mut workspaces, &mut cache);
    assert!(third.to_fetch.is_empty() && !third.build_workspace);
    assert_eq!(
        all_shown(&third.desired),
        pairs(&[
            ("a", "↑ minor 1.1.0:1.1.0"),
            ("b", "note:catalog: → ^3.0.0"),
            ("a", "note:✓ latest"),
            ("d", "note:workspace:* (unresolved)"),
            ("e", "note:× unavailable"),
        ])
    );
    assert_eq!(places(&third.desired), places(&first.desired));
    assert_eq!(
        places(&third.desired)[3],
        ("devDependencies".to_string(), "d".to_string(), 8, 4)
    );
}

#[test]
fn a_package_that_is_known_is_not_asked_for() {
    let mut cache = VersionCache::new();
    cache.store("a".to_string(), vec![Version::new(2, 0, 0)]);
    let first = update(MANIFEST, LensFile::PackageJson, true, &mut WorkspaceCache::new(), &mut cache);
    assert_eq!(first.to_fetch, vec!["e"]);
    let other = "catalog:\n  e: 1.0.0\n  f: 1.0.0\n  f: 2.0.0\n";
    let second = update(other, LensFile::PnpmWorkspace, true, &mut WorkspaceCache::new(), &mut cache);
    assert_eq!(second.to_fetch, vec!["f"]);
}

#[test]
fn without_a_project_there_is_no_workspace() {
    let mut workspaces = WorkspaceCache::new();
    let done = update(MANIFEST, LensFile::PackageJson, false, &mut workspaces, &mut VersionCache::new());
    assert!(!done.build_workspace);
    let done = update_version_lens(
        MANIFEST,
        LensFile::PackageJson,
        None,
        true,
        &mut workspaces,
        &mut VersionCache::new(),
    );
    assert!(!done.build_workspace);
    let plain = "{\n\"dependencies\": {\n\"a\": \"1.0.0\"\n}\n}";
    let done = update(plain, LensFile::PackageJson, true, &mut workspaces, &mut VersionCache::new());
    assert!(!done.build_workspace);
}

#[test]
fn editing_the_catalogs_makes_the_workspace_be_built_anew() {
    let mut workspaces = WorkspaceCache::new();
    let mut cache = VersionCache::new();
    assert!(update(MANIFEST, LensFile::PackageJson, true, &mut workspaces, &mut cache).build_workspace);
    workspaces.finish(1, build_workspace_context(&None, &vec![]));
    let edited = update("catalog:\n", LensFile::PnpmWorkspace, true, &mut workspaces, &mut cache);
    assert!(!edited.build_workspace);
    assert!(workspaces.context(1).is_none());
    assert!(update(MANIFEST, LensFile::PackageJson, true, &mut workspaces, &mut cache).build_workspace);
}

#[test]
fn signatures_tell_lenses_apart() {
    let versions = [Version::new(1, 0, 1), Version::new(1, 1, 0), Version::new(2, 0, 0)];
    let chips = |count: usize| {
        Lens::Tiers(compute_tiers(&Version::new(1, 0, 0), &versions[..count]).badges())
    };
    let lenses = [
        Lens::Loading,
        Lens::Note("loading".to_string()),
        Lens::Note("".to_string()),
        chips(1),
        chips(2),
        chips(3),
        Lens::Tiers(compute_tiers(&Version::new(0, 1, 0), &versions).badges()),
    ];
    for i in 0..lenses.len() {
        for j in 0..i {
            assert_ne!(shown(&lenses[i]), shown(&lenses[j]));
        }
    }
    assert_eq!(shown(&chips(2)), "↑ patch 1.0.1:1.0.1|↑ minor 1.1.0:1.1.0");
    assert_eq!(badge_signature(&vec![]), "");
}

#[test]
fn lenses_are_drawn_as_chips_or_muted() {
    match build_renderer(Lens::Loading) {
        Rendering::Muted(text) => assert_eq!(text, "checking…"),
        other => panic!("{other:?}"),
    }
    match build_renderer(Lens::Note("✓ latest".to_string())) {
        Rendering::Muted(text) => assert_eq!(text, "✓ latest"),
        other => panic!("{other:?}"),
    }
    let badge = Badge::new("patch", Version::new(1, 0, 1), Color::Success);
    match build_renderer(Lens::Tiers(vec![badge.clone()])) {
        Rendering::Chips(chips) => {
            assert_eq!(chips.len(), 1);
            assert_eq!(chips[0].label, badge.label);
        }
        other => panic!("{other:?}"),
    }
    assert_eq!(chip_id("catalogs.next", "react", 10), "version-lens-catalogs.next-react-10");
}

fn lens(name: &str, row: u32, note: &str) -> DesiredLens {
    DesiredLens {
        context: "catalog".to_string(),
        name: name.to_string(),
        row,
        indent: 2,
        lens: Lens::Note(note.to_string()),
    }
}

fn placed(lenses: Vec<DesiredLens>, ids: Vec<u64>) -> BlockMap {
    let plan = reconcile_version_lens_blocks(BlockMap::new(), lenses);
    adopt_blocks(plan.keep, &plan.insert, &ids)
}

#[test]
fn blocks_update_in_place() {
    let blocks = placed(vec![lens("a", 1, "x"), lens("b", 2, "x"), lens("c", 3, "x")], vec![10, 11, 12]);
    let desired = vec![lens("d", 0, "x"), lens("b", 4, "y"), lens("a", 9, "x")];
    let plan = reconcile_version_lens_blocks(blocks, desired);
    assert_eq!(plan.remove, vec![12]);
    let replaced: Vec<(u64, &str)> =
        plan.replace.iter().map(|(id, lens)| (*id, lens.name.as_str())).collect();
    assert_eq!(replaced, vec![(11, "b")]);
    let inserted: Vec<&str> = plan.insert.iter().map(|lens| lens.name.as_str()).collect();
    assert_eq!(inserted, vec!["d"]);
    let mut after = adopt_blocks(plan.keep, &plan.insert, &vec![20]);
    let mut ids = after.ids();
    ids.sort();
    assert_eq!(ids, vec![10, 11, 20]);
    assert_eq!(after.remove("catalog", "b").unwrap().signature, "note:y");
    assert!(after.remove("catalog", "c").is_none());
}

#[test]
fn the_same_lenses_leave_the_blocks_alone() {
    let lenses = || vec![lens("a", 1, "x"), lens("b", 2, "y")];
    let plan = reconcile_version_lens_blocks(placed(lenses(), vec![1, 2]), lenses());
    assert!(plan.remove.is_empty() && plan.replace.is_empty() && plan.insert.is_empty());
    let mut ids = plan.keep.ids();
    ids.sort();
    assert_eq!(ids, vec![1, 2]);
}

#[test]
fn catalogs_with_the_same_package_have_their_own_blocks() {
    let other = DesiredLens { context: "catalogs.next".to_string(), ..lens("a", 5, "x") };
    let blocks = placed(vec![lens("a", 1, "x"), other], vec![1, 2]);
    assert_eq!(blocks.ids().len(), 2);
}

#[test]
fn an_entry_that_is_listed_twice_gets_a_second_block() {
    let blocks = placed(vec![lens("a", 1, "x")], vec![1]);
    let plan = reconcile_version_lens_blocks(blocks, vec![lens("a", 1, "x"), lens("a", 2, "y")]);
    assert_eq!(plan.insert.len(), 1);
    let after = adopt_blocks(plan.keep, &plan.insert, &vec![2]);
    assert_eq!(after.ids(), vec![2]);
}

#[test]
fn the_first_refresh_is_at_once() {
    let mut state = VersionLensState::new();
    assert_eq!(state.schedule_version_lens_refresh(false), Refresh::Clear);
    assert_eq!(state.schedule_version_lens_refresh(true), Refresh::Now);
    assert_eq!(state.schedule_version_lens_refresh(true), Refresh::Later);
    assert_eq!(state.schedule_version_lens_refresh(false), Refresh::Clear);
    assert_eq!(state.schedule_version_lens_refresh(true), Refresh::Later);
}

#[test]
fn clearing_takes_all_blocks_away() {
    let mut state = VersionLensState::new();
    assert!(state.clear_version_lens().is_empty());
    state.blocks = placed(vec![lens("a", 1, "x"), lens("b", 2, "x")], vec![5, 6]);
    let mut ids = state.clear_version_lens();
    ids.sort();
    assert_eq!(ids, vec![5, 6]);
    assert!(state.blocks.ids().is_empty());
    state.blocks = placed(vec![lens("a", 1, "x")], vec![7]);
    assert_eq!(state.take_blocks().ids(), vec![7]);
    assert!(state.blocks.ids().is_empty());
}

#[test]
fn ids_are_handed_out_once() {
    let blocks = placed(vec![lens("a", 1, "x"), lens("b", 2, "x")], vec![5, 5]);
    assert_eq!(blocks.ids(), vec![5]);
    let plan = reconcile_version_lens_blocks(blocks, vec![]);
    assert_eq!(plan.remove, vec![5]);
}
