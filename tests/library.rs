use vpm_changes::add_package::{AddPackageErr, AddPackageOperation};
use vpm_changes::apply::{
    finish_installs, is_plan_consistent, rollback, stage_package, staged_path, IoError, IoErrorKind, PackageInstaller, UndoStep,
};
use vpm_changes::changes::{Builder, PackageChange, RemoveReason};
use vpm_changes::fs::FileTree;
use vpm_changes::graph::mark_recursive;
use vpm_changes::gui::{
    backup_default, language_from_locales, project_sorting_default, refresh_plan, release_channel_default,
    theme_default, GuiConfig, RefreshPlan, RepositoryLoad, TauriBasePackageInfo, UpdateRepositoryMode, WindowSize,
};
use vpm_changes::legacy::{is_safe_declared, resolve_legacy_asset};
use vpm_changes::package::{PackageCollection, PackageInfo, PackageManifest};
use vpm_changes::project::{UnityProject, UnlockedPackage};
use vpm_changes::version::{DependencyRange, Version, VersionOrder};

fn s(x: &str) -> String {
    x.to_string()
}

fn entries(tree: &FileTree) -> Vec<(String, Option<Vec<u8>>)> {
    let mut v = tree.entries.clone();
    v.sort();
    v
}

/// Writes `Packages/<name>/package.json`, or writes part of it and fails for `fail`.
struct TestInstaller {
    fail: Option<String>,
}

impl PackageInstaller for TestInstaller {
    fn install_package(&self, tree: &mut FileTree, c: &PackageCollection, package: PackageInfo) -> Result<(), IoError> {
        let name = c.packages[package.index].name.clone();
        let dir = format!("Packages/{name}");
        tree.add_dir(dir.clone());
        tree.add_file(format!("{dir}/package.json"), b"{}".to_vec());
        if self.fail.as_deref() == Some(name.as_str()) {
            return Err(IoError { kind: IoErrorKind::Other, message: s("broken archive") });
        }
        Ok(())
    }
}

fn two_package_project() -> (UnityProject, PackageCollection, PackageInfo, PackageInfo) {
    let mut project = UnityProject::new(None);
    project.manifest.add_dependency(s("A"), DependencyRange::version(Version::new(1, 0, 0)));
    project.manifest.add_locked(s("A"), Version::new(1, 0, 0), vec![]);
    project.manifest.add_locked(s("B"), Version::new(1, 0, 0), vec![]);
    project.files.add_dir(s("Packages/A"));
    project.files.add_file(s("Packages/A/package.json"), b"{\"name\":\"A\"}".to_vec());
    project.files.add_dir(s("Packages/A/Runtime"));
    project.files.add_file(s("Packages/A/Runtime/a.cs"), b"class A {}".to_vec());
    project.files.add_dir(s("Packages/B"));
    project.files.add_file(s("Packages/B/package.json"), b"{\"name\":\"B\"}".to_vec());
    project.files.add_dir(s("Assets"));
    project.files.add_file(s("Assets/Old.cs"), b"old".to_vec());
    project.files.add_file(s("Assets/Old.cs.meta"), b"guid: 1".to_vec());
    let mut collection = PackageCollection::new();
    let a = collection.add(PackageManifest::new(s("A"), Version::new(1, 1, 0)));
    let b = collection.add(PackageManifest::new(s("B"), Version::new(1, 1, 0)));
    (project, collection, a, b)
}

#[test]
fn scenario_installer_failure_restores_both_packages() {
    let (mut project, collection, a, b) = two_package_project();
    let plan = project
        .add_package_request(&collection, &vec![a, b], AddPackageOperation::UpgradeLocked, false)
        .unwrap();
    assert_eq!(plan.package_changes().len(), 2);
    let before = entries(&project.files);
    let installer = TestInstaller { fail: Some(s("B")) };

    let result = project.apply_pending_changes(&installer, &collection, &plan);

    assert!(result.is_err());
    assert_eq!(entries(&project.files), before);
    assert_eq!(project.manifest.get_locked(&s("A")).unwrap().version, Version::new(1, 0, 0));
}

#[test]
fn apply_success_updates_manifest_and_files() {
    let (mut project, mut collection, a, _) = two_package_project();
    let c = collection.add(
        PackageManifest::new(s("C"), Version::new(2, 0, 0))
            .add_legacy_package(s("B"))
            .add_legacy_file(s("Assets\\Old.cs"), s("")),
    );
    let plan = project
        .add_package_request(&collection, &vec![a, c], AddPackageOperation::AutoDetected, false)
        .unwrap();
    assert_eq!(plan.package_change(&s("B")).unwrap().as_remove().unwrap().reason(), RemoveReason::Legacy);
    assert!(is_plan_consistent(&plan, &collection));
    let installer = TestInstaller { fail: None };

    project.apply_pending_changes(&installer, &collection, &plan).unwrap();

    assert_eq!(project.manifest.get_locked(&s("A")).unwrap().version, Version::new(1, 1, 0));
    assert_eq!(project.manifest.get_locked(&s("C")).unwrap().version, Version::new(2, 0, 0));
    assert!(project.manifest.get_locked(&s("B")).is_none());
    assert_eq!(project.manifest.get_dependency(&s("C")), Some(DependencyRange::version(Version::new(2, 0, 0))));
    assert_eq!(project.files.get(&s("Packages/A/package.json")), Some(&Some(b"{}".to_vec())));
    assert!(project.files.get(&s("Packages/A/Runtime/a.cs")).is_none());
    assert!(project.files.get(&s("Packages/B")).is_none());
    assert!(project.files.get(&s("Assets/Old.cs")).is_none());
    assert!(project.files.get(&s("Assets/Old.cs.meta")).is_none());
    assert!(project.files.entries.iter().all(|(p, _)| !p.starts_with("Temp")));
}

#[test]
fn apply_in_named_staging_folder_rolls_back() {
    let (mut project, collection, a, _) = two_package_project();
    let plan = project
        .add_package_request(&collection, &vec![a], AddPackageOperation::UpgradeLocked, false)
        .unwrap();
    let before = entries(&project.files);
    let installer = TestInstaller { fail: Some(s("A")) };

    let err = project.apply_pending_changes_in(&installer, &collection, &plan, &s("fixed")).unwrap_err();

    assert_eq!(err.kind, IoErrorKind::Other);
    assert_eq!(entries(&project.files), before);
}

#[test]
fn staged_file_names_carry_the_marker() {
    let root = s("Temp/vrc-get/x/A");
    let dir = s("Packages/A");
    assert_eq!(staged_path(&root, &dir, &s("Packages/A/Runtime/a.cs"), true), "Temp/vrc-get/x/A/Runtime/.__removed_a.cs");
    assert_eq!(staged_path(&root, &dir, &s("Packages/A/Runtime"), false), "Temp/vrc-get/x/A/Runtime");
    assert_eq!(staged_path(&root, &dir, &s("Packages/A"), false), "Temp/vrc-get/x/A");
}

#[test]
fn rollback_undoes_steps_in_reverse() {
    let mut tree = FileTree::new();
    tree.add_file(s("Packages/A/x"), b"1".to_vec());
    let before = entries(&tree);
    tree.add_dir(s("Temp"));
    tree.rename_entry(&s("Packages/A/x"), s("Temp/x"));
    let mut log = vec![UndoStep::Created { path: s("Temp") }, UndoStep::Renamed { from: s("Packages/A/x"), to: s("Temp/x") }];
    rollback(&mut tree, &mut log);
    assert_eq!(entries(&tree), before);
    assert!(log.is_empty());
}

#[test]
fn reinstall_at_locked_version_when_auto_detected() {
    let mut project = UnityProject::new(None);
    project.manifest.add_dependency(s("A"), DependencyRange::version(Version::new(1, 0, 0)));
    project.manifest.add_locked(s("A"), Version::new(1, 0, 0), vec![]);
    let mut collection = PackageCollection::new();
    let a = collection.add(PackageManifest::new(s("A"), Version::new(1, 0, 0)));

    let plan = project
        .add_package_request(&collection, &vec![a], AddPackageOperation::AutoDetected, false)
        .unwrap();

    assert_eq!(plan.package_changes().len(), 1);
    let install = plan.package_change(&s("A")).unwrap().as_install().unwrap();
    assert_eq!(install.install_package(), Some(a));
    assert!(install.is_adding_to_locked());
    assert_eq!(install.to_dependencies(), None);
}

#[test]
fn nothing_queued_gives_dependency_entries_only() {
    let mut project = UnityProject::new(None);
    project.manifest.add_locked(s("A"), Version::new(1, 0, 0), vec![]);
    let mut collection = PackageCollection::new();
    let a = collection.add(PackageManifest::new(s("A"), Version::new(1, 0, 0)).add_legacy_package(s("L")));

    let plan = project
        .add_package_request(&collection, &vec![a], AddPackageOperation::InstallToDependencies, false)
        .unwrap();

    assert_eq!(plan.package_changes().len(), 1);
    assert!(plan.conflicts().is_empty());
    assert!(plan.remove_legacy_files().is_empty());
    assert!(plan.remove_legacy_folders().is_empty());
    let install = plan.package_change(&s("A")).unwrap().as_install().unwrap();
    assert_eq!(install.install_package(), None);
}

#[test]
fn installed_as_unlocked_is_refused() {
    let mut project = UnityProject::new(None);
    project.unlocked_packages.push(UnlockedPackage { dir_name: s("A"), name: None, vpm_dependencies: vec![] });
    let mut collection = PackageCollection::new();
    let a = collection.add(PackageManifest::new(s("A"), Version::new(1, 0, 0)));
    let err = project.add_package_request(&collection, &vec![a], AddPackageOperation::AutoDetected, false).err();
    assert_eq!(err, Some(AddPackageErr::InstalledAsUnlocked { package_name: s("A") }));
}

#[test]
fn upgrading_unlocked_package_is_refused() {
    let project = UnityProject::new(None);
    let mut collection = PackageCollection::new();
    let a = collection.add(PackageManifest::new(s("A"), Version::new(1, 0, 0)));
    let err = project.add_package_request(&collection, &vec![a], AddPackageOperation::UpgradeLocked, false).err();
    assert_eq!(err, Some(AddPackageErr::UpgradingNonLockedPackage { package_name: s("A") }));
}

#[test]
fn downgrading_to_a_newer_version_is_refused() {
    let mut project = UnityProject::new(None);
    project.manifest.add_locked(s("A"), Version::new(1, 0, 0), vec![]);
    let mut collection = PackageCollection::new();
    let same = collection.add(PackageManifest::new(s("A"), Version::new(1, 0, 0)));
    let err = project.add_package_request(&collection, &vec![same], AddPackageOperation::Downgrade, false).err();
    assert_eq!(err, Some(AddPackageErr::UpgradingWithDowngrade { package_name: s("A") }));
}

#[test]
fn downgrade_rewrites_dependency_entry() {
    let mut project = UnityProject::new(None);
    project.manifest.add_dependency(s("A"), DependencyRange::version(Version::new(2, 0, 0)));
    project.manifest.add_locked(s("A"), Version::new(2, 0, 0), vec![]);
    let mut collection = PackageCollection::new();
    let old = collection.add(PackageManifest::new(s("A"), Version::new(1, 0, 0)));
    let plan = project.add_package_request(&collection, &vec![old], AddPackageOperation::Downgrade, false).unwrap();
    let install = plan.package_change(&s("A")).unwrap().as_install().unwrap();
    assert_eq!(install.install_package(), Some(old));
    assert_eq!(install.to_dependencies(), Some(DependencyRange::version(Version::new(1, 0, 0))));
}

#[test]
fn missing_dependency_is_reported() {
    let project = UnityProject::new(None);
    let mut collection = PackageCollection::new();
    let a = collection.add(
        PackageManifest::new(s("A"), Version::new(1, 0, 0)).add_vpm_dependency(s("Missing"), DependencyRange::version(Version::new(1, 0, 0))),
    );
    let err = project.add_package_request(&collection, &vec![a], AddPackageOperation::InstallToDependencies, false).err();
    assert_eq!(err, Some(AddPackageErr::DependencyNotFound { dependency_name: s("Missing") }));
}

#[test]
fn newer_request_supersedes_older_one() {
    let project = UnityProject::new(None);
    let mut collection = PackageCollection::new();
    let old = collection.add(PackageManifest::new(s("A"), Version::new(1, 0, 0)));
    let new = collection.add(PackageManifest::new(s("A"), Version::new(1, 2, 0)));
    let plan = project
        .add_package_request(&collection, &vec![old, new], AddPackageOperation::InstallToDependencies, false)
        .unwrap();
    assert_eq!(plan.package_changes().len(), 1);
    let install = plan.package_change(&s("A")).unwrap().as_install().unwrap();
    assert_eq!(install.install_package(), Some(new));
}

#[test]
fn dependency_resolution_picks_newest_release_in_range() {
    let project = UnityProject::new(None);
    let mut collection = PackageCollection::new();
    let a = collection.add(
        PackageManifest::new(s("A"), Version::new(1, 0, 0))
            .add_vpm_dependency(s("B"), DependencyRange::between(Version::new(1, 0, 0), Version::new(2, 0, 0))),
    );
    collection.add(PackageManifest::new(s("B"), Version::new(1, 0, 0)));
    let b13 = collection.add(PackageManifest::new(s("B"), Version::new(1, 3, 0)));
    collection.add(PackageManifest::new(s("B"), Version::new(2, 0, 0)));
    collection.add(PackageManifest::new(s("B"), Version::new_pre(1, 4, 0, 1)));
    let plan = project.add_package_request(&collection, &vec![a], AddPackageOperation::InstallToDependencies, false).unwrap();
    assert_eq!(plan.package_change(&s("B")).unwrap().as_install().unwrap().install_package(), Some(b13));
}

#[test]
fn locked_package_rejecting_new_version_is_a_conflict() {
    let mut project = UnityProject::new(None);
    project.manifest.add_locked(s("A"), Version::new(1, 0, 0), vec![]);
    project.manifest.add_locked(
        s("User"),
        Version::new(1, 0, 0),
        vec![(s("A"), DependencyRange::between(Version::new(1, 0, 0), Version::new(2, 0, 0)))],
    );
    let mut collection = PackageCollection::new();
    let a2 = collection.add(PackageManifest::new(s("A"), Version::new(2, 0, 0)));
    let plan = project.add_package_request(&collection, &vec![a2], AddPackageOperation::UpgradeLocked, false).unwrap();
    assert_eq!(plan.conflicts().len(), 1);
    assert_eq!(plan.conflicts()[0].0, "A");
    assert_eq!(plan.conflicts()[0].1.conflicting_packages(), &vec![s("User")]);
    assert!(!plan.conflicts()[0].1.conflicts_with_unity());
}

#[test]
fn package_needing_newer_unity_is_a_conflict() {
    let project = UnityProject::new(Some((2019, 4)));
    let mut collection = PackageCollection::new();
    let a = collection.add(PackageManifest::new(s("A"), Version::new(1, 0, 0)).set_unity(Some((2022, 3))));
    let plan = project.add_package_request(&collection, &vec![a], AddPackageOperation::AutoDetected, false).unwrap();
    assert_eq!(plan.conflicts().len(), 1);
    assert!(plan.conflicts()[0].1.conflicts_with_unity());
}

#[test]
fn unused_package_kept_when_hand_placed_package_needs_it() {
    let mut project = UnityProject::new(None);
    project.manifest.add_dependency(s("A"), DependencyRange::version(Version::new(1, 0, 0)));
    project.manifest.add_locked(s("A"), Version::new(1, 0, 0), vec![(s("B"), DependencyRange::version(Version::new(1, 0, 0)))]);
    project.manifest.add_locked(s("B"), Version::new(1, 0, 0), vec![]);
    project.unlocked_packages.push(UnlockedPackage { dir_name: s("Local"), name: Some(s("local")), vpm_dependencies: vec![s("B")] });
    let mut collection = PackageCollection::new();
    let a = collection.add(PackageManifest::new(s("A"), Version::new(1, 1, 0)));
    let plan = project.add_package_request(&collection, &vec![a], AddPackageOperation::AutoDetected, false).unwrap();
    assert_eq!(plan.package_changes().len(), 1);
    assert!(plan.package_change(&s("B")).is_none());
}

#[test]
fn builder_records_changes_and_conflicts() {
    let mut collection = PackageCollection::new();
    let a = collection.add(PackageManifest::new(s("A"), Version::new(1, 0, 0)));
    let mut b = Builder::new();
    b.add_to_dependencies(s("A"), DependencyRange::version(Version::new(1, 0, 0)));
    b.install_to_locked(&collection, a);
    b.remove(s("B"), RemoveReason::Requested);
    b.remove_unused(s("B"));
    b.remove_unused(s("C"));
    b.conflicts(s("A"), s("X"));
    b.conflict_multiple(s("A"), vec![s("Y"), s("Z")]);
    b.conflicts_unity(s("A"));
    assert_eq!(b.get_dependencies(&s("A")), Some(DependencyRange::version(Version::new(1, 0, 0))));
    assert_eq!(b.get_installing(&s("A")), Some(a));
    assert_eq!(b.get_change(&s("B")).unwrap().as_remove().unwrap().reason(), RemoveReason::Requested);
    assert_eq!(b.get_change(&s("C")).unwrap().as_remove().unwrap().reason(), RemoveReason::Unused);
    assert_eq!(b.conflicts.len(), 1);
    assert_eq!(b.conflicts[0].1.conflicting_packages(), &vec![s("X"), s("Y"), s("Z")]);
    assert!(b.conflicts[0].1.conflicts_with_unity());
}

#[test]
fn builder_install_already_locked_does_not_lock() {
    let mut collection = PackageCollection::new();
    let a = collection.add(PackageManifest::new(s("A"), Version::new(1, 0, 0)));
    let mut b = Builder::new();
    b.install_already_locked(&collection, a);
    let install = b.get_change(&s("A")).unwrap().as_install().unwrap();
    assert_eq!(install.install_package(), Some(a));
    assert!(!install.is_adding_to_locked());
    assert_eq!(b.get_installing(&s("A")), None);
}

#[test]
fn mark_follows_dependencies_transitively() {
    let g = vec![(s("a"), vec![s("b")]), (s("b"), vec![s("c")]), (s("x"), vec![s("y")])];
    let mut marked = mark_recursive(&g, &vec![s("a")]);
    marked.sort();
    assert_eq!(marked, vec![s("a"), s("b"), s("c")]);
    assert!(mark_recursive(&g, &vec![]).is_empty());
}

#[test]
fn version_order() {
    assert_eq!(Version::new(1, 2, 3).compare(&Version::new(1, 10, 0)), VersionOrder::Less);
    assert_eq!(Version::new(2, 0, 0).compare(&Version::new(1, 99, 99)), VersionOrder::Greater);
    assert_eq!(Version::new_pre(1, 0, 0, 1).compare(&Version::new(1, 0, 0)), VersionOrder::Less);
    assert_eq!(Version::new_pre(1, 0, 0, 2).compare(&Version::new_pre(1, 0, 0, 1)), VersionOrder::Greater);
    assert_eq!(Version::new(1, 0, 0).compare(&Version::new(1, 0, 0)), VersionOrder::Equal);
}

#[test]
fn dependency_ranges() {
    let bare = DependencyRange::version(Version::new(1, 2, 0));
    assert!(bare.matches(&Version::new(3, 0, 0)));
    assert!(!bare.matches(&Version::new(1, 1, 9)));
    assert_eq!(bare.as_single_version(), Some(Version::new(1, 2, 0)));
    let caret = DependencyRange::between(Version::new(1, 2, 0), Version::new(2, 0, 0));
    assert!(caret.matches(&Version::new(1, 9, 0)));
    assert!(!caret.matches(&Version::new(2, 0, 0)));
    assert_eq!(caret.as_single_version(), None);
}

#[test]
fn legacy_path_safety() {
    assert!(is_safe_declared("Assets\\Folder\\File.cs"));
    assert!(is_safe_declared("Packages/com.example"));
    assert!(!is_safe_declared("Assets"));
    assert!(!is_safe_declared("Assets/../secret"));
    assert!(!is_safe_declared("Assets/./x"));
    assert!(!is_safe_declared("Assets//x"));
    assert!(!is_safe_declared("Assets/x/"));
    assert!(!is_safe_declared("/Assets/x"));
    assert!(!is_safe_declared("C:\\Assets\\x"));
    assert!(!is_safe_declared("Library/x"));
}

#[test]
fn legacy_guid_needs_existing_safe_asset() {
    let mut tree = FileTree::new();
    tree.add_file(s("Assets/Gone.cs.meta"), b"guid: abc".to_vec());
    tree.add_file(s("Assets/Here.cs"), b"x".to_vec());
    tree.add_file(s("Assets/Here.cs.meta"), b"fileFormatVersion: 2\nguid: abc\n".to_vec());
    assert_eq!(resolve_legacy_asset(&tree, &s("Assets\\Old.cs"), &s("abc"), false), Some(s("Assets/Here.cs")));
    assert_eq!(resolve_legacy_asset(&tree, &s("Assets\\Old.cs"), &s("abc"), true), None);
    assert_eq!(resolve_legacy_asset(&tree, &s("Assets\\Here.cs"), &s(""), false), Some(s("Assets/Here.cs")));
}

#[test]
fn gui_defaults() {
    assert_eq!(theme_default(), "system");
    assert_eq!(backup_default(), "default");
    assert_eq!(project_sorting_default(), "lastModified");
    assert_eq!(release_channel_default(), "stable");
    assert_eq!(WindowSize::default(), WindowSize { width: 1300, height: 800 });
    let config = GuiConfig::default();
    assert_eq!(config.window_size, WindowSize { width: 1300, height: 800 });
    assert_eq!(config.theme, "system");
}

#[test]
fn gui_fix_defaults() {
    let mut config = GuiConfig::default();
    config.language = s("zh_cn");
    config.backup_format = s("");
    config.project_sorting = s("name");
    config.fix_defaults();
    assert_eq!(config.language, "zh_hans");
    assert_eq!(config.backup_format, "default");
    assert_eq!(config.project_sorting, "name");
}

#[test]
fn language_from_preferred_locales() {
    assert_eq!(language_from_locales(&vec![s("fr-FR"), s("ja-JP"), s("en-US")]), "ja");
    assert_eq!(language_from_locales(&vec![s("zh-Hant-TW")]), "zh_hans");
    assert_eq!(language_from_locales(&vec![s("de")]), "de");
    assert_eq!(language_from_locales(&vec![s("fr")]), "en");
    assert_eq!(language_from_locales(&vec![]), "en");
}

#[test]
fn environment_refresh_decisions() {
    assert_eq!(
        refresh_plan(false, None, None, UpdateRepositoryMode::Skip),
        RefreshPlan { load_environment: true, reload_settings: false, load: RepositoryLoad::Nothing }
    );
    assert_eq!(
        refresh_plan(true, Some(500), Some(10), UpdateRepositoryMode::IfOutdatedOrNecessary),
        RefreshPlan { load_environment: false, reload_settings: false, load: RepositoryLoad::Nothing }
    );
    assert_eq!(
        refresh_plan(true, Some(5000), Some(300001), UpdateRepositoryMode::IfOutdatedOrNecessaryForLocal),
        RefreshPlan { load_environment: false, reload_settings: true, load: RepositoryLoad::LocalOnly }
    );
    assert_eq!(
        refresh_plan(true, None, Some(10), UpdateRepositoryMode::Force),
        RefreshPlan { load_environment: false, reload_settings: true, load: RepositoryLoad::All }
    );
}

#[test]
fn gui_package_info() {
    let manifest = PackageManifest::new(s("A"), Version::new_pre(1, 2, 3, 4))
        .add_vpm_dependency(s("B"), DependencyRange::version(Version::new(1, 0, 0)))
        .add_legacy_package(s("Old"));
    let info = TauriBasePackageInfo::new(&manifest);
    assert_eq!(info.name, "A");
    assert_eq!((info.version.major, info.version.minor, info.version.patch, info.version.pre), (1, 2, 3, Some(4)));
    assert_eq!(info.vpm_dependencies, vec![s("B")]);
    assert_eq!(info.legacy_packages, vec![s("Old")]);
}

#[test]
fn plan_consistency_check() {
    let (project, collection, a, _) = two_package_project();
    let plan = project.add_package_request(&collection, &vec![a], AddPackageOperation::UpgradeLocked, false).unwrap();
    assert!(is_plan_consistent(&plan, &collection));
    let mut other = PackageCollection::new();
    other.add(PackageManifest::new(s("Z"), Version::new(1, 0, 0)));
    other.add(PackageManifest::new(s("Z"), Version::new(1, 0, 0)));
    assert!(!is_plan_consistent(&plan, &other));
    match plan.package_change(&s("A")) {
        Some(PackageChange::Install(_)) => {}
        _ => panic!("A is not installed"),
    }
}

#[test]
fn finish_installs_rolls_back_on_first_failure() {
    let mut collection = PackageCollection::new();
    let a = collection.add(PackageManifest::new(s("A"), Version::new(1, 0, 0)));
    let b = collection.add(PackageManifest::new(s("B"), Version::new(1, 0, 0)));
    let mut tree = FileTree::new();
    tree.add_file(s("Assets/x"), b"x".to_vec());
    let before = entries(&tree);
    tree.add_dir(s("Temp"));
    let mut log = vec![UndoStep::Created { path: s("Temp") }];
    tree.add_file(s("Packages/A/partial"), b"p".to_vec());
    let outcomes = vec![Ok(()), Err(IoError { kind: IoErrorKind::NotFound, message: s("gone") })];
    let err = finish_installs(&mut tree, &mut log, &collection, &vec![a, b], &outcomes).unwrap_err();
    assert_eq!(err.kind, IoErrorKind::NotFound);
    assert_eq!(err.message, "gone");
    assert_eq!(entries(&tree), before);
}

#[test]
fn finish_installs_keeps_tree_when_all_succeed() {
    let mut collection = PackageCollection::new();
    let a = collection.add(PackageManifest::new(s("A"), Version::new(1, 0, 0)));
    let mut tree = FileTree::new();
    tree.add_file(s("Packages/A/package.json"), b"{}".to_vec());
    let before = entries(&tree);
    let mut log = Vec::new();
    assert!(finish_installs(&mut tree, &mut log, &collection, &vec![a], &vec![Ok(())]).is_ok());
    assert_eq!(entries(&tree), before);
}

#[test]
fn staging_reports_colliding_paths() {
    let mut tree = FileTree::new();
    tree.add_dir(s("Packages/A"));
    tree.add_file(s("Packages/A/x"), b"1".to_vec());
    tree.add_dir(s("Packages/A/.__removed_x"));
    let before = entries(&tree);
    let mut log = Vec::new();
    let err = stage_package(&mut tree, &mut log, &s("Temp/vrc-get/t"), &s("A")).unwrap_err();
    assert_eq!(err.kind, IoErrorKind::AlreadyExists);
    rollback(&mut tree, &mut log);
    assert_eq!(entries(&tree), before);
}

#[test]
fn staging_moves_package_and_reports_absent_folder() {
    let mut tree = FileTree::new();
    tree.add_dir(s("Packages/A"));
    tree.add_file(s("Packages/A/x.cs"), b"1".to_vec());
    let mut log = Vec::new();
    assert_eq!(stage_package(&mut tree, &mut log, &s("Temp/vrc-get/t"), &s("A")).unwrap(), true);
    assert_eq!(tree.get(&s("Temp/vrc-get/t/A/.__removed_x.cs")), Some(&Some(b"1".to_vec())));
    assert_eq!(tree.get(&s("Temp/vrc-get/t/A")), Some(&None));
    assert!(tree.get(&s("Packages/A")).is_none());
    assert_eq!(stage_package(&mut tree, &mut log, &s("Temp/vrc-get/t"), &s("B")).unwrap(), false);
}

#[test]
fn apply_of_dependency_only_plan_succeeds() {
    let mut project = UnityProject::new(None);
    project.manifest.add_locked(s("A"), Version::new(1, 0, 0), vec![]);
    project.files.add_file(s("Assets/keep.cs"), b"k".to_vec());
    let mut collection = PackageCollection::new();
    let a = collection.add(PackageManifest::new(s("A"), Version::new(1, 0, 0)));
    let plan = project.add_package_request(&collection, &vec![a], AddPackageOperation::InstallToDependencies, false).unwrap();
    let before = entries(&project.files);
    project.apply_pending_changes(&TestInstaller { fail: None }, &collection, &plan).unwrap();
    assert_eq!(entries(&project.files), before);
    assert_eq!(project.manifest.get_dependency(&s("A")), Some(DependencyRange::version(Version::new(1, 0, 0))));
}

#[test]
fn add_package_error_messages() {
    assert_eq!(
        AddPackageErr::DowngradingNonLockedPackage { package_name: s("A") }.message(),
        "Package A is not locked, so it cannot be downgraded"
    );
    assert_eq!(
        AddPackageErr::DependencyNotFound { dependency_name: s("B") }.message(),
        "Package B (maybe dependencies of the package) not found"
    );
}
