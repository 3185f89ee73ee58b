use vpm_changes::add_package::{AddPackageErr, AddPackageOperation};
use vpm_changes::changes::{PackageChange, PendingProjectChanges, RemoveReason};
use vpm_changes::package::{PackageCollection, PackageInfo, PackageManifest};
use vpm_changes::project::UnityProject;
use vpm_changes::version::{DependencyRange, Version};
use std::collections::HashSet;

fn s(x: &str) -> String {
    x.to_string()
}

fn range(v: Version) -> DependencyRange {
    DependencyRange::version(v)
}

fn caret(major: u64, minor: u64, patch: u64) -> DependencyRange {
    DependencyRange::between(Version::new(major, minor, patch), Version::new(major + 1, 0, 0))
}

fn add_dependency(project: &mut UnityProject, name: &str, version: Version) {
    project.manifest.add_dependency(s(name), range(version));
}

fn add_locked(project: &mut UnityProject, name: &str, version: Version, deps: &[(&str, DependencyRange)]) {
    let deps = deps.iter().map(|(n, r)| (s(n), *r)).collect();
    project.manifest.add_locked(s(name), version, deps);
}

fn change<'a>(result: &'a PendingProjectChanges, name: &str) -> Option<PackageChange> {
    result.package_change(&s(name))
}

fn assert_installing_to_locked_only(result: &PendingProjectChanges, collection: &PackageCollection, package: PackageInfo) {
    let name = &collection.packages[package.index].name;
    match change(result, name) {
        Some(PackageChange::Install(install)) => {
            assert_eq!(install.install_package(), Some(package));
            assert!(install.is_adding_to_locked());
            assert_eq!(install.to_dependencies(), None);
        }
        other => panic!("{name} is not installed: {other:?}"),
    }
}

fn assert_installing_to_both(result: &PendingProjectChanges, collection: &PackageCollection, package: PackageInfo) {
    let manifest = &collection.packages[package.index];
    match change(result, &manifest.name) {
        Some(PackageChange::Install(install)) => {
            assert_eq!(install.install_package(), Some(package));
            assert!(install.is_adding_to_locked());
            assert_eq!(install.to_dependencies(), Some(range(manifest.version)));
        }
        other => panic!("{} is not installed: {other:?}", manifest.name),
    }
}

fn assert_installing_to_dependencies_only(result: &PendingProjectChanges, name: &str, version: Version) {
    match change(result, name) {
        Some(PackageChange::Install(install)) => {
            assert_eq!(install.install_package(), None);
            assert!(!install.is_adding_to_locked());
            assert_eq!(install.to_dependencies(), Some(range(version)));
        }
        other => panic!("{name} is not added to dependencies: {other:?}"),
    }
}

fn assert_removed(result: &PendingProjectChanges, name: &str, reason: RemoveReason) {
    match change(result, name) {
        Some(PackageChange::Remove(remove)) => assert_eq!(remove.reason(), reason),
        other => panic!("{name} is not removed: {other:?}"),
    }
}

fn avatars_and_base() -> (PackageCollection, PackageInfo, PackageInfo) {
    let mut collection = PackageCollection::new();
    let avatars = collection.add(
        PackageManifest::new(s("com.vrchat.avatars"), Version::new(1, 0, 0))
            .add_vpm_dependency(s("com.vrchat.base"), range(Version::new(1, 0, 0))),
    );
    let base = collection.add(PackageManifest::new(s("com.vrchat.base"), Version::new(1, 0, 0)));
    (collection, avatars, base)
}

fn avatars_locked_project() -> UnityProject {
    let mut project = UnityProject::new(None);
    add_dependency(&mut project, "com.vrchat.avatars", Version::new(1, 0, 0));
    add_locked(
        &mut project,
        "com.vrchat.avatars",
        Version::new(1, 0, 0),
        &[("com.vrchat.base", range(Version::new(1, 0, 0)))],
    );
    add_locked(&mut project, "com.vrchat.base", Version::new(1, 0, 0), &[]);
    project
}

fn sorted(v: &[(String, String)]) -> HashSet<String> {
    v.iter().map(|(p, _)| p.clone()).collect()
}

#[test]
fn add_to_dependencies() {
    let project = UnityProject::new(None);
    let (collection, avatars_package, base_package) = avatars_and_base();

    let result = project
        .add_package_request(&collection, &vec![avatars_package], AddPackageOperation::InstallToDependencies, false)
        .unwrap();

    assert_eq!(result.package_changes().len(), 2);
    assert_eq!(result.remove_legacy_folders().len(), 0);
    assert_eq!(result.remove_legacy_files().len(), 0);
    assert_eq!(result.conflicts().len(), 0);

    assert_installing_to_both(&result, &collection, avatars_package);
    assert_installing_to_locked_only(&result, &collection, base_package);
}

#[test]
fn install_already_installed_in_locked_to_locked() {
    let project = avatars_locked_project();
    let (collection, avatars_package, _) = avatars_and_base();

    let result = project
        .add_package_request(&collection, &vec![avatars_package], AddPackageOperation::UpgradeLocked, false)
        .unwrap();

    assert_eq!(result.package_changes().len(), 0);
    assert_eq!(result.remove_legacy_folders().len(), 0);
    assert_eq!(result.remove_legacy_files().len(), 0);
    assert_eq!(result.conflicts().len(), 0);
}

#[test]
fn install_already_installed_in_locked_to_dependencies() {
    let project = avatars_locked_project();
    let (collection, _, base_package) = avatars_and_base();

    let result = project
        .add_package_request(&collection, &vec![base_package], AddPackageOperation::InstallToDependencies, false)
        .unwrap();

    assert_eq!(result.package_changes().len(), 1);
    assert_eq!(result.remove_legacy_folders().len(), 0);
    assert_eq!(result.remove_legacy_files().len(), 0);
    assert_eq!(result.conflicts().len(), 0);

    assert_installing_to_dependencies_only(&result, "com.vrchat.base", Version::new(1, 0, 0));
}

#[test]
fn install_already_installed_in_dependencies_to_dependencies() {
    let project = avatars_locked_project();
    let (collection, avatars_package, _) = avatars_and_base();

    let result = project
        .add_package_request(&collection, &vec![avatars_package], AddPackageOperation::InstallToDependencies, false)
        .unwrap();

    assert_eq!(result.package_changes().len(), 0);
    assert_eq!(result.remove_legacy_folders().len(), 0);
    assert_eq!(result.remove_legacy_files().len(), 0);
    assert_eq!(result.conflicts().len(), 0);
}

fn package_with_library_project(untouched: bool) -> UnityProject {
    let mut project = UnityProject::new(None);
    add_dependency(&mut project, "com.anatawa12.package", Version::new(1, 0, 0));
    add_locked(
        &mut project,
        "com.anatawa12.package",
        Version::new(1, 0, 0),
        &[("com.anatawa12.library", range(Version::new(1, 0, 0)))],
    );
    add_locked(&mut project, "com.anatawa12.library", Version::new(1, 0, 0), &[]);
    if untouched {
        add_locked(&mut project, "com.anatawa12.untouched_library", Version::new(1, 0, 0), &[]);
    }
    project
}

#[test]
fn transitive_unused_remove_with_upgrade() {
    let project = package_with_library_project(false);
    let mut collection = PackageCollection::new();
    let package = collection.add(PackageManifest::new(s("com.anatawa12.package"), Version::new(1, 1, 0)));

    let result = project
        .add_package_request(&collection, &vec![package], AddPackageOperation::UpgradeLocked, false)
        .unwrap();

    assert_eq!(result.package_changes().len(), 2);
    assert_eq!(result.remove_legacy_folders().len(), 0);
    assert_eq!(result.remove_legacy_files().len(), 0);
    assert_eq!(result.conflicts().len(), 0);

    assert_installing_to_locked_only(&result, &collection, package);
    assert_removed(&result, "com.anatawa12.library", RemoveReason::Unused);
}

#[test]
fn do_not_remove_transitively_when_untouched() {
    let project = package_with_library_project(true);
    let mut collection = PackageCollection::new();
    let package = collection.add(PackageManifest::new(s("com.anatawa12.package"), Version::new(1, 1, 0)));

    let result = project
        .add_package_request(&collection, &vec![package], AddPackageOperation::UpgradeLocked, false)
        .unwrap();

    assert_eq!(result.package_changes().len(), 2);
    assert_eq!(result.remove_legacy_folders().len(), 0);
    assert_eq!(result.remove_legacy_files().len(), 0);
    assert_eq!(result.conflicts().len(), 0);

    assert_installing_to_locked_only(&result, &collection, package);
    assert_removed(&result, "com.anatawa12.library", RemoveReason::Unused);
}

fn legacy_declaring_collection() -> (PackageCollection, PackageInfo) {
    let mut collection = PackageCollection::new();
    let package = collection.add(
        PackageManifest::new(s("com.anatawa12.package"), Version::new(1, 1, 0))
            .add_legacy_package(s("com.anatawa12.legacy-package")),
    );
    (collection, package)
}

#[test]
fn remove_legacy_package_when_install_to_dependencies() {
    let mut project = UnityProject::new(None);
    add_dependency(&mut project, "com.anatawa12.legacy-package", Version::new(1, 0, 0));
    add_locked(&mut project, "com.anatawa12.legacy-package", Version::new(1, 0, 0), &[]);
    let (collection, package) = legacy_declaring_collection();

    let result = project
        .add_package_request(&collection, &vec![package], AddPackageOperation::InstallToDependencies, false)
        .unwrap();

    assert_eq!(result.package_changes().len(), 2);
    assert_eq!(result.remove_legacy_folders().len(), 0);
    assert_eq!(result.remove_legacy_files().len(), 0);
    assert_eq!(result.conflicts().len(), 0);

    assert_installing_to_both(&result, &collection, package);
    assert_removed(&result, "com.anatawa12.legacy-package", RemoveReason::Legacy);
}

#[test]
fn remove_legacy_package_when_upgrade() {
    let mut project = UnityProject::new(None);
    add_dependency(&mut project, "com.anatawa12.package", Version::new(1, 0, 0));
    add_locked(&mut project, "com.anatawa12.legacy-package", Version::new(1, 0, 0), &[]);
    add_locked(&mut project, "com.anatawa12.package", Version::new(1, 0, 0), &[]);
    let (collection, package) = legacy_declaring_collection();

    let result = project
        .add_package_request(&collection, &vec![package], AddPackageOperation::UpgradeLocked, false)
        .unwrap();

    assert_eq!(result.package_changes().len(), 2);
    assert_eq!(result.remove_legacy_folders().len(), 0);
    assert_eq!(result.remove_legacy_files().len(), 0);
    assert_eq!(result.conflicts().len(), 0);

    assert_installing_to_locked_only(&result, &collection, package);
    assert_removed(&result, "com.anatawa12.legacy-package", RemoveReason::Legacy);
}

#[test]
fn remove_referenced_legacy_package_when_install_to_dependencies() {
    let mut project = UnityProject::new(None);
    add_dependency(&mut project, "com.anatawa12.user", Version::new(1, 0, 0));
    add_dependency(&mut project, "com.anatawa12.legacy-package", Version::new(1, 0, 0));
    add_locked(
        &mut project,
        "com.anatawa12.user",
        Version::new(1, 0, 0),
        &[("com.anatawa12.legacy-package", caret(1, 0, 0))],
    );
    add_locked(&mut project, "com.anatawa12.legacy-package", Version::new(1, 0, 0), &[]);
    let (collection, package) = legacy_declaring_collection();

    let result = project
        .add_package_request(&collection, &vec![package], AddPackageOperation::InstallToDependencies, false)
        .unwrap();

    assert_eq!(result.package_changes().len(), 2);
    assert_eq!(result.remove_legacy_folders().len(), 0);
    assert_eq!(result.remove_legacy_files().len(), 0);
    assert_eq!(result.conflicts().len(), 0);

    assert_installing_to_both(&result, &collection, package);
    assert_removed(&result, "com.anatawa12.legacy-package", RemoveReason::Legacy);
}

fn legacy_project(dirs: &[&str], files: &[(&str, &str)]) -> UnityProject {
    let mut project = UnityProject::new(None);
    for d in dirs {
        project.files.add_dir(s(d));
    }
    for (f, content) in files {
        project.files.add_file(s(f), content.as_bytes().to_vec());
    }
    project
}

fn legacy_package(folders: &[(&str, &str)], files: &[(&str, &str)]) -> (PackageCollection, PackageInfo) {
    let mut manifest = PackageManifest::new(s("com.anatawa12.package"), Version::new(1, 0, 0));
    for (p, g) in folders {
        manifest = manifest.add_legacy_folder(s(p), s(g));
    }
    for (p, g) in files {
        manifest = manifest.add_legacy_file(s(p), s(g));
    }
    let mut collection = PackageCollection::new();
    let package = collection.add(manifest);
    (collection, package)
}

#[test]
fn legacy_assets_by_path() {
    let project = legacy_project(
        &["Assets/LegacyFolder", "Packages/legacy.package"],
        &[("Assets/LegacyAsset.cs", "// empty file")],
    );
    let (collection, package) = legacy_package(
        &[("Assets\\LegacyFolder", ""), ("Assets\\NotExists", ""), ("Packages\\legacy.package", "")],
        &[("Assets\\LegacyAsset.cs", "")],
    );

    let result = project
        .add_package_request(&collection, &vec![package], AddPackageOperation::AutoDetected, false)
        .unwrap();

    assert_eq!(result.package_changes().len(), 1);
    assert_eq!(result.conflicts().len(), 0);

    assert_eq!(
        sorted(result.remove_legacy_folders()),
        [s("Assets/LegacyFolder"), s("Packages/legacy.package")].into_iter().collect::<HashSet<_>>()
    );
    assert_eq!(
        sorted(result.remove_legacy_files()),
        [s("Assets/LegacyAsset.cs")].into_iter().collect::<HashSet<_>>()
    );
}

#[test]
fn legacy_assets_by_guid() {
    let project = legacy_project(
        &["Assets/MovedLegacyFolder"],
        &[
            ("Assets/MovedLegacyFolder.meta", "guid: 1c54b633da4d4d2abc01c6dedae67e09"),
            ("Assets/MovedLegacyAsset.cs", "// empty file"),
            ("Assets/MovedLegacyAsset.cs.meta", "guid: ca06b0788d62432083b3577cc2346126"),
        ],
    );
    let (collection, package) = legacy_package(
        &[
            ("Assets\\LegacyFolder", "1c54b633da4d4d2abc01c6dedae67e09"),
            ("Assets\\NotExists", "62a9615044174c818622c19d0181d036"),
        ],
        &[("Assets\\LegacyAsset.cs", "ca06b0788d62432083b3577cc2346126")],
    );

    let result = project
        .add_package_request(&collection, &vec![package], AddPackageOperation::AutoDetected, false)
        .unwrap();

    assert_eq!(result.package_changes().len(), 1);
    assert_eq!(result.conflicts().len(), 0);

    assert_eq!(
        sorted(result.remove_legacy_folders()),
        [s("Assets/MovedLegacyFolder")].into_iter().collect::<HashSet<_>>()
    );
    assert_eq!(
        sorted(result.remove_legacy_files()),
        [s("Assets/MovedLegacyAsset.cs")].into_iter().collect::<HashSet<_>>()
    );
}

#[test]
fn deny_remove_files_not_in_assets_or_packages() {
    let project = legacy_project(
        &["Assets1/LegacyFolder", "Packages1/legacy.package"],
        &[("Assets1/LegacyAsset.cs", "// empty file")],
    );
    let (collection, package) = legacy_package(
        &[("Assets1\\LegacyFolder", ""), ("Assets1\\NotExists", ""), ("Packages1\\legacy.package", "")],
        &[("Assets1\\LegacyAsset.cs", "")],
    );

    let result = project
        .add_package_request(&collection, &vec![package], AddPackageOperation::AutoDetected, false)
        .unwrap();

    assert_eq!(result.package_changes().len(), 1);
    assert_eq!(result.conflicts().len(), 0);

    assert_eq!(result.remove_legacy_folders(), &Vec::<(String, String)>::new());
    assert_eq!(result.remove_legacy_files(), &Vec::<(String, String)>::new());
}

#[test]
fn deny_remove_parent_folders() {
    let project = UnityProject::new(None);
    let (collection, package) = legacy_package(&[("..", ""), ("", "")], &[]);

    let result = project
        .add_package_request(&collection, &vec![package], AddPackageOperation::AutoDetected, false)
        .unwrap();

    assert_eq!(result.package_changes().len(), 1);
    assert_eq!(result.conflicts().len(), 0);

    assert_eq!(result.remove_legacy_folders(), &Vec::<(String, String)>::new());
    assert_eq!(result.remove_legacy_files(), &Vec::<(String, String)>::new());
}

#[test]
fn deny_absolute_legacy_assets() {
    let project = UnityProject::new(None);
    let (collection, package) = legacy_package(&[("/", "")], &[]);

    let result = project
        .add_package_request(&collection, &vec![package], AddPackageOperation::AutoDetected, false)
        .unwrap();

    assert_eq!(result.package_changes().len(), 1);
    assert_eq!(result.conflicts().len(), 0);

    assert_eq!(result.remove_legacy_folders(), &Vec::<(String, String)>::new());
    assert_eq!(result.remove_legacy_files(), &Vec::<(String, String)>::new());
}

#[test]
fn scenario_upgrade_removes_unused_dependency() {
    let mut project = UnityProject::new(None);
    add_dependency(&mut project, "A", Version::new(1, 0, 0));
    add_locked(&mut project, "A", Version::new(1, 0, 0), &[("B", range(Version::new(1, 0, 0)))]);
    add_locked(&mut project, "B", Version::new(1, 0, 0), &[]);
    let mut collection = PackageCollection::new();
    let a = collection.add(PackageManifest::new(s("A"), Version::new(1, 1, 0)));

    let result = project
        .add_package_request(&collection, &vec![a], AddPackageOperation::AutoDetected, false)
        .unwrap();

    assert_eq!(result.package_changes().len(), 2);
    assert_installing_to_locked_only(&result, &collection, a);
    assert_removed(&result, "B", RemoveReason::Unused);
}

#[test]
fn scenario_downgrade_of_unlocked_package_fails() {
    let project = UnityProject::new(None);
    let mut collection = PackageCollection::new();
    let a = collection.add(PackageManifest::new(s("A"), Version::new(1, 0, 0)));

    let result = project.add_package_request(&collection, &vec![a], AddPackageOperation::Downgrade, false);

    assert_eq!(result.err(), Some(AddPackageErr::DowngradingNonLockedPackage { package_name: s("A") }));
}
