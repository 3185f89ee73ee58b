use vstd::prelude::*;
use crate::assoc::{keys_unique, to_map, names, find_key, put, lemma_value_at};
use crate::package::{PackageInfo, PackageCollection};
use crate::version::DependencyRange;

verus! {

/// Why a package is removed.
#[derive(Clone, Copy, Debug, PartialEq, Eq, Structural)]
pub enum RemoveReason {
    /// The user asked for it.
    Requested,
    /// An installing package declares it as a legacy package.
    Legacy,
    /// Nothing that stays depends on it any more.
    Unused,
}

/// An install: of a resolved package, and/or of a new top-level dependency entry.
#[derive(Clone, Copy, Debug, PartialEq, Eq, Structural)]
pub struct Install {
    pub package: Option<PackageInfo>,
    pub add_to_locked: bool,
    pub to_dependencies: Option<DependencyRange>,
}

impl Install {
    pub fn install_package(&self) -> (r: Option<PackageInfo>)
        ensures
            r == self.package,
    {
        self.package
    }

    pub fn is_adding_to_locked(&self) -> (r: bool)
        ensures
            r == self.add_to_locked,
    {
        self.add_to_locked
    }

    pub fn to_dependencies(&self) -> (r: Option<DependencyRange>)
        ensures
            r == self.to_dependencies,
    {
        self.to_dependencies
    }
}

#[derive(Clone, Copy, Debug, PartialEq, Eq, Structural)]
pub struct Remove {
    pub reason: RemoveReason,
}

impl Remove {
    pub fn reason(&self) -> (r: RemoveReason)
        ensures
            r == self.reason,
    {
        self.reason
    }
}

/// What happens to one package name: installed or removed, never both.
#[derive(Clone, Copy, Debug, PartialEq, Eq, Structural)]
pub enum PackageChange {
    Install(Install),
    Remove(Remove),
}

impl PackageChange {
    pub fn as_install(&self) -> (r: Option<Install>)
        ensures
            r == (match *self {
                PackageChange::Install(i) => Some(i),
                PackageChange::Remove(_) => None::<Install>,
            }),
    {
        match self {
            PackageChange::Install(x) => Some(*x),
            PackageChange::Remove(_) => None,
        }
    }

    pub fn as_remove(&self) -> (r: Option<Remove>)
        ensures
            r == (match *self {
                PackageChange::Install(_) => None::<Remove>,
                PackageChange::Remove(x) => Some(x),
            }),
    {
        match self {
            PackageChange::Install(_) => None,
            PackageChange::Remove(x) => Some(*x),
        }
    }
}

/// Why a package cannot be installed as planned.
pub struct ConflictInfo {
    /// Packages it conflicts with, in the order they were reported.
    pub conflicts_packages: Vec<String>,
    /// It does not support the project's Unity version.
    pub conflicts_with_unity: bool,
}

impl ConflictInfo {
    pub fn conflicting_packages(&self) -> (r: &Vec<String>)
        ensures
            r@ == self.conflicts_packages@,
    {
        &self.conflicts_packages
    }

    pub fn conflicts_with_unity(&self) -> (r: bool)
        ensures
            r == self.conflicts_with_unity,
    {
        self.conflicts_with_unity
    }
}

/// The view of a conflict: the packages named, and the Unity flag.
pub open spec fn conflict_view(c: ConflictInfo) -> (Seq<Seq<char>>, bool) {
    (names(c.conflicts_packages@), c.conflicts_with_unity)
}

pub open spec fn conflicts_view(s: Seq<(String, ConflictInfo)>) -> Map<Seq<char>, (Seq<Seq<char>>, bool)> {
    to_map(s).map_values(|c: ConflictInfo| conflict_view(c))
}

/// The change recorded once a dependency entry `v` is added on top of `old`.
pub open spec fn with_dependency(old: Option<PackageChange>, v: DependencyRange) -> PackageChange {
    match old {
        Some(PackageChange::Install(i)) => PackageChange::Install(Install { to_dependencies: Some(v), ..i }),
        _ => PackageChange::Install(Install { package: None, add_to_locked: false, to_dependencies: Some(v) }),
    }
}

/// The change recorded once package `p` is installed on top of `old`.
pub open spec fn with_package(old: Option<PackageChange>, p: PackageInfo, add_to_locked: bool) -> PackageChange {
    match old {
        Some(PackageChange::Install(i)) => PackageChange::Install(Install { package: Some(p), add_to_locked, ..i }),
        _ => PackageChange::Install(Install { package: Some(p), add_to_locked, to_dependencies: None }),
    }
}

/// A dependency entry may be added: the name is not removed and has no entry yet.
pub open spec fn may_add_dependency(old: Option<PackageChange>) -> bool {
    match old {
        None => true,
        Some(PackageChange::Install(i)) => i.to_dependencies.is_none(),
        Some(PackageChange::Remove(_)) => false,
    }
}

/// A package may be installed: the name is not removed and has no package yet.
pub open spec fn may_install(old: Option<PackageChange>) -> bool {
    match old {
        None => true,
        Some(PackageChange::Install(i)) => i.package.is_none(),
        Some(PackageChange::Remove(_)) => false,
    }
}

/// A removal may be recorded: the name is not installed nor removed for another reason.
pub open spec fn may_remove(old: Option<PackageChange>, reason: RemoveReason) -> bool {
    match old {
        None => true,
        Some(PackageChange::Install(_)) => false,
        Some(PackageChange::Remove(r)) => r.reason == reason,
    }
}

/// Accumulates the decisions of one planning call; each name is classified once.
pub struct Builder {
    pub package_changes: Vec<(String, PackageChange)>,
    pub conflicts: Vec<(String, ConflictInfo)>,
}

impl Builder {
    pub open spec fn wf(self) -> bool {
        keys_unique(self.package_changes@) && keys_unique(self.conflicts@)
    }

    pub open spec fn changes(self) -> Map<Seq<char>, PackageChange> {
        to_map(self.package_changes@)
    }

    pub open spec fn conflict_map(self) -> Map<Seq<char>, (Seq<Seq<char>>, bool)> {
        conflicts_view(self.conflicts@)
    }

    pub fn new() -> (r: Builder)
        ensures
            r.wf(),
            r.changes() == Map::<Seq<char>, PackageChange>::empty(),
            r.conflict_map() == Map::<Seq<char>, (Seq<Seq<char>>, bool)>::empty(),
    {
        let r = Builder { package_changes: Vec::new(), conflicts: Vec::new() };
        assert(r.changes() =~= Map::<Seq<char>, PackageChange>::empty());
        assert(r.conflict_map() =~= Map::<Seq<char>, (Seq<Seq<char>>, bool)>::empty());
        r
    }

    pub fn get_change(&self, name: &String) -> (r: Option<PackageChange>)
        requires
            self.wf(),
        ensures
            r == self.changes().get(name@),
    {
        match find_key(&self.package_changes, name) {
            Some(i) => {
                proof {
                    lemma_value_at(self.package_changes@, i as int);
                }
                Some(self.package_changes[i].1)
            },
            None => None,
        }
    }

    pub fn add_to_dependencies(&mut self, name: String, version: DependencyRange)
        requires
            old(self).wf(),
            may_add_dependency(old(self).changes().get(name@)),
        ensures
            final(self).wf(),
            final(self).changes() == old(self).changes().insert(
                name@,
                with_dependency(old(self).changes().get(name@), version),
            ),
            final(self).conflict_map() == old(self).conflict_map(),
    {
        let change = match self.get_change(&name) {
            Some(PackageChange::Install(i)) => PackageChange::Install(Install { to_dependencies: Some(version), ..i }),
            _ => PackageChange::Install(Install { package: None, add_to_locked: false, to_dependencies: Some(version) }),
        };
        put(&mut self.package_changes, name, change);
    }

    fn install(&mut self, name: String, info: PackageInfo, add_to_locked: bool)
        requires
            old(self).wf(),
            may_install(old(self).changes().get(name@)),
        ensures
            final(self).wf(),
            final(self).changes() == old(self).changes().insert(
                name@,
                with_package(old(self).changes().get(name@), info, add_to_locked),
            ),
            final(self).conflict_map() == old(self).conflict_map(),
    {
        let change = match self.get_change(&name) {
            Some(PackageChange::Install(i)) => PackageChange::Install(Install { package: Some(info), add_to_locked, ..i }),
            _ => PackageChange::Install(Install { package: Some(info), add_to_locked, to_dependencies: None }),
        };
        put(&mut self.package_changes, name, change);
    }

    /// Installs `info` and records it in the lockfile.
    pub fn install_to_locked(&mut self, collection: &PackageCollection, info: PackageInfo)
        requires
            old(self).wf(),
            collection.valid(info),
            may_install(old(self).changes().get(collection.spec_get(info).name@)),
        ensures
            final(self).wf(),
            final(self).changes() == old(self).changes().insert(
                collection.spec_get(info).name@,
                with_package(old(self).changes().get(collection.spec_get(info).name@), info, true),
            ),
            final(self).conflict_map() == old(self).conflict_map(),
    {
        let name = collection.get(info).name.clone();
        self.install(name, info, true);
    }

    /// Installs `info`, whose version the lockfile already records.
    pub fn install_already_locked(&mut self, collection: &PackageCollection, info: PackageInfo)
        requires
            old(self).wf(),
            collection.valid(info),
            may_install(old(self).changes().get(collection.spec_get(info).name@)),
        ensures
            final(self).wf(),
            final(self).changes() == old(self).changes().insert(
                collection.spec_get(info).name@,
                with_package(old(self).changes().get(collection.spec_get(info).name@), info, false),
            ),
            final(self).conflict_map() == old(self).conflict_map(),
    {
        let name = collection.get(info).name.clone();
        self.install(name, info, false);
    }

    pub fn remove(&mut self, name: String, reason: RemoveReason)
        requires
            old(self).wf(),
            may_remove(old(self).changes().get(name@), reason),
        ensures
            final(self).wf(),
            final(self).changes() == old(self).changes().insert(
                name@,
                PackageChange::Remove(Remove { reason }),
            ),
            final(self).conflict_map() == old(self).conflict_map(),
    {
        match self.get_change(&name) {
            Some(PackageChange::Remove(_)) => {
                assert(old(self).changes().insert(name@, PackageChange::Remove(Remove { reason })) =~= old(self).changes());
            },
            _ => {
                put(&mut self.package_changes, name, PackageChange::Remove(Remove { reason }));
            },
        }
    }

    /// Marks `name` unused, unless it is already removed for any reason.
    pub fn remove_unused(&mut self, name: String)
        requires
            old(self).wf(),
            !(old(self).changes().contains_key(name@) && old(self).changes()[name@] is Install),
        ensures
            final(self).wf(),
            final(self).changes() == if old(self).changes().contains_key(name@) {
                old(self).changes()
            } else {
                old(self).changes().insert(name@, PackageChange::Remove(Remove { reason: RemoveReason::Unused }))
            },
            final(self).conflict_map() == old(self).conflict_map(),
    {
        match self.get_change(&name) {
            Some(_) => {},
            None => {
                put(&mut self.package_changes, name, PackageChange::Remove(Remove { reason: RemoveReason::Unused }));
            },
        }
    }

    /// The conflict entry of `name` as it stands, or an empty one.
    pub open spec fn conflict_or_default(self, name: Seq<char>) -> (Seq<Seq<char>>, bool) {
        if self.conflict_map().contains_key(name) {
            self.conflict_map()[name]
        } else {
            (Seq::empty(), false)
        }
    }

    fn conflict_entry(&mut self, name: String) -> (r: usize)
        requires
            old(self).wf(),
        ensures
            final(self).wf(),
            final(self).changes() == old(self).changes(),
            r < final(self).conflicts@.len(),
            final(self).conflicts@[r as int].0@ == name@,
            conflict_view(final(self).conflicts@[r as int].1) == old(self).conflict_or_default(name@),
            final(self).conflict_map() == old(self).conflict_map().insert(name@, old(self).conflict_or_default(name@)),
    {
        match find_key(&self.conflicts, &name) {
            Some(i) => {
                proof {
                    lemma_value_at(self.conflicts@, i as int);
                    assert(self.conflict_map().insert(name@, self.conflict_or_default(name@)) =~= self.conflict_map());
                }
                i
            },
            None => {
                let ghost before = self.conflicts@;
                let empty = ConflictInfo { conflicts_packages: Vec::new(), conflicts_with_unity: false };
                proof {
                    crate::assoc::lemma_push(before, (name, empty));
                }
                self.conflicts.push((name, empty));
                proof {
                    assert(conflict_view(empty) =~= (Seq::<Seq<char>>::empty(), false));
                    assert(self.conflict_map() =~= conflicts_view(before).insert(name@, conflict_view(empty)));
                }
                self.conflicts.len() - 1
            },
        }
    }

    /// Records that `name` conflicts with each of `conflict`.
    pub fn conflict_multiple(&mut self, name: String, conflict: Vec<String>)
        requires
            old(self).wf(),
        ensures
            final(self).wf(),
            final(self).changes() == old(self).changes(),
            final(self).conflict_map() == old(self).conflict_map().insert(
                name@,
                (old(self).conflict_or_default(name@).0 + names(conflict@), old(self).conflict_or_default(name@).1),
            ),
    {
        let ghost n = name@;
        let i = self.conflict_entry(name);
        let ghost mid = self.conflicts@;
        let mut c = conflict;
        let mut entry = self.conflicts.remove(i);
        let ghost start = entry.1.conflicts_packages@;
        entry.1.conflicts_packages.append(&mut c);
        proof {
            assert(names(entry.1.conflicts_packages@) =~= names(start) + names(conflict@));
            assert(self.conflicts@.insert(i as int, entry) =~= mid.update(i as int, entry));
            crate::assoc::lemma_set(mid, i as int, entry);
        }
        self.conflicts.insert(i, entry);
        proof {
            assert(self.conflict_map() =~= conflicts_view(mid).insert(n, conflict_view(entry.1)));
        }
    }

    /// Records that `name` conflicts with `conflict`.
    pub fn conflicts(&mut self, name: String, conflict: String)
        requires
            old(self).wf(),
        ensures
            final(self).wf(),
            final(self).changes() == old(self).changes(),
            final(self).conflict_map() == old(self).conflict_map().insert(
                name@,
                (old(self).conflict_or_default(name@).0.push(conflict@), old(self).conflict_or_default(name@).1),
            ),
    {
        let ghost n = name@;
        let i = self.conflict_entry(name);
        let ghost mid = self.conflicts@;
        let mut entry = self.conflicts.remove(i);
        let ghost start = entry.1.conflicts_packages@;
        entry.1.conflicts_packages.push(conflict);
        proof {
            assert(names(entry.1.conflicts_packages@) =~= names(start).push(conflict@));
            assert(self.conflicts@.insert(i as int, entry) =~= mid.update(i as int, entry));
            crate::assoc::lemma_set(mid, i as int, entry);
        }
        self.conflicts.insert(i, entry);
        proof {
            assert(self.conflict_map() =~= conflicts_view(mid).insert(n, conflict_view(entry.1)));
        }
    }

    /// Records that `name` does not support the project's Unity version.
    pub fn conflicts_unity(&mut self, name: String)
        requires
            old(self).wf(),
        ensures
            final(self).wf(),
            final(self).changes() == old(self).changes(),
            final(self).conflict_map() == old(self).conflict_map().insert(
                name@,
                (old(self).conflict_or_default(name@).0, true),
            ),
    {
        let ghost n = name@;
        let i = self.conflict_entry(name);
        let ghost mid = self.conflicts@;
        let mut entry = self.conflicts.remove(i);
        entry.1.conflicts_with_unity = true;
        proof {
            assert(self.conflicts@.insert(i as int, entry) =~= mid.update(i as int, entry));
            crate::assoc::lemma_set(mid, i as int, entry);
        }
        self.conflicts.insert(i, entry);
        proof {
            assert(self.conflict_map() =~= conflicts_view(mid).insert(n, conflict_view(entry.1)));
        }
    }

    /// The dependency entry that this plan writes for `name`.
    pub fn get_dependencies(&self, name: &String) -> (r: Option<DependencyRange>)
        requires
            self.wf(),
        ensures
            r == (match self.changes().get(name@) {
                Some(PackageChange::Install(i)) => i.to_dependencies,
                _ => None::<DependencyRange>,
            }),
    {
        match self.get_change(name) {
            Some(PackageChange::Install(i)) => i.to_dependencies,
            _ => None,
        }
    }

    /// The package that this plan installs and locks under `name`.
    pub fn get_installing(&self, name: &String) -> (r: Option<PackageInfo>)
        requires
            self.wf(),
        ensures
            r == (match self.changes().get(name@) {
                Some(PackageChange::Install(i)) => if i.add_to_locked { i.package } else { None::<PackageInfo> },
                _ => None::<PackageInfo>,
            }),
    {
        match self.get_change(name) {
            Some(PackageChange::Install(i)) => if i.add_to_locked { i.package } else { None },
            _ => None,
        }
    }
}

/// Every change only writes a dependency entry: no package is installed, locked or removed.
pub open spec fn only_dependency_entries(ch: Map<Seq<char>, PackageChange>) -> bool {
    forall|n: Seq<char>| #[trigger] ch.contains_key(n) ==> ch[n] is Install && ch[n]->Install_0.package is None && !ch[n]->Install_0.add_to_locked
}

/// A finished plan: what to install and remove, legacy assets to delete, and conflicts.
pub struct PendingProjectChanges {
    pub package_changes: Vec<(String, PackageChange)>,
    /// Legacy files to delete: project-relative path and the package that supersedes it.
    pub remove_legacy_files: Vec<(String, String)>,
    /// Legacy folders to delete: project-relative path and the package that supersedes it.
    pub remove_legacy_folders: Vec<(String, String)>,
    pub conflicts: Vec<(String, ConflictInfo)>,
}

impl PendingProjectChanges {
    pub open spec fn wf(self) -> bool {
        keys_unique(self.package_changes@) && keys_unique(self.conflicts@)
    }

    pub open spec fn changes(self) -> Map<Seq<char>, PackageChange> {
        to_map(self.package_changes@)
    }

    pub open spec fn conflict_map(self) -> Map<Seq<char>, (Seq<Seq<char>>, bool)> {
        conflicts_view(self.conflicts@)
    }

    pub fn package_changes(&self) -> (r: &Vec<(String, PackageChange)>)
        ensures
            r@ == self.package_changes@,
    {
        &self.package_changes
    }

    /// The change planned for `name`.
    pub fn package_change(&self, name: &String) -> (r: Option<PackageChange>)
        requires
            self.wf(),
        ensures
            r == self.changes().get(name@),
    {
        match find_key(&self.package_changes, name) {
            Some(i) => {
                proof {
                    lemma_value_at(self.package_changes@, i as int);
                }
                Some(self.package_changes[i].1)
            },
            None => None,
        }
    }

    pub fn remove_legacy_files(&self) -> (r: &Vec<(String, String)>)
        ensures
            r@ == self.remove_legacy_files@,
    {
        &self.remove_legacy_files
    }

    pub fn remove_legacy_folders(&self) -> (r: &Vec<(String, String)>)
        ensures
            r@ == self.remove_legacy_folders@,
    {
        &self.remove_legacy_folders
    }

    pub fn conflicts(&self) -> (r: &Vec<(String, ConflictInfo)>)
        ensures
            r@ == self.conflicts@,
    {
        &self.conflicts
    }
}

impl Builder {
    /// Finishes a plan that only writes dependency entries.
    pub fn build_no_resolve(self) -> (r: PendingProjectChanges)
        requires
            self.wf(),
            only_dependency_entries(self.changes()),
        ensures
            r.wf(),
            r.package_changes@ == self.package_changes@,
            r.conflicts@ == self.conflicts@,
            r.remove_legacy_files@.len() == 0,
            r.remove_legacy_folders@.len() == 0,
    {
        PendingProjectChanges {
            package_changes: self.package_changes,
            conflicts: self.conflicts,
            remove_legacy_files: Vec::new(),
            remove_legacy_folders: Vec::new(),
        }
    }
}

} // verus!
