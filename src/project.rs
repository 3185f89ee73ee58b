use vstd::prelude::*;
use crate::manifest::VpmManifest;
use crate::fs::FileTree;

verus! {

/// A package placed by hand in the project's `Packages` folder, outside the lockfile.
pub struct UnlockedPackage {
    pub dir_name: String,
    /// The name its package manifest gives, where it has a readable one.
    pub name: Option<String>,
    /// Names of the packages it depends on.
    pub vpm_dependencies: Vec<String>,
}

/// A Unity project: its manifest, hand-placed packages, editor version and files.
pub struct UnityProject {
    pub manifest: VpmManifest,
    pub unlocked_packages: Vec<UnlockedPackage>,
    /// The project's Unity editor version (major, minor), where known.
    pub unity_version: Option<(u16, u8)>,
    pub files: FileTree,
}

impl UnityProject {
    pub open spec fn wf(self) -> bool {
        self.manifest.wf() && self.files.wf()
    }

    /// An empty project for the given Unity version.
    pub fn new(unity_version: Option<(u16, u8)>) -> (r: UnityProject)
        ensures
            r.wf(),
            r.manifest.deps_map() == Map::<Seq<char>, crate::version::DependencyRange>::empty(),
            r.manifest.locked_map() == Map::<Seq<char>, crate::manifest::LockedPackage>::empty(),
            r.unlocked_packages@.len() == 0,
            r.unity_version == unity_version,
            r.files@ == Map::<Seq<char>, Option<Seq<u8>>>::empty(),
    {
        UnityProject {
            manifest: VpmManifest::new(),
            unlocked_packages: Vec::new(),
            unity_version,
            files: FileTree::new(),
        }
    }

    /// Whether `name` is locked.
    pub fn is_locked(&self, name: &String) -> (r: bool)
        requires
            self.manifest.wf(),
        ensures
            r == self.manifest.locked_map().contains_key(name@),
    {
        self.manifest.get_locked(name).is_some()
    }
}

} // verus!
