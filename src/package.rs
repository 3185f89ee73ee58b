use vstd::prelude::*;
use crate::version::{Version, DependencyRange, version_le};

verus! {

/// Metadata of one version of a package, as a package collection holds it.
pub struct PackageManifest {
    pub name: String,
    pub version: Version,
    pub display_name: Option<String>,
    pub description: Option<String>,
    pub aliases: Vec<String>,
    pub changelog_url: Option<String>,
    /// Oldest Unity editor (major, minor) the package supports.
    pub unity: Option<(u16, u8)>,
    pub vpm_dependencies: Vec<(String, DependencyRange)>,
    /// Packages that this package supersedes.
    pub legacy_packages: Vec<String>,
    /// Folders (declared path, GUID) this package supersedes.
    pub legacy_folders: Vec<(String, String)>,
    /// Files (declared path, GUID) this package supersedes.
    pub legacy_files: Vec<(String, String)>,
    pub is_yanked: bool,
}

impl PackageManifest {
    pub fn new(name: String, version: Version) -> (r: PackageManifest)
        ensures
            r.name@ == name@,
            r.version == version,
            r.unity.is_none(),
            r.vpm_dependencies@.len() == 0,
            r.legacy_packages@.len() == 0,
            r.legacy_folders@.len() == 0,
            r.legacy_files@.len() == 0,
    {
        PackageManifest {
            name,
            version,
            display_name: None,
            description: None,
            aliases: Vec::new(),
            changelog_url: None,
            unity: None,
            vpm_dependencies: Vec::new(),
            legacy_packages: Vec::new(),
            legacy_folders: Vec::new(),
            legacy_files: Vec::new(),
            is_yanked: false,
        }
    }

    pub fn add_vpm_dependency(self, name: String, range: DependencyRange) -> (r: PackageManifest)
        ensures
            r.name@ == self.name@,
            r.version == self.version,
            r.unity == self.unity,
            r.vpm_dependencies@ == self.vpm_dependencies@.push((name, range)),
            r.legacy_packages@ == self.legacy_packages@,
            r.legacy_folders@ == self.legacy_folders@,
            r.legacy_files@ == self.legacy_files@,
    {
        let mut r = self;
        r.vpm_dependencies.push((name, range));
        r
    }

    pub fn add_legacy_package(self, name: String) -> (r: PackageManifest)
        ensures
            r.name@ == self.name@,
            r.version == self.version,
            r.unity == self.unity,
            r.vpm_dependencies@ == self.vpm_dependencies@,
            r.legacy_packages@ == self.legacy_packages@.push(name),
            r.legacy_folders@ == self.legacy_folders@,
            r.legacy_files@ == self.legacy_files@,
    {
        let mut r = self;
        r.legacy_packages.push(name);
        r
    }

    pub fn add_legacy_folder(self, path: String, guid: String) -> (r: PackageManifest)
        ensures
            r.name@ == self.name@,
            r.version == self.version,
            r.unity == self.unity,
            r.vpm_dependencies@ == self.vpm_dependencies@,
            r.legacy_packages@ == self.legacy_packages@,
            r.legacy_folders@ == self.legacy_folders@.push((path, guid)),
            r.legacy_files@ == self.legacy_files@,
    {
        let mut r = self;
        r.legacy_folders.push((path, guid));
        r
    }

    pub fn add_legacy_file(self, path: String, guid: String) -> (r: PackageManifest)
        ensures
            r.name@ == self.name@,
            r.version == self.version,
            r.unity == self.unity,
            r.vpm_dependencies@ == self.vpm_dependencies@,
            r.legacy_packages@ == self.legacy_packages@,
            r.legacy_folders@ == self.legacy_folders@,
            r.legacy_files@ == self.legacy_files@.push((path, guid)),
    {
        let mut r = self;
        r.legacy_files.push((path, guid));
        r
    }

    pub fn set_unity(self, unity: Option<(u16, u8)>) -> (r: PackageManifest)
        ensures
            r.name@ == self.name@,
            r.version == self.version,
            r.unity == unity,
            r.vpm_dependencies@ == self.vpm_dependencies@,
            r.legacy_packages@ == self.legacy_packages@,
            r.legacy_folders@ == self.legacy_folders@,
            r.legacy_files@ == self.legacy_files@,
    {
        let mut r = self;
        r.unity = unity;
        r
    }
}

/// The (major, minor) Unity editor version `unity` is at least `min`.
pub open spec fn unity_at_least(unity: (u16, u8), min: (u16, u8)) -> bool {
    unity.0 > min.0 || (unity.0 == min.0 && unity.1 >= min.1)
}

/// A package works with a Unity editor when it names no minimum or the
/// editor is at least that minimum.
pub open spec fn spec_unity_compatible(p: PackageManifest, unity: (u16, u8)) -> bool {
    match p.unity {
        None => true,
        Some(min) => unity_at_least(unity, min),
    }
}

pub fn unity_compatible(p: &PackageManifest, unity: (u16, u8)) -> (r: bool)
    ensures
        r == spec_unity_compatible(*p, unity),
{
    match p.unity {
        None => true,
        Some(min) => unity.0 > min.0 || (unity.0 == min.0 && unity.1 >= min.1),
    }
}

/// A handle to one package version of a `PackageCollection`: its index there.
#[derive(Clone, Copy, Debug, PartialEq, Eq, Structural)]
pub struct PackageInfo {
    pub index: usize,
}

/// The package versions known to the planner; a `PackageInfo` indexes into it.
pub struct PackageCollection {
    pub packages: Vec<PackageManifest>,
}

impl PackageCollection {
    pub open spec fn valid(self, p: PackageInfo) -> bool {
        p.index < self.packages@.len()
    }

    pub open spec fn spec_get(self, p: PackageInfo) -> PackageManifest {
        self.packages@[p.index as int]
    }

    pub fn new() -> (r: PackageCollection)
        ensures
            r.packages@.len() == 0,
    {
        PackageCollection { packages: Vec::new() }
    }

    /// Adds a package version and returns its handle.
    pub fn add(&mut self, p: PackageManifest) -> (r: PackageInfo)
        ensures
            final(self).packages@ == old(self).packages@.push(p),
            r.index == old(self).packages@.len(),
    {
        let r = PackageInfo { index: self.packages.len() };
        self.packages.push(p);
        r
    }

    pub fn get(&self, p: PackageInfo) -> (r: &PackageManifest)
        requires
            self.valid(p),
        ensures
            *r == self.spec_get(p),
    {
        &self.packages[p.index]
    }

    /// The handle of the package `name` at exactly `version`.
    pub fn get_package(&self, name: &String, version: &Version) -> (r: Option<PackageInfo>)
        ensures
            match r {
                Some(p) => self.valid(p) && self.spec_get(p).name@ == name@
                    && self.spec_get(p).version == *version,
                None => forall|i: int|
                    0 <= i < self.packages@.len() ==> !(#[trigger] self.packages@[i].name@ == name@
                        && self.packages@[i].version == *version),
            },
    {
        let mut i: usize = 0;
        while i < self.packages.len()
            invariant
                i <= self.packages@.len(),
                forall|j: int|
                    0 <= j < i ==> !(#[trigger] self.packages@[j].name@ == name@
                        && self.packages@[j].version == *version),
            decreases self.packages@.len() - i,
        {
            if self.packages[i].name == *name && self.packages[i].version == *version {
                return Some(PackageInfo { index: i });
            }
            i += 1;
        }
        None
    }

    /// A candidate for `name` within `range`: pre-releases only where allowed.
    pub open spec fn is_candidate(
        self,
        i: int,
        name: Seq<char>,
        range: DependencyRange,
        allow_prerelease: bool,
    ) -> bool {
        &&& 0 <= i < self.packages@.len()
        &&& self.packages@[i].name@ == name
        &&& range.spec_matches(self.packages@[i].version)
        &&& (allow_prerelease || self.packages@[i].version.pre.is_none())
    }

    /// The newest candidate for `name` within `range`.
    pub fn find_latest(
        &self,
        name: &String,
        range: &DependencyRange,
        allow_prerelease: bool,
    ) -> (r: Option<PackageInfo>)
        ensures
            match r {
                Some(p) => self.is_candidate(p.index as int, name@, *range, allow_prerelease)
                    && forall|j: int|
                    #[trigger] self.is_candidate(j, name@, *range, allow_prerelease) ==> version_le(
                        self.packages@[j].version,
                        self.spec_get(p).version,
                    ),
                None => forall|j: int| !#[trigger] self.is_candidate(j, name@, *range, allow_prerelease),
            },
    {
        let mut best: Option<usize> = None;
        let mut i: usize = 0;
        while i < self.packages.len()
            invariant
                i <= self.packages@.len(),
                match best {
                    Some(b) => self.is_candidate(b as int, name@, *range, allow_prerelease)
                        && forall|j: int|
                        0 <= j < i && #[trigger] self.is_candidate(j, name@, *range, allow_prerelease)
                            ==> version_le(self.packages@[j].version, self.packages@[b as int].version),
                    None => forall|j: int|
                        0 <= j < i ==> !#[trigger] self.is_candidate(j, name@, *range, allow_prerelease),
                },
            decreases self.packages@.len() - i,
        {
            let p = &self.packages[i];
            if p.name == *name && range.matches(&p.version) && (allow_prerelease
                || !p.version.is_prerelease()) {
                match best {
                    None => {
                        best = Some(i);
                    },
                    Some(b) => {
                        if self.packages[b].version.less_than(&p.version) {
                            best = Some(i);
                        }
                    },
                }
            }
            i += 1;
        }
        match best {
            Some(b) => Some(PackageInfo { index: b }),
            None => None,
        }
    }
}

} // verus!
