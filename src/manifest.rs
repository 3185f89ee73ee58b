use vstd::prelude::*;
use crate::assoc::{keys_unique, to_map, names, find_key, put, remove_keys, lemma_value_at};
use crate::version::{Version, DependencyRange};

verus! {

/// A locked package: the exact version installed and the dependencies it declared.
pub struct LockedPackage {
    pub version: Version,
    pub dependencies: Vec<(String, DependencyRange)>,
}

/// The project's dependency list and lockfile.
pub struct VpmManifest {
    /// Top-level dependency entries: package name and requested range.
    pub dependencies: Vec<(String, DependencyRange)>,
    /// Locked packages by name.
    pub locked: Vec<(String, LockedPackage)>,
}

impl VpmManifest {
    pub open spec fn wf(self) -> bool {
        keys_unique(self.dependencies@) && keys_unique(self.locked@)
    }

    pub open spec fn deps_map(self) -> Map<Seq<char>, DependencyRange> {
        to_map(self.dependencies@)
    }

    pub open spec fn locked_map(self) -> Map<Seq<char>, LockedPackage> {
        to_map(self.locked@)
    }

    pub fn new() -> (r: VpmManifest)
        ensures
            r.wf(),
            r.deps_map() == Map::<Seq<char>, DependencyRange>::empty(),
            r.locked_map() == Map::<Seq<char>, LockedPackage>::empty(),
    {
        let r = VpmManifest { dependencies: Vec::new(), locked: Vec::new() };
        assert(r.deps_map() =~= Map::<Seq<char>, DependencyRange>::empty());
        assert(r.locked_map() =~= Map::<Seq<char>, LockedPackage>::empty());
        r
    }

    pub fn get_dependency(&self, name: &String) -> (r: Option<DependencyRange>)
        requires
            self.wf(),
        ensures
            r == self.deps_map().get(name@),
    {
        match find_key(&self.dependencies, name) {
            Some(i) => {
                proof {
                    lemma_value_at(self.dependencies@, i as int);
                }
                Some(self.dependencies[i].1)
            },
            None => None,
        }
    }

    pub fn get_locked(&self, name: &String) -> (r: Option<&LockedPackage>)
        requires
            self.wf(),
        ensures
            match r {
                Some(l) => self.locked_map().contains_key(name@) && self.locked_map()[name@] == *l,
                None => !self.locked_map().contains_key(name@),
            },
    {
        match find_key(&self.locked, name) {
            Some(i) => {
                proof {
                    lemma_value_at(self.locked@, i as int);
                }
                Some(&self.locked[i].1)
            },
            None => None,
        }
    }

    pub fn add_dependency(&mut self, name: String, range: DependencyRange)
        requires
            old(self).wf(),
        ensures
            final(self).wf(),
            final(self).deps_map() == old(self).deps_map().insert(name@, range),
            final(self).locked_map() == old(self).locked_map(),
    {
        put(&mut self.dependencies, name, range);
    }

    pub fn add_locked(
        &mut self,
        name: String,
        version: Version,
        dependencies: Vec<(String, DependencyRange)>,
    )
        requires
            old(self).wf(),
        ensures
            final(self).wf(),
            final(self).locked_map() == old(self).locked_map().insert(
                name@,
                LockedPackage { version, dependencies },
            ),
            final(self).deps_map() == old(self).deps_map(),
    {
        put(&mut self.locked, name, LockedPackage { version, dependencies });
    }

    /// Removes the named packages from both the dependency list and the lockfile.
    pub fn remove_packages(&mut self, ns: &Vec<String>)
        requires
            old(self).wf(),
        ensures
            final(self).wf(),
            final(self).deps_map() == old(self).deps_map().remove_keys(names(ns@).to_set()),
            final(self).locked_map() == old(self).locked_map().remove_keys(names(ns@).to_set()),
    {
        let mut deps: Vec<(String, DependencyRange)> = Vec::new();
        std::mem::swap(&mut deps, &mut self.dependencies);
        self.dependencies = remove_keys(deps, ns);
        let mut locked: Vec<(String, LockedPackage)> = Vec::new();
        std::mem::swap(&mut locked, &mut self.locked);
        self.locked = remove_keys(locked, ns);
    }
}

} // verus!
