use vstd::prelude::*;
use crate::assoc::{lemma_value_at};
use crate::changes::{Builder, PackageChange, PendingProjectChanges, Install};
use crate::legacy::{collect_legacy_assets, legacy_assets, pairs_view};
use crate::package::{PackageCollection, PackageInfo, spec_unity_compatible, unity_compatible};
use crate::project::UnityProject;
use crate::resolve::all_valid;
use crate::sweep::{swept, packages_valid};

verus! {

/// The packages that a list of changes installs into the lockfile, in order.
pub open spec fn installs_of(pc: Seq<(String, PackageChange)>) -> Seq<PackageInfo>
    decreases pc.len(),
{
    if pc.len() == 0 {
        Seq::empty()
    } else {
        let rest = installs_of(pc.drop_last());
        match pc.last().1 {
            PackageChange::Install(i) => if i.add_to_locked && i.package is Some {
                rest.push(i.package->Some_0)
            } else {
                rest
            },
            _ => rest,
        }
    }
}

/// Some installing package named `n` does not support the Unity version `unity`.
pub open spec fn unity_incompatible(c: PackageCollection, installs: Seq<PackageInfo>, unity: Option<(u16, u8)>, n: Seq<char>) -> bool {
    unity is Some && exists|k: int|
        0 <= k < installs.len() && #[trigger] c.spec_get(installs[k]).name@ == n && !spec_unity_compatible(
            c.spec_get(installs[k]),
            unity->Some_0,
        )
}

/// The conflicts once Unity incompatibilities are added to `old`.
pub open spec fn with_unity_conflicts(
    old: Map<Seq<char>, (Seq<Seq<char>>, bool)>,
    c: PackageCollection,
    installs: Seq<PackageInfo>,
    unity: Option<(u16, u8)>,
) -> Map<Seq<char>, (Seq<Seq<char>>, bool)> {
    Map::new(
        |n: Seq<char>| old.contains_key(n) || unity_incompatible(c, installs, unity, n),
        |n: Seq<char>|
            if unity_incompatible(c, installs, unity, n) {
                (if old.contains_key(n) { old[n].0 } else { Seq::empty() }, true)
            } else {
                old[n]
            },
    )
}

impl Builder {
    /// The packages that this plan installs into the lockfile, in order.
    pub fn get_all_installing(&self, c: &PackageCollection) -> (r: Vec<PackageInfo>)
        requires
            self.wf(),
            packages_valid(self.changes(), *c),
        ensures
            r@ == installs_of(self.package_changes@),
            all_valid(*c, r@),
    {
        let b = self;
        let ghost pc = b.package_changes@;
        let mut r: Vec<PackageInfo> = Vec::new();
        let mut i: usize = 0;
        while i < b.package_changes.len()
            invariant
                i <= pc.len(),
                pc == b.package_changes@,
                b.wf(),
                packages_valid(b.changes(), *c),
                r@ == installs_of(pc.take(i as int)),
                all_valid(*c, r@),
            decreases pc.len() - i,
        {
            proof {
                assert(pc.take(i + 1).drop_last() =~= pc.take(i as int));
                lemma_value_at(pc, i as int);
            }
            match b.package_changes[i].1 {
                PackageChange::Install(Install { package: Some(p), add_to_locked: true, .. }) => {
                    r.push(p);
                },
                _ => {},
            }
            i += 1;
        }
        proof {
            assert(pc.take(pc.len() as int) =~= pc);
        }
        r
    }
}

impl Builder {
    /// Finishes a plan with resolved installs: records Unity conflicts, removes
    /// unused packages, and finds the legacy assets of the installing packages.
    pub fn build_resolve(self, p: &UnityProject, c: &PackageCollection) -> (r: PendingProjectChanges)
        requires
            self.wf(),
            p.wf(),
            packages_valid(self.changes(), *c),
        ensures
            r.wf(),
            r.changes() == swept(self.changes(), *c, *p),
            r.conflict_map() == with_unity_conflicts(
                self.conflict_map(),
                *c,
                installs_of(self.package_changes@),
                p.unity_version,
            ),
            pairs_view(r.remove_legacy_files@) == legacy_assets(
                p.files.entries@,
                *c,
                installs_of(self.package_changes@),
                false,
            ),
            pairs_view(r.remove_legacy_folders@) == legacy_assets(
                p.files.entries@,
                *c,
                installs_of(self.package_changes@),
                true,
            ),
    {
        let mut b = self;
        let ghost ch0 = b.changes();
        let ghost cf0 = b.conflict_map();
        let installs = b.get_all_installing(c);
        let ghost ins = installs@;
        match p.unity_version {
            Some(unity) => {
                let mut i: usize = 0;
                while i < installs.len()
                    invariant
                        i <= ins.len(),
                        ins == installs@,
                        all_valid(*c, ins),
                        b.wf(),
                        b.changes() == ch0,
                        p.unity_version == Some(unity),
                        b.conflict_map() == with_unity_conflicts(cf0, *c, ins.take(i as int), p.unity_version),
                    decreases ins.len() - i,
                {
                    let pkg = c.get(installs[i]);
                    let ghost before = b.conflict_map();
                    if !unity_compatible(pkg, unity) {
                        b.conflicts_unity(pkg.name.clone());
                    }
                    proof {
                        let t1 = ins.take(i + 1);
                        let t0 = ins.take(i as int);
                        assert forall|n: Seq<char>| #[trigger] unity_incompatible(*c, t1, p.unity_version, n)
                            == (unity_incompatible(*c, t0, p.unity_version, n) || (n == pkg.name@
                            && !spec_unity_compatible(*pkg, unity))) by {
                            if unity_incompatible(*c, t1, p.unity_version, n) {
                                let k = choose|k: int|
                                    0 <= k < t1.len() && #[trigger] c.spec_get(t1[k]).name@ == n && !spec_unity_compatible(
                                        c.spec_get(t1[k]),
                                        unity,
                                    );
                                if k < i {
                                    assert(t0[k] == t1[k]);
                                }
                            }
                            if unity_incompatible(*c, t0, p.unity_version, n) {
                                let k = choose|k: int|
                                    0 <= k < t0.len() && #[trigger] c.spec_get(t0[k]).name@ == n && !spec_unity_compatible(
                                        c.spec_get(t0[k]),
                                        unity,
                                    );
                                assert(t1[k] == t0[k]);
                            }
                            if n == pkg.name@ && !spec_unity_compatible(*pkg, unity) {
                                assert(t1[i as int] == ins[i as int]);
                            }
                        }
                        assert(b.conflict_map() =~= with_unity_conflicts(cf0, *c, t1, p.unity_version));
                    }
                    i += 1;
                }
                proof {
                    assert(ins.take(ins.len() as int) =~= ins);
                }
            },
            None => {
                proof {
                    assert(b.conflict_map() =~= with_unity_conflicts(cf0, *c, ins, p.unity_version));
                }
            },
        }
        b.mark_and_sweep_packages(p, c);
        let files = collect_legacy_assets(&p.files, c, &installs, false);
        let folders = collect_legacy_assets(&p.files, c, &installs, true);
        PendingProjectChanges {
            package_changes: b.package_changes,
            conflicts: b.conflicts,
            remove_legacy_files: files,
            remove_legacy_folders: folders,
        }
    }
}

} // verus!
