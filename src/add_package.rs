use vstd::prelude::*;
use vstd::string::*;
use crate::package::{PackageCollection, PackageInfo, PackageManifest};
use crate::version::VersionOrder;
use crate::project::UnityProject;
use crate::resolve::{unlocked_has, pkg_names, all_valid};
use crate::changes::{Builder, PackageChange, Install, RemoveReason, PendingProjectChanges, only_dependency_entries, may_install};
use crate::assoc::{names, to_map, has_key, lemma_value_at};
use crate::resolve::{collect_adding_packages, unresolvable, resolvable, newest_for};
use crate::sweep::swept;
use crate::changes::Remove;
use crate::apply::plan_consistent;
use crate::sweep::packages_valid;
use crate::version::{Version, DependencyRange, version_lt, version_le};

verus! {

/// Why a request to add packages was refused.
#[derive(Debug, PartialEq, Eq)]
pub enum AddPackageErr {
    DependencyNotFound { dependency_name: String },
    UpgradingNonLockedPackage { package_name: String },
    DowngradingNonLockedPackage { package_name: String },
    UpgradingWithDowngrade { package_name: String },
    InstalledAsUnlocked { package_name: String },
}

impl AddPackageErr {
    /// The message shown to the user.
    pub fn message(&self) -> (r: String)
        ensures
            r@ == match self {
                AddPackageErr::DependencyNotFound { dependency_name } => "Package "@ + dependency_name@
                    + " (maybe dependencies of the package) not found"@,
                AddPackageErr::UpgradingNonLockedPackage { package_name } => "Package "@ + package_name@
                    + " is not locked, so it cannot be upgraded"@,
                AddPackageErr::DowngradingNonLockedPackage { package_name } => "Package "@ + package_name@
                    + " is not locked, so it cannot be downgraded"@,
                AddPackageErr::UpgradingWithDowngrade { package_name } => "Package "@ + package_name@
                    + " is locked, so it cannot be downgraded"@,
                AddPackageErr::InstalledAsUnlocked { package_name } => "Package "@ + package_name@
                    + " is installed as unlocked, so it cannot be installed or upgraded"@,
            },
    {
        let (name, rest) = match self {
            AddPackageErr::DependencyNotFound { dependency_name } => (dependency_name, " (maybe dependencies of the package) not found"),
            AddPackageErr::UpgradingNonLockedPackage { package_name } => (package_name, " is not locked, so it cannot be upgraded"),
            AddPackageErr::DowngradingNonLockedPackage { package_name } => (package_name, " is not locked, so it cannot be downgraded"),
            AddPackageErr::UpgradingWithDowngrade { package_name } => (package_name, " is locked, so it cannot be downgraded"),
            AddPackageErr::InstalledAsUnlocked { package_name } => (package_name, " is installed as unlocked, so it cannot be installed or upgraded"),
        };
        String::from_str("Package ").concat(name.as_str()).concat(rest)
    }
}

/// How a request treats each requested package.
#[derive(Clone, Copy, Debug, PartialEq, Eq, Structural)]
pub enum AddPackageOperation {
    /// Install and add a top-level dependency entry.
    InstallToDependencies,
    /// Upgrade a locked package.
    UpgradeLocked,
    /// Downgrade a locked package.
    Downgrade,
    /// Choose by the locked version: install, upgrade, reinstall or downgrade.
    AutoDetected,
}

/// The version at which `n` is locked, if it is.
pub open spec fn locked_version(p: UnityProject, n: Seq<char>) -> Option<Version> {
    if p.manifest.locked_map().contains_key(n) {
        Some(p.manifest.locked_map()[n].version)
    } else {
        None
    }
}

/// The request installs a package that is not locked, or asks for a dependency entry.
pub open spec fn install_path(p: UnityProject, op: AddPackageOperation, n: Seq<char>) -> bool {
    op == AddPackageOperation::InstallToDependencies || (op == AddPackageOperation::AutoDetected
        && locked_version(p, n) is None)
}

/// The request upgrades a locked package.
pub open spec fn upgrade_path(p: UnityProject, op: AddPackageOperation, n: Seq<char>, v: Version) -> bool {
    op == AddPackageOperation::UpgradeLocked || (op == AddPackageOperation::AutoDetected && (locked_version(
        p,
        n,
    ) matches Some(l) && version_lt(l, v)))
}

/// The request downgrades a locked package.
pub open spec fn downgrade_path(p: UnityProject, op: AddPackageOperation, n: Seq<char>, v: Version) -> bool {
    op == AddPackageOperation::Downgrade || (op == AddPackageOperation::AutoDetected && (locked_version(
        p,
        n,
    ) matches Some(l) && version_lt(v, l)))
}

/// The request reinstalls the locked version.
pub open spec fn reinstall_path(p: UnityProject, op: AddPackageOperation, n: Seq<char>, v: Version) -> bool {
    op == AddPackageOperation::AutoDetected && locked_version(p, n) == Some(v)
}

/// The request for `n` at `v` is refused.
pub open spec fn rejected(p: UnityProject, op: AddPackageOperation, n: Seq<char>, v: Version) -> bool {
    ||| install_path(p, op, n) && unlocked_has(p.unlocked_packages@, n)
    ||| op == AddPackageOperation::UpgradeLocked && locked_version(p, n) is None
    ||| op == AddPackageOperation::Downgrade && match locked_version(p, n) {
        None => true,
        Some(l) => version_le(l, v),
    }
}

/// `e` is the refusal of the request for `n` at `v`.
pub open spec fn rejection_is(e: AddPackageErr, p: UnityProject, op: AddPackageOperation, n: Seq<char>, v: Version) -> bool {
    match e {
        AddPackageErr::InstalledAsUnlocked { package_name } => package_name@ == n && install_path(p, op, n)
            && unlocked_has(p.unlocked_packages@, n),
        AddPackageErr::UpgradingNonLockedPackage { package_name } => package_name@ == n && op
            == AddPackageOperation::UpgradeLocked && locked_version(p, n) is None,
        AddPackageErr::DowngradingNonLockedPackage { package_name } => package_name@ == n && op
            == AddPackageOperation::Downgrade && locked_version(p, n) is None,
        AddPackageErr::UpgradingWithDowngrade { package_name } => package_name@ == n && op
            == AddPackageOperation::Downgrade && (locked_version(p, n) matches Some(l) && version_le(l, v)),
        AddPackageErr::DependencyNotFound { .. } => false,
    }
}

/// The request writes the top-level dependency entry `v` for `n`: on install when
/// there is no entry or the entry names an older single version; on downgrade when
/// the entry does not accept `v`.
pub open spec fn new_dependency(p: UnityProject, op: AddPackageOperation, n: Seq<char>, v: Version) -> bool {
    ||| install_path(p, op, n) && match p.manifest.deps_map().get(n) {
        None => true,
        Some(DependencyRange::AtLeast(w)) => version_lt(w, v),
        Some(DependencyRange::Between(_, _)) => false,
    }
    ||| downgrade_path(p, op, n, v) && p.manifest.deps_map().contains_key(n) && !p.manifest.deps_map()[n].spec_matches(v)
}

/// The request queues its package for installation: an install or upgrade past
/// the locked version, any downgrade, or a reinstall.
pub open spec fn queued(p: UnityProject, op: AddPackageOperation, n: Seq<char>, v: Version) -> bool {
    ||| (install_path(p, op, n) || upgrade_path(p, op, n, v)) && match locked_version(p, n) {
        None => true,
        Some(l) => version_lt(l, v),
    }
    ||| downgrade_path(p, op, n, v)
    ||| reinstall_path(p, op, n, v)
}

/// Request `k` is dropped for another request of the same package at a newer
/// version, or at the same version earlier in the batch.
pub open spec fn superseded(c: PackageCollection, ps: Seq<PackageInfo>, k: int) -> bool {
    exists|j: int|
        0 <= j < ps.len() && #[trigger] c.spec_get(ps[j]).name@ == c.spec_get(ps[k]).name@ && (version_lt(
            c.spec_get(ps[k]).version,
            c.spec_get(ps[j]).version,
        ) || (c.spec_get(ps[j]).version == c.spec_get(ps[k]).version && j < k))
}

proof fn lemma_version_total(a: Version, b: Version)
    ensures
        version_lt(a, b) || version_lt(b, a) || a == b,
{
}

/// Two requests that are both kept name different packages.
proof fn lemma_kept_distinct(c: PackageCollection, ps: Seq<PackageInfo>, a: int, b: int)
    requires
        0 <= a < ps.len(),
        0 <= b < ps.len(),
        !superseded(c, ps, a),
        !superseded(c, ps, b),
        c.spec_get(ps[a]).name@ == c.spec_get(ps[b]).name@,
    ensures
        a == b,
{
    lemma_version_total(c.spec_get(ps[a]).version, c.spec_get(ps[b]).version);
    if a < b {
        assert(c.spec_get(ps[a]).name@ == c.spec_get(ps[b]).name@);
    }
    if b < a {
        assert(c.spec_get(ps[b]).name@ == c.spec_get(ps[a]).name@);
    }
}

fn is_superseded(c: &PackageCollection, ps: &Vec<PackageInfo>, k: usize) -> (r: bool)
    requires
        k < ps@.len(),
        forall|i: int| 0 <= i < ps@.len() ==> c.valid(#[trigger] ps@[i]),
    ensures
        r == superseded(*c, ps@, k as int),
{
    let me = c.get(ps[k]);
    let mut j: usize = 0;
    while j < ps.len()
        invariant
            k < ps@.len(),
            j <= ps@.len(),
            *me == c.spec_get(ps@[k as int]),
            forall|i: int| 0 <= i < ps@.len() ==> c.valid(#[trigger] ps@[i]),
            forall|i: int|
                0 <= i < j ==> !(#[trigger] c.spec_get(ps@[i]).name@ == me.name@ && (version_lt(
                    me.version,
                    c.spec_get(ps@[i]).version,
                ) || (c.spec_get(ps@[i]).version == me.version && i < k))),
        decreases ps@.len() - j,
    {
        let other = c.get(ps[j]);
        if other.name == me.name && (me.version.less_than(&other.version) || (other.version == me.version && j < k)) {
            return true;
        }
        j += 1;
    }
    false
}

/// The locked package `n` is older than `v`, or not locked.
fn locked_older(locked: Option<Version>, v: &Version) -> (r: bool)
    ensures
        r == match locked {
            None => true,
            Some(l) => version_lt(l, *v),
        },
{
    match locked {
        None => true,
        Some(l) => l.less_than(v),
    }
}

/// Installing to the dependencies: refused for a hand-placed package; writes the
/// entry unless one names the same or a newer single version; queues past the locked version.
fn install_to_dependencies(p: &UnityProject, pkg: &PackageManifest, locked: Option<Version>) -> (r: Result<(bool, bool), AddPackageErr>)
    requires
        p.wf(),
        locked == locked_version(*p, pkg.name@),
    ensures
        match r {
            Ok((d, q)) => !unlocked_has(p.unlocked_packages@, pkg.name@) && d == match p.manifest.deps_map().get(pkg.name@) {
                None => true,
                Some(DependencyRange::AtLeast(w)) => version_lt(w, pkg.version),
                Some(DependencyRange::Between(_, _)) => false,
            } && q == match locked {
                None => true,
                Some(l) => version_lt(l, pkg.version),
            },
            Err(e) => unlocked_has(p.unlocked_packages@, pkg.name@) && (e matches AddPackageErr::InstalledAsUnlocked { package_name }
                && package_name@ == pkg.name@),
        },
{
    if crate::resolve::unlocked_contains(&p.unlocked_packages, &pkg.name) {
        return Err(AddPackageErr::InstalledAsUnlocked { package_name: pkg.name.clone() });
    }
    let write = match p.manifest.get_dependency(&pkg.name) {
        None => true,
        Some(range) => match range.as_single_version() {
            Some(w) => w.less_than(&pkg.version),
            None => false,
        },
    };
    Ok((write, locked_older(locked, &pkg.version)))
}

/// Downgrading: rewrites the entry when it does not accept the version, and always queues.
fn downgrade(p: &UnityProject, pkg: &PackageManifest) -> (r: (bool, bool))
    requires
        p.wf(),
    ensures
        r.0 == (p.manifest.deps_map().contains_key(pkg.name@) && !p.manifest.deps_map()[pkg.name@].spec_matches(pkg.version)),
        r.1,
{
    let write = match p.manifest.get_dependency(&pkg.name) {
        Some(range) => !range.matches(&pkg.version),
        None => false,
    };
    (write, true)
}

/// Decides one request: whether it writes a dependency entry and whether it queues
/// its package, or why it is refused.
fn classify(p: &UnityProject, op: AddPackageOperation, pkg: &PackageManifest) -> (r: Result<(bool, bool), AddPackageErr>)
    requires
        p.wf(),
    ensures
        match r {
            Ok((d, q)) => !rejected(*p, op, pkg.name@, pkg.version) && d == new_dependency(*p, op, pkg.name@, pkg.version)
                && q == queued(*p, op, pkg.name@, pkg.version),
            Err(e) => rejected(*p, op, pkg.name@, pkg.version) && rejection_is(e, *p, op, pkg.name@, pkg.version),
        },
{
    let locked = match p.manifest.get_locked(&pkg.name) {
        Some(l) => Some(l.version),
        None => None,
    };
    assert(locked == locked_version(*p, pkg.name@));
    match op {
        AddPackageOperation::InstallToDependencies => install_to_dependencies(p, pkg, locked),
        AddPackageOperation::UpgradeLocked => match locked {
            None => Err(AddPackageErr::UpgradingNonLockedPackage { package_name: pkg.name.clone() }),
            Some(_) => Ok((false, locked_older(locked, &pkg.version))),
        },
        AddPackageOperation::Downgrade => match locked {
            None => Err(AddPackageErr::DowngradingNonLockedPackage { package_name: pkg.name.clone() }),
            Some(l) => {
                if !pkg.version.less_than(&l) {
                    Err(AddPackageErr::UpgradingWithDowngrade { package_name: pkg.name.clone() })
                } else {
                    Ok(downgrade(p, pkg))
                }
            },
        },
        AddPackageOperation::AutoDetected => match locked {
            None => install_to_dependencies(p, pkg, locked),
            Some(l) => match l.compare(&pkg.version) {
                VersionOrder::Less => Ok((false, true)),
                VersionOrder::Equal => Ok((false, true)),
                VersionOrder::Greater => Ok(downgrade(p, pkg)),
            },
        },
    }
}

/// The change that a dependency entry alone records.
pub open spec fn dependency_change(v: Version) -> PackageChange {
    PackageChange::Install(Install { package: None, add_to_locked: false, to_dependencies: Some(DependencyRange::AtLeast(v)) })
}

pub open spec fn req_name(c: PackageCollection, ps: Seq<PackageInfo>, k: int) -> Seq<char> {
    c.spec_get(ps[k]).name@
}

pub open spec fn req_version(c: PackageCollection, ps: Seq<PackageInfo>, k: int) -> Version {
    c.spec_get(ps[k]).version
}

/// No kept request among the first `k` is refused.
pub open spec fn none_rejected(p: UnityProject, c: PackageCollection, ps: Seq<PackageInfo>, op: AddPackageOperation, k: int) -> bool {
    forall|j: int|
        0 <= j < k && !superseded(c, ps, j) ==> !#[trigger] rejected(p, op, req_name(c, ps, j), req_version(c, ps, j))
}

/// `e` refuses the first refused kept request.
pub open spec fn first_rejection(e: AddPackageErr, p: UnityProject, c: PackageCollection, ps: Seq<PackageInfo>, op: AddPackageOperation) -> bool {
    exists|k: int|
        0 <= k < ps.len() && !superseded(c, ps, k) && #[trigger] rejection_is(e, p, op, req_name(c, ps, k), req_version(c, ps, k))
            && none_rejected(p, c, ps, op, k)
}

/// The dependency entries that the kept requests among the first `k` write.
pub open spec fn dependency_entries(p: UnityProject, c: PackageCollection, ps: Seq<PackageInfo>, op: AddPackageOperation, k: int, ch: Map<Seq<char>, PackageChange>) -> bool {
    &&& forall|j: int|
        0 <= j < k && !superseded(c, ps, j) ==> (ch.contains_key(#[trigger] req_name(c, ps, j)) == new_dependency(
            p,
            op,
            req_name(c, ps, j),
            req_version(c, ps, j),
        ))
    &&& forall|j: int|
        0 <= j < k && !superseded(c, ps, j) && new_dependency(p, op, req_name(c, ps, j), req_version(c, ps, j))
            ==> ch[#[trigger] req_name(c, ps, j)] == dependency_change(req_version(c, ps, j))
    &&& forall|n: Seq<char>|
        #[trigger] ch.contains_key(n) ==> exists|j: int|
            0 <= j < k && !superseded(c, ps, j) && #[trigger] req_name(c, ps, j) == n && new_dependency(
                p,
                op,
                n,
                req_version(c, ps, j),
            )
}

/// The queue holds exactly the packages of the kept requests among the first `k` that queue.
pub open spec fn queue_of(p: UnityProject, c: PackageCollection, ps: Seq<PackageInfo>, op: AddPackageOperation, k: int, q: Seq<PackageInfo>) -> bool {
    &&& forall|j: int|
        0 <= j < k && !superseded(c, ps, j) && queued(p, op, req_name(c, ps, j), req_version(c, ps, j))
            ==> q.contains(#[trigger] ps[j])
    &&& forall|i: int| 0 <= i < q.len() ==> kept_queued(p, c, ps, op, k, #[trigger] q[i])
}

/// `x` is the package of a kept request among the first `k` that queues.
pub open spec fn kept_queued(p: UnityProject, c: PackageCollection, ps: Seq<PackageInfo>, op: AddPackageOperation, k: int, x: PackageInfo) -> bool {
    exists|j: int|
        0 <= j < k && !superseded(c, ps, j) && queued(p, op, req_name(c, ps, j), req_version(c, ps, j))
            && #[trigger] ps[j] == x
}

/// Classifies every kept request in order: the dependency entries go to a builder,
/// the packages to install to a queue; the first refusal ends the batch.
fn classify_requests(p: &UnityProject, c: &PackageCollection, ps: &Vec<PackageInfo>, op: AddPackageOperation) -> (r: Result<(Builder, Vec<PackageInfo>), AddPackageErr>)
    requires
        p.wf(),
        all_valid(*c, ps@),
    ensures
        match r {
            Ok((b, q)) => {
                &&& none_rejected(*p, *c, ps@, op, ps@.len() as int)
                &&& b.wf()
                &&& only_dependency_entries(b.changes())
                &&& b.conflict_map() == Map::<Seq<char>, (Seq<Seq<char>>, bool)>::empty()
                &&& dependency_entries(*p, *c, ps@, op, ps@.len() as int, b.changes())
                &&& all_valid(*c, q@)
                &&& pkg_names(*c, q@).no_duplicates()
                &&& queue_of(*p, *c, ps@, op, ps@.len() as int, q@)
            },
            Err(e) => first_rejection(e, *p, *c, ps@, op),
        },
{
    let mut b = Builder::new();
    let mut q: Vec<PackageInfo> = Vec::new();
    let mut k: usize = 0;
    while k < ps.len()
        invariant
            k <= ps@.len(),
            p.wf(),
            all_valid(*c, ps@),
            none_rejected(*p, *c, ps@, op, k as int),
            b.wf(),
            only_dependency_entries(b.changes()),
            b.conflict_map() == Map::<Seq<char>, (Seq<Seq<char>>, bool)>::empty(),
            dependency_entries(*p, *c, ps@, op, k as int, b.changes()),
            all_valid(*c, q@),
            pkg_names(*c, q@).no_duplicates(),
            queue_of(*p, *c, ps@, op, k as int, q@),
        decreases ps@.len() - k,
    {
        if !is_superseded(c, ps, k) {
            let pkg = c.get(ps[k]);
            let ghost n = pkg.name@;
            let ghost v = pkg.version;
            assert(n == req_name(*c, ps@, k as int) && v == req_version(*c, ps@, k as int));
            match classify(p, op, pkg) {
                Err(e) => {
                    assert(rejection_is(e, *p, op, req_name(*c, ps@, k as int), req_version(*c, ps@, k as int)));
                    return Err(e);
                },
                Ok((write, enqueue)) => {
                    proof {
                        assert(!b.changes().contains_key(n)) by {
                            if b.changes().contains_key(n) {
                                let j = choose|j: int|
                                    0 <= j < k && !superseded(*c, ps@, j) && #[trigger] req_name(*c, ps@, j) == n && new_dependency(
                                        *p,
                                        op,
                                        n,
                                        req_version(*c, ps@, j),
                                    );
                                lemma_kept_distinct(*c, ps@, j, k as int);
                            }
                        }
                    }
                    let ghost before = b.changes();
                    if write {
                        b.add_to_dependencies(pkg.name.clone(), DependencyRange::version(pkg.version));
                    }
                    proof {
                        assert forall|j: int| 0 <= j < k + 1 && !superseded(*c, ps@, j)
                            implies (b.changes().contains_key(#[trigger] req_name(*c, ps@, j)) == new_dependency(
                                *p, op, req_name(*c, ps@, j), req_version(*c, ps@, j))) by {
                            if j < k && req_name(*c, ps@, j) == n {
                                lemma_kept_distinct(*c, ps@, j, k as int);
                            }
                        }
                        assert forall|j: int| 0 <= j < k + 1 && !superseded(*c, ps@, j) && new_dependency(*p, op, req_name(*c, ps@, j), req_version(*c, ps@, j))
                            implies b.changes()[#[trigger] req_name(*c, ps@, j)] == dependency_change(req_version(*c, ps@, j)) by {
                            if j < k && req_name(*c, ps@, j) == n {
                                lemma_kept_distinct(*c, ps@, j, k as int);
                            }
                        }
                        assert forall|x: Seq<char>| #[trigger] b.changes().contains_key(x) implies exists|j: int|
                            0 <= j < k + 1 && !superseded(*c, ps@, j) && #[trigger] req_name(*c, ps@, j) == x && new_dependency(
                                *p, op, x, req_version(*c, ps@, j)) by {
                            if x != n {
                                assert(before.contains_key(x));
                            } else {
                                assert(req_name(*c, ps@, k as int) == x);
                            }
                        }
                        assert forall|x: Seq<char>| #[trigger] b.changes().contains_key(x) implies b.changes()[x] is Install
                            && b.changes()[x]->Install_0.package is None && !b.changes()[x]->Install_0.add_to_locked by {
                            if x != n {
                                assert(before.contains_key(x));
                            }
                        }
                    }
                    if enqueue {
                        let ghost qb = q@;
                        proof {
                            assert(!pkg_names(*c, qb).contains(n)) by {
                                if pkg_names(*c, qb).contains(n) {
                                    let i = choose|i: int| 0 <= i < pkg_names(*c, qb).len() && pkg_names(*c, qb)[i] == n;
                                    assert(kept_queued(*p, *c, ps@, op, k as int, qb[i]));
                                    let j = choose|j: int|
                                        0 <= j < k && !superseded(*c, ps@, j) && queued(*p, op, req_name(*c, ps@, j), req_version(*c, ps@, j))
                                            && #[trigger] ps@[j] == qb[i];
                                    lemma_kept_distinct(*c, ps@, j, k as int);
                                }
                            }
                        }
                        q.push(ps[k]);
                        proof {
                            assert(pkg_names(*c, q@) =~= pkg_names(*c, qb).push(n));
                            assert forall|j: int| 0 <= j < k + 1 && !superseded(*c, ps@, j) && queued(*p, op, req_name(*c, ps@, j), req_version(*c, ps@, j))
                                implies q@.contains(#[trigger] ps@[j]) by {
                                if j < k {
                                    assert(qb.contains(ps@[j]));
                                    let i = choose|i: int| 0 <= i < qb.len() && qb[i] == ps@[j];
                                    assert(q@[i] == ps@[j]);
                                } else {
                                    assert(q@[qb.len() as int] == ps@[j]);
                                }
                            }
                            assert forall|i: int| 0 <= i < q@.len() implies kept_queued(*p, *c, ps@, op, k + 1, #[trigger] q@[i]) by {
                                if i < qb.len() {
                                    assert(q@[i] == qb[i]);
                                    assert(kept_queued(*p, *c, ps@, op, k as int, qb[i]));
                                } else {
                                    assert(ps@[k as int] == q@[i]);
                                }
                            }
                        }
                    } else {
                        proof {
                            assert forall|j: int| 0 <= j < k + 1 && !superseded(*c, ps@, j) && queued(*p, op, req_name(*c, ps@, j), req_version(*c, ps@, j))
                                implies q@.contains(#[trigger] ps@[j]) by {
                            }
                        }
                    }
                },
            }
        } else {
            proof {
                assert forall|x: Seq<char>| #[trigger] b.changes().contains_key(x) implies exists|j: int|
                    0 <= j < k + 1 && !superseded(*c, ps@, j) && #[trigger] req_name(*c, ps@, j) == x && new_dependency(
                        *p, op, x, req_version(*c, ps@, j)) by {
                    let j = choose|j: int|
                        0 <= j < k && !superseded(*c, ps@, j) && #[trigger] req_name(*c, ps@, j) == x && new_dependency(
                            *p, op, x, req_version(*c, ps@, j));
                }
                assert forall|i: int| 0 <= i < q@.len() implies kept_queued(*p, *c, ps@, op, k + 1, #[trigger] q@[i]) by {
                    assert(kept_queued(*p, *c, ps@, op, k as int, q@[i]));
                }
            }
        }
        k += 1;
    }
    Ok((b, q))
}

/// The package installed under `n` by the changes `ch`.
pub open spec fn installed_package(ch: Map<Seq<char>, PackageChange>, n: Seq<char>) -> Option<PackageInfo> {
    if ch.contains_key(n) && ch[n] is Install {
        ch[n]->Install_0.package
    } else {
        None
    }
}

/// The dependency `j` of the package installed under `n`.
pub open spec fn dependency_of(c: PackageCollection, ch: Map<Seq<char>, PackageChange>, n: Seq<char>, j: int) -> (String, DependencyRange) {
    c.spec_get(installed_package(ch, n)->Some_0).vpm_dependencies@[j]
}

/// Once the changes `ch` are applied, the dependency `d` within `range` is there:
/// installed by them, placed by hand, or locked at a version the range accepts.
pub open spec fn dependency_met(ch: Map<Seq<char>, PackageChange>, p: UnityProject, d: Seq<char>, range: DependencyRange) -> bool {
    ||| installed_package(ch, d) is Some
    ||| unlocked_has(p.unlocked_packages@, d)
    ||| locked_version(p, d) matches Some(l) && range.spec_matches(l)
}

/// `p` is installed because a kept request queues it, or because it is the newest
/// candidate for an otherwise unmet dependency of another installed package.
pub open spec fn installs_for_a_reason(
    ch: Map<Seq<char>, PackageChange>,
    p: UnityProject,
    c: PackageCollection,
    ps: Seq<PackageInfo>,
    op: AddPackageOperation,
    allow_prerelease: bool,
    pkg: PackageInfo,
) -> bool {
    ||| kept_queued(p, c, ps, op, ps.len() as int, pkg)
    ||| exists|n2: Seq<char>, j: int|
        installed_package(ch, n2) is Some && 0 <= j < c.spec_get(installed_package(ch, n2)->Some_0).vpm_dependencies@.len()
            && #[trigger] newest_for(c, p.manifest, p.unlocked_packages@, pkg, dependency_of(c, ch, n2, j), allow_prerelease)
}

/// Every dependency of every package that `ch` installs is met.
pub open spec fn dependencies_met(ch: Map<Seq<char>, PackageChange>, p: UnityProject, c: PackageCollection) -> bool {
    forall|n: Seq<char>, j: int|
        installed_package(ch, n) is Some && 0 <= j < c.spec_get(installed_package(ch, n)->Some_0).vpm_dependencies@.len()
            ==> dependency_met(ch, p, #[trigger] dependency_of(c, ch, n, j).0@, dependency_of(c, ch, n, j).1)
}

/// The decisions of a plan other than removals of unused packages.
pub open spec fn decided(ch: Map<Seq<char>, PackageChange>) -> Map<Seq<char>, PackageChange> {
    Map::new(
        |n: Seq<char>| ch.contains_key(n) && ch[n] != PackageChange::Remove(Remove { reason: RemoveReason::Unused }),
        |n: Seq<char>| ch[n],
    )
}

/// Changes that only write dependency entries leave nothing to sweep.
proof fn lemma_nothing_swept(ch: Map<Seq<char>, PackageChange>, c: PackageCollection, p: UnityProject)
    requires
        only_dependency_entries(ch),
    ensures
        swept(ch, c, p) == ch,
{
    let seeds = crate::sweep::removable_seeds(ch, p.manifest);
    assert(seeds =~= Set::<Seq<char>>::empty());
    let rel = crate::sweep::locked_rel(p.manifest);
    assert(crate::graph::is_closed(rel, Set::<Seq<char>>::empty()));
    assert forall|n: Seq<char>| !crate::sweep::removable_set(ch, p.manifest).contains(n) by {
        assert(!Set::<Seq<char>>::empty().contains(n));
    }
    assert(swept(ch, c, p) =~= ch);
}

/// No kept request queues its package.
pub open spec fn nothing_queued(p: UnityProject, c: PackageCollection, ps: Seq<PackageInfo>, op: AddPackageOperation) -> bool {
    forall|k: int|
        0 <= k < ps.len() && !superseded(c, ps, k) ==> !#[trigger] queued(p, op, req_name(c, ps, k), req_version(c, ps, k))
}

proof fn lemma_no_conflicts(s: Seq<(String, crate::changes::ConflictInfo)>)
    requires
        crate::changes::conflicts_view(s) == Map::<Seq<char>, (Seq<Seq<char>>, bool)>::empty(),
    ensures
        s.len() == 0,
{
    if s.len() > 0 {
        assert(has_key(s, s[0].0@));
        assert(to_map(s).contains_key(s[0].0@));
        assert(crate::changes::conflicts_view(s).contains_key(s[0].0@));
    }
}

/// Every entry of the builder is an install; those with a package are exactly the
/// first `i` resolved packages, each locked; dependency entries are those of `b0`.
pub open spec fn installed_prefix(
    c: PackageCollection,
    ch0: Map<Seq<char>, PackageChange>,
    ch: Map<Seq<char>, PackageChange>,
    new: Seq<PackageInfo>,
    i: int,
) -> bool {
    &&& forall|n: Seq<char>| #[trigger] ch.contains_key(n) ==> ch[n] is Install
    &&& forall|n: Seq<char>| #[trigger] ch0.contains_key(n) ==> ch.contains_key(n) && ch[n]->Install_0.to_dependencies
        == ch0[n]->Install_0.to_dependencies
    &&& forall|n: Seq<char>|
        #[trigger] ch.contains_key(n) && ch[n]->Install_0.package is Some ==> pkg_names(c, new.take(i)).contains(n)
    &&& forall|j: int|
        0 <= j < i ==> ch.contains_key(#[trigger] c.spec_get(new[j]).name@) && ch[c.spec_get(new[j]).name@]->Install_0.package
            == Some(new[j]) && ch[c.spec_get(new[j]).name@]->Install_0.add_to_locked
    &&& forall|n: Seq<char>|
        #[trigger] ch.contains_key(n) && !ch0.contains_key(n) ==> ch[n]->Install_0.to_dependencies is None
            && ch[n]->Install_0.package is Some
}

impl UnityProject {
    /// Plans adding `packages` to the project: dependency entries, installs of the
    /// packages and what they need, removal of legacy and unused packages, conflicts,
    /// and legacy assets to delete. Nothing is changed until the plan is applied.
    pub fn add_package_request(
        &self,
        c: &PackageCollection,
        packages: &Vec<PackageInfo>,
        operation: AddPackageOperation,
        allow_prerelease: bool,
    ) -> (r: Result<PendingProjectChanges, AddPackageErr>)
        requires
            self.wf(),
            all_valid(*c, packages@),
        ensures
            match r {
                Err(e) => match e {
                    AddPackageErr::DependencyNotFound { dependency_name } => none_rejected(*self, *c, packages@, operation, packages@.len() as int)
                        && exists|range: DependencyRange| #[trigger] unresolvable(*c, self.manifest, self.unlocked_packages@, dependency_name@, range, allow_prerelease),
                    _ => first_rejection(e, *self, *c, packages@, operation),
                },
                Ok(plan) => {
                    &&& none_rejected(*self, *c, packages@, operation, packages@.len() as int)
                    &&& plan.wf()
                    &&& forall|k: int|
                        0 <= k < packages@.len() && !superseded(*c, packages@, k) && new_dependency(*self, operation,
                            req_name(*c, packages@, k), req_version(*c, packages@, k)) ==> plan.changes().contains_key(
                            #[trigger] req_name(*c, packages@, k),
                        ) && plan.changes()[req_name(*c, packages@, k)] is Install
                            && plan.changes()[req_name(*c, packages@, k)]->Install_0.to_dependencies == Some(
                            DependencyRange::AtLeast(req_version(*c, packages@, k)),
                        )
                    &&& forall|k: int|
                        0 <= k < packages@.len() && !superseded(*c, packages@, k) && queued(*self, operation,
                            req_name(*c, packages@, k), req_version(*c, packages@, k)) ==> plan.changes().contains_key(
                            #[trigger] req_name(*c, packages@, k),
                        ) && plan.changes()[req_name(*c, packages@, k)] is Install
                            && plan.changes()[req_name(*c, packages@, k)]->Install_0.package == Some(packages@[k])
                            && plan.changes()[req_name(*c, packages@, k)]->Install_0.add_to_locked
                    &&& dependencies_met(plan.changes(), *self, *c)
                    &&& forall|n: Seq<char>|
                        #[trigger] plan.changes().contains_key(n) && plan.changes()[n] is Install ==> (plan.changes()[n]->Install_0.package is Some
                            || plan.changes()[n]->Install_0.to_dependencies is Some)
                    &&& forall|n: Seq<char>|
                        #[trigger] plan.changes().contains_key(n) && plan.changes()[n] is Install && plan.changes()[n]->Install_0.to_dependencies is Some
                            ==> exists|k: int|
                            0 <= k < packages@.len() && !superseded(*c, packages@, k) && #[trigger] req_name(*c, packages@, k) == n
                                && new_dependency(*self, operation, n, req_version(*c, packages@, k))
                    &&& forall|n: Seq<char>|
                        #[trigger] installed_package(plan.changes(), n) is Some ==> installs_for_a_reason(
                            plan.changes(),
                            *self,
                            *c,
                            packages@,
                            operation,
                            allow_prerelease,
                            installed_package(plan.changes(), n)->Some_0,
                        )
                    &&& plan_consistent(plan, *c)
                    &&& plan.changes() == swept(decided(plan.changes()), *c, *self)
                    &&& forall|n: Seq<char>|
                        #[trigger] plan.changes().contains_key(n) && plan.changes()[n] is Remove ==> self.manifest.locked_map().contains_key(n) && (
                        plan.changes()[n]->Remove_0.reason == RemoveReason::Legacy || plan.changes()[n]->Remove_0.reason
                            == RemoveReason::Unused)
                    &&& nothing_queued(*self, *c, packages@, operation) ==> {
                        &&& only_dependency_entries(plan.changes())
                        &&& dependency_entries(*self, *c, packages@, operation, packages@.len() as int, plan.changes())
                        &&& plan.conflicts@.len() == 0
                        &&& plan.remove_legacy_files@.len() == 0
                        &&& plan.remove_legacy_folders@.len() == 0
                    }
                },
            },
            none_rejected(*self, *c, packages@, operation, packages@.len() as int) && resolvable(
                *c,
                self.manifest,
                self.unlocked_packages@,
                allow_prerelease,
            ) ==> r is Ok,
    {
        let ghost ps = packages@;
        let (mut b, q) = match classify_requests(self, c, packages, operation) {
            Ok(x) => x,
            Err(e) => {
                proof {
                    let k = choose|k: int|
                        0 <= k < ps.len() && !superseded(*c, ps, k) && #[trigger] rejection_is(e, *self, operation, req_name(*c, ps, k), req_version(*c, ps, k))
                            && none_rejected(*self, *c, ps, operation, k);
                    assert(rejected(*self, operation, req_name(*c, ps, k), req_version(*c, ps, k)));
                }
                return Err(e);
            },
        };
        let ghost ch0 = b.changes();
        if q.len() == 0 {
            proof {
                assert forall|k: int|
                    0 <= k < ps.len() && !superseded(*c, ps, k) implies !#[trigger] queued(*self, operation, req_name(*c, ps, k), req_version(*c, ps, k)) by {
                    if queued(*self, operation, req_name(*c, ps, k), req_version(*c, ps, k)) {
                        assert(q@.contains(ps[k]));
                    }
                }
                lemma_no_conflicts(b.conflicts@);
            }
            let plan = b.build_no_resolve();
            proof {
                assert forall|k: int|
                    0 <= k < ps.len() && !superseded(*c, ps, k) && new_dependency(*self, operation,
                        req_name(*c, ps, k), req_version(*c, ps, k)) implies plan.changes().contains_key(
                        #[trigger] req_name(*c, ps, k),
                    ) && plan.changes()[req_name(*c, ps, k)] is Install
                        && plan.changes()[req_name(*c, ps, k)]->Install_0.to_dependencies == Some(
                        DependencyRange::AtLeast(req_version(*c, ps, k)),
                    ) by {
                    assert(ch0[req_name(*c, ps, k)] == dependency_change(req_version(*c, ps, k)));
                }
                assert(nothing_queued(*self, *c, ps, operation));
                lemma_nothing_swept(ch0, *c, *self);
                assert(decided(ch0) =~= ch0);
                assert forall|k: int|
                    0 <= k < plan.package_changes@.len() && #[trigger] plan.package_changes@[k].1 is Install
                        && plan.package_changes@[k].1->Install_0.package is Some implies false by {
                    lemma_value_at(plan.package_changes@, k);
                }
            }
            return Ok(plan);
        }
        proof {
            assert forall|k: int| 0 <= k < q@.len() implies c.valid(#[trigger] q@[k]) by {}
        }
        let res = match collect_adding_packages(&self.manifest, &self.unlocked_packages, c, &q, allow_prerelease) {
            Ok(res) => res,
            Err(e) => {
                return Err(e);
            },
        };
        let new = &res.new_packages;
        let ghost nw = new@;
        let mut i: usize = 0;
        proof {
            assert(nw.take(0) =~= Seq::<PackageInfo>::empty());
            assert(pkg_names(*c, nw.take(0)) =~= Seq::<Seq<char>>::empty());
        }
        while i < new.len()
            invariant
                i <= nw.len(),
                nw == new@,
                all_valid(*c, nw),
                pkg_names(*c, nw).no_duplicates(),
                b.wf(),
                packages_valid(b.changes(), *c),
                installed_prefix(*c, ch0, b.changes(), nw, i as int),
                forall|n: Seq<char>| #[trigger] ch0.contains_key(n) ==> ch0[n] is Install && ch0[n]->Install_0.package is None,
            decreases nw.len() - i,
        {
            let x = new[i];
            let ghost n = c.spec_get(x).name@;
            let ghost before = b.changes();
            proof {
                assert(may_install(b.changes().get(n))) by {
                    if b.changes().contains_key(n) && b.changes()[n]->Install_0.package is Some {
                        let k = choose|k: int| 0 <= k < pkg_names(*c, nw.take(i as int)).len() && pkg_names(*c, nw.take(i as int))[k] == n;
                        assert(pkg_names(*c, nw)[k] == pkg_names(*c, nw)[i as int]);
                    }
                }
            }
            b.install_to_locked(c, x);
            proof {
                let ch = b.changes();
                assert(pkg_names(*c, nw.take(i + 1)) =~= pkg_names(*c, nw.take(i as int)).push(n));
                assert forall|m: Seq<char>| #[trigger] ch0.contains_key(m) implies ch.contains_key(m) && ch[m]->Install_0.to_dependencies
                    == ch0[m]->Install_0.to_dependencies by {
                    assert(before.contains_key(m));
                }
                assert forall|m: Seq<char>| #[trigger] ch.contains_key(m) && !ch0.contains_key(m)
                    implies ch[m]->Install_0.to_dependencies is None && ch[m]->Install_0.package is Some by {
                    if m != n {
                        assert(before.contains_key(m));
                    }
                }
                assert forall|m: Seq<char>| #[trigger] ch.contains_key(m) && ch[m]->Install_0.package is Some
                    implies pkg_names(*c, nw.take(i + 1)).contains(m) by {
                    if m != n {
                        assert(before.contains_key(m));
                        let k = choose|k: int| 0 <= k < pkg_names(*c, nw.take(i as int)).len() && pkg_names(*c, nw.take(i as int))[k] == m;
                        assert(pkg_names(*c, nw.take(i + 1))[k] == m);
                    } else {
                        assert(pkg_names(*c, nw.take(i + 1))[i as int] == m);
                    }
                }
                assert forall|j: int| 0 <= j < i + 1 implies ch.contains_key(#[trigger] c.spec_get(nw[j]).name@) && ch[c.spec_get(nw[j]).name@]->Install_0.package
                    == Some(nw[j]) && ch[c.spec_get(nw[j]).name@]->Install_0.add_to_locked by {
                    if j < i {
                        assert(pkg_names(*c, nw)[j] != pkg_names(*c, nw)[i as int]);
                    }
                }
                assert forall|m: Seq<char>| #[trigger] ch.contains_key(m) && ch[m] is Install && ch[m]->Install_0.package is Some
                    implies c.valid(ch[m]->Install_0.package->Some_0) by {
                    if m != n {
                        assert(before.contains_key(m));
                    }
                }
            }
            i += 1;
        }
        let ghost ch1 = b.changes();
        let mut i: usize = 0;
        while i < res.conflicts.len()
            invariant
                b.wf(),
                b.changes() == ch1,
            decreases res.conflicts@.len() - i,
        {
            let (name, list) = (res.conflicts[i].0.clone(), crate::assoc::clone_names(&res.conflicts[i].1));
            b.conflict_multiple(name, list);
            i += 1;
        }
        let mut i: usize = 0;
        while i < res.found_legacy_packages.len()
            invariant
                self.wf(),
                b.wf(),
                packages_valid(b.changes(), *c),
                forall|n: Seq<char>| #[trigger] ch1.contains_key(n) && ch1[n] is Install ==> b.changes().contains_key(n) && b.changes()[n] == ch1[n],
                forall|n: Seq<char>| #[trigger] b.changes().contains_key(n) ==> (b.changes()[n] is Install && ch1.contains_key(n) && b.changes()[n] == ch1[n])
                    || (b.changes()[n] is Remove && b.changes()[n]->Remove_0.reason == RemoveReason::Legacy && self.manifest.locked_map().contains_key(n)),
                forall|n: Seq<char>| #[trigger] ch1.contains_key(n) ==> ch1[n] is Install,
            decreases res.found_legacy_packages@.len() - i,
        {
            let name = &res.found_legacy_packages[i];
            let installing = match b.get_change(name) {
                Some(PackageChange::Install(_)) => true,
                _ => false,
            };
            if self.is_locked(name) && !installing {
                let ghost before = b.changes();
                b.remove(name.clone(), RemoveReason::Legacy);
                proof {
                    assert forall|n: Seq<char>| #[trigger] ch1.contains_key(n) && ch1[n] is Install implies b.changes().contains_key(n) && b.changes()[n] == ch1[n] by {
                        assert(before.contains_key(n));
                    }
                    assert forall|n: Seq<char>| #[trigger] b.changes().contains_key(n) && b.changes()[n] is Install && b.changes()[n]->Install_0.package is Some
                        implies c.valid(b.changes()[n]->Install_0.package->Some_0) by {
                        assert(before.contains_key(n));
                    }
                }
            }
            i += 1;
        }
        let ghost ch2 = b.changes();
        let plan = b.build_resolve(self, c);
        proof {
            assert forall|k: int|
                0 <= k < ps.len() && !superseded(*c, ps, k) && new_dependency(*self, operation,
                    req_name(*c, ps, k), req_version(*c, ps, k)) implies plan.changes().contains_key(
                    #[trigger] req_name(*c, ps, k),
                ) && plan.changes()[req_name(*c, ps, k)] is Install
                    && plan.changes()[req_name(*c, ps, k)]->Install_0.to_dependencies == Some(
                    DependencyRange::AtLeast(req_version(*c, ps, k)),
                ) by {
                let n = req_name(*c, ps, k);
                assert(ch0.contains_key(n));
                assert(ch1.contains_key(n));
                assert(ch2.contains_key(n));
            }
            assert forall|k: int|
                0 <= k < ps.len() && !superseded(*c, ps, k) && queued(*self, operation,
                    req_name(*c, ps, k), req_version(*c, ps, k)) implies plan.changes().contains_key(
                    #[trigger] req_name(*c, ps, k),
                ) && plan.changes()[req_name(*c, ps, k)] is Install
                    && plan.changes()[req_name(*c, ps, k)]->Install_0.package == Some(ps[k])
                    && plan.changes()[req_name(*c, ps, k)]->Install_0.add_to_locked by {
                let n = req_name(*c, ps, k);
                assert(q@.contains(ps[k]));
                let j = choose|j: int| 0 <= j < q@.len() && q@[j] == ps[k];
                assert(nw.take(q@.len() as int)[j] == q@[j]);
                assert(nw[j] == ps[k]);
                assert(c.spec_get(nw[j]).name@ == n);
                assert(ch1.contains_key(n));
                assert(ch2.contains_key(n));
            }
            assert forall|n: Seq<char>|
                #[trigger] plan.changes().contains_key(n) && plan.changes()[n] is Remove implies self.manifest.locked_map().contains_key(n) && (
                plan.changes()[n]->Remove_0.reason == RemoveReason::Legacy || plan.changes()[n]->Remove_0.reason
                    == RemoveReason::Unused) by {
                if ch2.contains_key(n) {
                    assert(ch2[n] is Remove);
                }
            }
            let pch = plan.changes();
            assert forall|n: Seq<char>| #[trigger] installed_package(pch, n) is Some implies installed_package(ch1, n) == installed_package(pch, n) by {
                assert(ch2.contains_key(n));
                assert(ch2[n] is Install);
                assert(ch1.contains_key(n));
            }
            assert forall|n: Seq<char>| #[trigger] installed_package(ch1, n) is Some implies installed_package(pch, n) == installed_package(ch1, n) by {
                assert(ch2.contains_key(n));
            }
            assert forall|n: Seq<char>, j: int|
                installed_package(pch, n) is Some && 0 <= j < c.spec_get(installed_package(pch, n)->Some_0).vpm_dependencies@.len()
                    implies dependency_met(pch, *self, #[trigger] dependency_of(*c, pch, n, j).0@, dependency_of(*c, pch, n, j).1) by {
                assert(installed_package(ch1, n) is Some);
                assert(pkg_names(*c, nw.take(nw.len() as int)).contains(n));
                assert(nw.take(nw.len() as int) =~= nw);
                let i = choose|i: int| 0 <= i < pkg_names(*c, nw).len() && pkg_names(*c, nw)[i] == n;
                assert(c.spec_get(nw[i]).name@ == n);
                assert(ch1[c.spec_get(nw[i]).name@]->Install_0.package == Some(nw[i]));
                let dep = dependency_of(*c, pch, n, j);
                assert(dep == crate::resolve::dep_at(*c, nw, i, j));
                assert(crate::resolve::satisfied(self.manifest, self.unlocked_packages@, pkg_names(*c, nw), dep.0@, dep.1));
                if pkg_names(*c, nw).contains(dep.0@) {
                    let i2 = choose|i2: int| 0 <= i2 < pkg_names(*c, nw).len() && pkg_names(*c, nw)[i2] == dep.0@;
                    assert(c.spec_get(nw[i2]).name@ == dep.0@);
                    assert(installed_package(ch1, dep.0@) is Some);
                }
            }
            assert forall|n: Seq<char>|
                #[trigger] installed_package(pch, n) is Some implies installs_for_a_reason(pch, *self, *c, ps, operation, allow_prerelease, installed_package(pch, n)->Some_0) by {
                assert(installed_package(ch1, n) is Some);
                assert(pkg_names(*c, nw.take(nw.len() as int)).contains(n));
                assert(nw.take(nw.len() as int) =~= nw);
                let i = choose|i: int| 0 <= i < pkg_names(*c, nw).len() && pkg_names(*c, nw)[i] == n;
                assert(c.spec_get(nw[i]).name@ == n);
                assert(ch1[c.spec_get(nw[i]).name@]->Install_0.package == Some(nw[i]));
                let pkg = installed_package(pch, n)->Some_0;
                assert(pkg == nw[i]);
                if i < q@.len() {
                    assert(nw.take(q@.len() as int)[i] == q@[i]);
                    assert(kept_queued(*self, *c, ps, operation, ps.len() as int, q@[i]));
                } else {
                    assert(crate::resolve::pulled_in(*c, self.manifest, self.unlocked_packages@, nw, i, allow_prerelease));
                    let (k, j) = choose|k: int, j: int|
                        0 <= k < i && 0 <= j < c.spec_get(nw[k]).vpm_dependencies@.len() && #[trigger] newest_for(*c, self.manifest, self.unlocked_packages@, nw[i], crate::resolve::dep_at(*c, nw, k, j), allow_prerelease);
                    let n2 = c.spec_get(nw[k]).name@;
                    assert(ch1[n2]->Install_0.package == Some(nw[k]));
                    assert(installed_package(ch1, n2) is Some);
                    assert(installed_package(pch, n2) == installed_package(ch1, n2));
                    assert(dependency_of(*c, pch, n2, j) == crate::resolve::dep_at(*c, nw, k, j));
                }
            }
            assert forall|n: Seq<char>|
                #[trigger] pch.contains_key(n) && pch[n] is Install implies (pch[n]->Install_0.package is Some
                    || pch[n]->Install_0.to_dependencies is Some) && (pch[n]->Install_0.to_dependencies is Some ==> exists|k: int|
                    0 <= k < ps.len() && !superseded(*c, ps, k) && #[trigger] req_name(*c, ps, k) == n
                        && new_dependency(*self, operation, n, req_version(*c, ps, k))) by {
                assert(ch2.contains_key(n));
                assert(ch2[n] is Install);
                assert(ch1.contains_key(n) && ch1[n] == ch2[n]);
                if ch0.contains_key(n) {
                    assert(ch0[n] is Install && ch0[n]->Install_0.to_dependencies is Some);
                    let j = choose|j: int|
                        0 <= j < ps.len() && !superseded(*c, ps, j) && #[trigger] req_name(*c, ps, j) == n && new_dependency(*self, operation, n, req_version(*c, ps, j));
                }
            }
            assert(decided(pch) =~= ch2) by {
                assert forall|n: Seq<char>| #[trigger] ch2.contains_key(n) implies ch2[n] != PackageChange::Remove(Remove { reason: RemoveReason::Unused }) by {}
            }
            assert forall|k: int|
                0 <= k < plan.package_changes@.len() && #[trigger] plan.package_changes@[k].1 is Install
                    && plan.package_changes@[k].1->Install_0.package is Some implies c.valid(
                    plan.package_changes@[k].1->Install_0.package->Some_0,
                ) && c.spec_get(plan.package_changes@[k].1->Install_0.package->Some_0).name@ == plan.package_changes@[k].0@ by {
                lemma_value_at(plan.package_changes@, k);
                let n = plan.package_changes@[k].0@;
                assert(installed_package(pch, n) is Some);
                assert(installed_package(ch1, n) is Some);
                assert(pkg_names(*c, nw.take(nw.len() as int)).contains(n));
                assert(nw.take(nw.len() as int) =~= nw);
                let i = choose|i: int| 0 <= i < pkg_names(*c, nw).len() && pkg_names(*c, nw)[i] == n;
                assert(c.spec_get(nw[i]).name@ == n);
                assert(ch1[c.spec_get(nw[i]).name@]->Install_0.package == Some(nw[i]));
            }
            assert(!nothing_queued(*self, *c, ps, operation)) by {
                let x = q@[0];
                assert(kept_queued(*self, *c, ps, operation, ps.len() as int, x));
            }
        }
        Ok(plan)
    }
}

/// An automatically detected request for a package locked at exactly the requested
/// version is never refused, writes no dependency entry, and queues a reinstall of
/// that version.
pub proof fn lemma_same_version_reinstalls(p: UnityProject, n: Seq<char>, v: Version)
    requires
        locked_version(p, n) == Some(v),
    ensures
        !rejected(p, AddPackageOperation::AutoDetected, n, v),
        !new_dependency(p, AddPackageOperation::AutoDetected, n, v),
        queued(p, AddPackageOperation::AutoDetected, n, v),
{
}

} // verus!
