use vstd::prelude::*;
use crate::assoc::{names, extend_names};
use crate::manifest::VpmManifest;
use crate::package::{PackageCollection, PackageInfo};
use crate::project::UnlockedPackage;
use crate::version::DependencyRange;
use crate::add_package::AddPackageErr;

verus! {

/// What dependency resolution adds to a project.
pub struct ResolveResult {
    /// Packages to install, the requested ones first, then the dependencies they pull in.
    pub new_packages: Vec<PackageInfo>,
    /// For each new package that some locked package cannot accept: the names of those packages.
    pub conflicts: Vec<(String, Vec<String>)>,
    /// Legacy packages that the new packages declare.
    pub found_legacy_packages: Vec<String>,
}

/// Names of the packages behind a list of handles.
pub open spec fn pkg_names(c: PackageCollection, ps: Seq<PackageInfo>) -> Seq<Seq<char>> {
    ps.map_values(|p: PackageInfo| c.spec_get(p).name@)
}

/// The hand-placed package `u` sits in a folder named `n` or declares the name `n`.
pub open spec fn unlocked_is(u: UnlockedPackage, n: Seq<char>) -> bool {
    u.dir_name@ == n || (u.name is Some && u.name->Some_0@ == n)
}

/// Some hand-placed package is `n`.
pub open spec fn unlocked_has(us: Seq<UnlockedPackage>, n: Seq<char>) -> bool {
    exists|i: int| 0 <= i < us.len() && #[trigger] unlocked_is(us[i], n)
}

/// A dependency on `d` within `range` needs nothing new: it is being added, placed by
/// hand, or locked at a version the range accepts.
pub open spec fn satisfied(
    m: VpmManifest,
    us: Seq<UnlockedPackage>,
    adding: Seq<Seq<char>>,
    d: Seq<char>,
    range: DependencyRange,
) -> bool {
    ||| adding.contains(d)
    ||| unlocked_has(us, d)
    ||| m.locked_map().contains_key(d) && range.spec_matches(m.locked_map()[d].version)
}

/// The legacy packages that a list of packages declares, in order.
pub open spec fn legacy_of(c: PackageCollection, ps: Seq<PackageInfo>) -> Seq<Seq<char>>
    decreases ps.len(),
{
    if ps.len() == 0 {
        Seq::empty()
    } else {
        legacy_of(c, ps.drop_last()) + names(c.spec_get(ps.last()).legacy_packages@)
    }
}

/// The locked package `e`, not itself replaced, has a dependency on package `p`
/// whose range does not accept `p`'s version.
pub open spec fn rejects(
    c: PackageCollection,
    adding: Seq<Seq<char>>,
    e: (String, crate::manifest::LockedPackage),
    p: PackageInfo,
) -> bool {
    &&& !adding.contains(e.0@)
    &&& exists|j: int|
        0 <= j < e.1.dependencies@.len() && #[trigger] e.1.dependencies@[j].0@ == c.spec_get(p).name@
            && !e.1.dependencies@[j].1.spec_matches(c.spec_get(p).version)
}

/// Names of the locked packages that reject `p`, in lockfile order.
pub open spec fn rejecting(c: PackageCollection, m: VpmManifest, adding: Seq<Seq<char>>, p: PackageInfo) -> Seq<
    Seq<char>,
> {
    m.locked@.filter(|e: (String, crate::manifest::LockedPackage)| rejects(c, adding, e, p)).map_values(
        |e: (String, crate::manifest::LockedPackage)| e.0@,
    )
}

/// The conflicts of a list of new packages: each one that some locked package rejects.
pub open spec fn conflicts_of(
    c: PackageCollection,
    m: VpmManifest,
    adding: Seq<Seq<char>>,
    ps: Seq<PackageInfo>,
) -> Seq<(Seq<char>, Seq<Seq<char>>)>
    decreases ps.len(),
{
    if ps.len() == 0 {
        Seq::empty()
    } else {
        let rest = conflicts_of(c, m, adding, ps.drop_last());
        let r = rejecting(c, m, adding, ps.last());
        if r.len() == 0 {
            rest
        } else {
            rest.push((c.spec_get(ps.last()).name@, r))
        }
    }
}

pub open spec fn conflicts_view(s: Seq<(String, Vec<String>)>) -> Seq<(Seq<char>, Seq<Seq<char>>)> {
    s.map_values(|e: (String, Vec<String>)| (e.0@, names(e.1@)))
}

/// Index of the package named `name` among `ps`.
fn find_pkg(c: &PackageCollection, ps: &Vec<PackageInfo>, name: &String) -> (r: Option<usize>)
    requires
        forall|k: int| 0 <= k < ps@.len() ==> c.valid(#[trigger] ps@[k]),
    ensures
        match r {
            Some(i) => i < ps@.len() && pkg_names(*c, ps@)[i as int] == name@,
            None => !pkg_names(*c, ps@).contains(name@),
        },
{
    let mut i: usize = 0;
    while i < ps.len()
        invariant
            i <= ps@.len(),
            forall|k: int| 0 <= k < ps@.len() ==> c.valid(#[trigger] ps@[k]),
            forall|k: int| 0 <= k < i ==> pkg_names(*c, ps@)[k] != name@,
        decreases ps@.len() - i,
    {
        if c.get(ps[i]).name == *name {
            return Some(i);
        }
        i += 1;
    }
    None
}

pub(crate) fn unlocked_contains(us: &Vec<UnlockedPackage>, name: &String) -> (r: bool)
    ensures
        r == unlocked_has(us@, name@),
{
    let mut i: usize = 0;
    while i < us.len()
        invariant
            i <= us@.len(),
            forall|k: int| 0 <= k < i ==> !#[trigger] unlocked_is(us@[k], name@),
        decreases us@.len() - i,
    {
        if us[i].dir_name == *name {
            assert(unlocked_is(us@[i as int], name@));
            return true;
        }
        let u = &us[i];
        match &u.name {
            Some(n) => {
                if *n == *name {
                    assert(unlocked_is(us@[i as int], name@));
                    return true;
                }
            },
            None => {},
        }
        assert(!unlocked_is(us@[i as int], name@));
        i += 1;
    }
    assert(!unlocked_has(us@, name@));
    false
}

/// The collection has no package for `name` within `range`.
pub open spec fn no_candidate(c: PackageCollection, name: Seq<char>, range: DependencyRange, allow_prerelease: bool) -> bool {
    forall|i: int| !#[trigger] c.is_candidate(i, name, range, allow_prerelease)
}

/// Some package of the collection depends on `n` within `range`; nothing meets that
/// dependency (no hand-placed package, no locked version in range) and the
/// collection has no candidate for it.
pub open spec fn unresolvable(
    c: PackageCollection,
    m: VpmManifest,
    us: Seq<UnlockedPackage>,
    n: Seq<char>,
    range: DependencyRange,
    allow_prerelease: bool,
) -> bool {
    &&& exists|i: int, j: int|
        0 <= i < c.packages@.len() && 0 <= j < c.packages@[i].vpm_dependencies@.len()
            && #[trigger] c.packages@[i].vpm_dependencies@[j] == (
            c.packages@[i].vpm_dependencies@[j].0,
            range,
        ) && c.packages@[i].vpm_dependencies@[j].0@ == n
    &&& !unlocked_has(us, n)
    &&& !(m.locked_map().contains_key(n) && range.spec_matches(m.locked_map()[n].version))
    &&& no_candidate(c, n, range, allow_prerelease)
}

/// Every dependency that any package of the collection declares can be met.
pub open spec fn resolvable(c: PackageCollection, m: VpmManifest, us: Seq<UnlockedPackage>, allow_prerelease: bool) -> bool {
    forall|n: Seq<char>, range: DependencyRange| !#[trigger] unresolvable(c, m, us, n, range, allow_prerelease)
}

/// `p` is the newest candidate for the dependency `dep`, which nothing else meets:
/// no hand-placed package and no locked version in range.
pub open spec fn newest_for(
    c: PackageCollection,
    m: VpmManifest,
    us: Seq<UnlockedPackage>,
    p: PackageInfo,
    dep: (String, DependencyRange),
    allow_prerelease: bool,
) -> bool {
    &&& c.is_candidate(p.index as int, dep.0@, dep.1, allow_prerelease)
    &&& forall|x: int| #[trigger] c.is_candidate(x, dep.0@, dep.1, allow_prerelease) ==> crate::version::version_le(
        c.packages@[x].version,
        c.spec_get(p).version,
    )
    &&& !unlocked_has(us, dep.0@)
    &&& !(m.locked_map().contains_key(dep.0@) && dep.1.spec_matches(m.locked_map()[dep.0@].version))
}

/// The `i`-th package of `ps` was pulled in for a dependency of an earlier one.
pub open spec fn pulled_in(
    c: PackageCollection,
    m: VpmManifest,
    us: Seq<UnlockedPackage>,
    ps: Seq<PackageInfo>,
    i: int,
    allow_prerelease: bool,
) -> bool {
    exists|k: int, j: int|
        0 <= k < i && 0 <= j < c.spec_get(ps[k]).vpm_dependencies@.len() && #[trigger] newest_for(
            c,
            m,
            us,
            ps[i],
            dep_at(c, ps, k, j),
            allow_prerelease,
        )
}

/// Every package of a list is a package of the collection.
pub open spec fn all_valid(c: PackageCollection, ps: Seq<PackageInfo>) -> bool {
    forall|k: int| 0 <= k < ps.len() ==> c.valid(#[trigger] ps[k])
}

proof fn lemma_names_bound(c: PackageCollection, ps: Seq<PackageInfo>)
    requires
        all_valid(c, ps),
        pkg_names(c, ps).no_duplicates(),
    ensures
        ps.len() <= c.packages@.len(),
{
    let idx = ps.map_values(|p: PackageInfo| p.index as int);
    assert(idx.no_duplicates()) by {
        assert forall|a: int, b: int| 0 <= a < idx.len() && 0 <= b < idx.len() && a != b implies idx[a] != idx[b] by {
            if idx[a] == idx[b] {
                assert(pkg_names(c, ps)[a] == pkg_names(c, ps)[b]);
            }
        }
    }
    idx.unique_seq_to_set();
    vstd::set_lib::lemma_int_range(0, c.packages@.len() as int);
    assert(idx.to_set().subset_of(vstd::set_lib::set_int_range(0, c.packages@.len() as int)));
    vstd::set_lib::lemma_len_subset(idx.to_set(), vstd::set_lib::set_int_range(0, c.packages@.len() as int));
}

proof fn lemma_pkg_names_push(c: PackageCollection, ps: Seq<PackageInfo>, p: PackageInfo)
    ensures
        pkg_names(c, ps.push(p)) == pkg_names(c, ps).push(c.spec_get(p).name@),
        forall|x: Seq<char>| pkg_names(c, ps).contains(x) ==> #[trigger] pkg_names(c, ps.push(p)).contains(x),
{
    assert(pkg_names(c, ps.push(p)) =~= pkg_names(c, ps).push(c.spec_get(p).name@));
    assert forall|x: Seq<char>| pkg_names(c, ps).contains(x) implies #[trigger] pkg_names(c, ps.push(p)).contains(x) by {
        let k = choose|k: int| 0 <= k < pkg_names(c, ps).len() && pkg_names(c, ps)[k] == x;
        assert(pkg_names(c, ps.push(p))[k] == x);
    }
}

/// The dependency `j` of the `k`-th package of `ps`.
pub open spec fn dep_at(c: PackageCollection, ps: Seq<PackageInfo>, k: int, j: int) -> (String, DependencyRange) {
    c.spec_get(ps[k]).vpm_dependencies@[j]
}

/// Finds the packages to install for `requests`: the requests themselves and,
/// transitively, the newest package for every dependency that nothing satisfies yet.
pub fn collect_adding_packages(
    m: &VpmManifest,
    us: &Vec<UnlockedPackage>,
    c: &PackageCollection,
    requests: &Vec<PackageInfo>,
    allow_prerelease: bool,
) -> (r: Result<ResolveResult, AddPackageErr>)
    requires
        m.wf(),
        all_valid(*c, requests@),
        pkg_names(*c, requests@).no_duplicates(),
    ensures
        match r {
            Ok(res) => {
                let adding = pkg_names(*c, res.new_packages@);
                &&& all_valid(*c, res.new_packages@)
                &&& adding.no_duplicates()
                &&& requests@.len() <= res.new_packages@.len()
                &&& res.new_packages@.take(requests@.len() as int) == requests@
                &&& forall|i: int|
                    requests@.len() <= i < res.new_packages@.len() ==> #[trigger] pulled_in(*c, *m, us@, res.new_packages@, i, allow_prerelease)
                &&& forall|k: int, j: int|
                    0 <= k < res.new_packages@.len() && 0 <= j < c.spec_get(res.new_packages@[k]).vpm_dependencies@.len()
                        ==> satisfied(*m, us@, adding, #[trigger] dep_at(*c, res.new_packages@, k, j).0@,
                        dep_at(*c, res.new_packages@, k, j).1)
                &&& names(res.found_legacy_packages@) == legacy_of(*c, res.new_packages@)
                &&& conflicts_view(res.conflicts@) == conflicts_of(*c, *m, adding, res.new_packages@)
            },
            Err(e) => match e {
                AddPackageErr::DependencyNotFound { dependency_name } => exists|range: DependencyRange|
                    #[trigger] unresolvable(*c, *m, us@, dependency_name@, range, allow_prerelease),
                _ => false,
            },
        },
        resolvable(*c, *m, us@, allow_prerelease) ==> r is Ok,
{
    let mut adding: Vec<PackageInfo> = Vec::new();
    let mut i: usize = 0;
    while i < requests.len()
        invariant
            i <= requests@.len(),
            adding@ == requests@.take(i as int),
        decreases requests@.len() - i,
    {
        adding.push(requests[i]);
        proof {
            assert(requests@.take(i + 1) =~= requests@.take(i as int).push(requests@[i as int]));
        }
        i += 1;
    }
    proof {
        assert(requests@.take(requests@.len() as int) =~= requests@);
        assert(pkg_names(*c, adding@) == pkg_names(*c, requests@));
    }
    let mut i: usize = 0;
    while i < adding.len()
        invariant
            i <= adding@.len(),
            m.wf(),
            all_valid(*c, adding@),
            pkg_names(*c, adding@).no_duplicates(),
            requests@.len() <= adding@.len(),
            adding@.take(requests@.len() as int) == requests@,
            forall|x: int| requests@.len() <= x < adding@.len() ==> #[trigger] pulled_in(*c, *m, us@, adding@, x, allow_prerelease),
            i <= adding@.len(),
            forall|k: int, j: int|
                0 <= k < i && 0 <= j < c.spec_get(adding@[k]).vpm_dependencies@.len()
                    ==> satisfied(*m, us@, pkg_names(*c, adding@), #[trigger] dep_at(*c, adding@, k, j).0@,
                    dep_at(*c, adding@, k, j).1),
        decreases c.packages@.len() + 1 - i,
    {
        proof {
            lemma_names_bound(*c, adding@);
        }
        let p = adding[i];
        let deps = &c.get(p).vpm_dependencies;
        let mut j: usize = 0;
        while j < deps.len()
            invariant
                i < adding@.len(),
                adding@[i as int] == p,
                *deps == c.spec_get(p).vpm_dependencies,
                j <= deps@.len(),
                m.wf(),
                all_valid(*c, adding@),
                pkg_names(*c, adding@).no_duplicates(),
                requests@.len() <= adding@.len(),
                adding@.take(requests@.len() as int) == requests@,
                forall|x: int| requests@.len() <= x < adding@.len() ==> #[trigger] pulled_in(*c, *m, us@, adding@, x, allow_prerelease),
                forall|k: int, jj: int|
                    0 <= k < i && 0 <= jj < c.spec_get(adding@[k]).vpm_dependencies@.len()
                        ==> satisfied(*m, us@, pkg_names(*c, adding@), #[trigger] dep_at(*c, adding@, k, jj).0@,
                        dep_at(*c, adding@, k, jj).1),
                forall|jj: int|
                    0 <= jj < j ==> satisfied(*m, us@, pkg_names(*c, adding@), #[trigger] deps@[jj].0@, deps@[jj].1),
            decreases deps@.len() - j,
        {
            let name = &deps[j].0;
            let range = &deps[j].1;
            let done = match find_pkg(c, &adding, name) {
                Some(_) => true,
                None => if unlocked_contains(us, name) {
                    true
                } else {
                    match m.get_locked(name) {
                        Some(l) => range.matches(&l.version),
                        None => false,
                    }
                },
            };
            if !done {
                match c.find_latest(name, range, allow_prerelease) {
                    Some(q) => {
                        let ghost before = adding@;
                        proof {
                            lemma_pkg_names_push(*c, before, q);
                        }
                        adding.push(q);
                        proof {
                            assert forall|x: int| requests@.len() <= x < adding@.len() implies #[trigger] pulled_in(*c, *m, us@, adding@, x, allow_prerelease) by {
                                if x < before.len() {
                                    assert(pulled_in(*c, *m, us@, before, x, allow_prerelease));
                                    let (k, jj) = choose|k: int, jj: int|
                                        0 <= k < x && 0 <= jj < c.spec_get(before[k]).vpm_dependencies@.len() && #[trigger] newest_for(*c, *m, us@, before[x], dep_at(*c, before, k, jj), allow_prerelease);
                                    assert(adding@[k] == before[k] && adding@[x] == before[x]);
                                    assert(dep_at(*c, adding@, k, jj) == dep_at(*c, before, k, jj));
                                } else {
                                    assert(adding@[i as int] == p);
                                    assert(dep_at(*c, adding@, i as int, j as int) == deps@[j as int]);
                                    assert(newest_for(*c, *m, us@, adding@[x], dep_at(*c, adding@, i as int, j as int), allow_prerelease));
                                }
                            }
                            assert(adding@.take(requests@.len() as int) =~= before.take(requests@.len() as int));
                            assert(pkg_names(*c, adding@).no_duplicates()) by {
                                let ns = pkg_names(*c, adding@);
                                assert forall|a: int, b: int| 0 <= a < ns.len() && 0 <= b < ns.len() && a != b implies ns[a] != ns[b] by {
                                    if a == before.len() && b < before.len() {
                                        assert(pkg_names(*c, before)[b] == ns[b]);
                                    }
                                    if b == before.len() && a < before.len() {
                                        assert(pkg_names(*c, before)[a] == ns[a]);
                                    }
                                }
                            }
                            assert(pkg_names(*c, adding@).contains(name@)) by {
                                assert(pkg_names(*c, adding@)[before.len() as int] == name@);
                            }
                            assert forall|k: int, jj: int|
                                0 <= k < i && 0 <= jj < c.spec_get(adding@[k]).vpm_dependencies@.len()
                                    implies satisfied(*m, us@, pkg_names(*c, adding@), #[trigger] dep_at(*c, adding@, k, jj).0@,
                                    dep_at(*c, adding@, k, jj).1) by {
                                assert(adding@[k] == before[k]);
                                assert(satisfied(*m, us@, pkg_names(*c, before), dep_at(*c, before, k, jj).0@, dep_at(*c, before, k, jj).1));
                            }
                            assert forall|jj: int| 0 <= jj < j + 1 implies satisfied(*m, us@, pkg_names(*c, adding@), #[trigger] deps@[jj].0@, deps@[jj].1) by {
                                if jj < j {
                                    assert(satisfied(*m, us@, pkg_names(*c, before), deps@[jj].0@, deps@[jj].1));
                                }
                            }
                        }
                    },
                    None => {
                        let dependency_name = name.clone();
                        let err = AddPackageErr::DependencyNotFound { dependency_name };
                        assert(err->dependency_name@ == name@);
                        proof {
                            let pi = p.index as int;
                            assert(c.packages@[pi].vpm_dependencies@[j as int] == deps@[j as int]);
                            assert(!unlocked_has(us@, name@));
                            assert(unresolvable(*c, *m, us@, err->dependency_name@, *range, allow_prerelease));
                        }
                        assert(exists|rg: DependencyRange| #[trigger] unresolvable(*c, *m, us@, err->dependency_name@, rg, allow_prerelease));
                        return Err(err);
                    },
                }
            }
            j += 1;
        }
        proof {
            assert forall|k: int, jj: int|
                0 <= k < i + 1 && 0 <= jj < c.spec_get(adding@[k]).vpm_dependencies@.len()
                    implies satisfied(*m, us@, pkg_names(*c, adding@), #[trigger] dep_at(*c, adding@, k, jj).0@,
                    dep_at(*c, adding@, k, jj).1) by {
                if k == i {
                    assert(dep_at(*c, adding@, k, jj) == deps@[jj]);
                }
            }
        }
        i += 1;
    }
    let legacy = legacy_packages_of(c, &adding);
    let conflicts = conflicts_for(c, m, &adding);
    Ok(ResolveResult { new_packages: adding, conflicts, found_legacy_packages: legacy })
}

/// The legacy packages that `ps` declare.
fn legacy_packages_of(c: &PackageCollection, ps: &Vec<PackageInfo>) -> (r: Vec<String>)
    requires
        all_valid(*c, ps@),
    ensures
        names(r@) == legacy_of(*c, ps@),
{
    let mut r: Vec<String> = Vec::new();
    let mut i: usize = 0;
    while i < ps.len()
        invariant
            i <= ps@.len(),
            all_valid(*c, ps@),
            names(r@) == legacy_of(*c, ps@.take(i as int)),
        decreases ps@.len() - i,
    {
        extend_names(&mut r, &c.get(ps[i]).legacy_packages);
        proof {
            assert(ps@.take(i + 1).drop_last() =~= ps@.take(i as int));
        }
        i += 1;
    }
    proof {
        assert(ps@.take(ps@.len() as int) =~= ps@);
    }
    r
}

/// Whether the locked dependency list `deps` has an entry on `p` that rejects `p`'s version.
fn rejects_version(deps: &Vec<(String, DependencyRange)>, c: &PackageCollection, p: PackageInfo) -> (r: bool)
    requires
        c.valid(p),
    ensures
        r == exists|j: int|
            0 <= j < deps@.len() && #[trigger] deps@[j].0@ == c.spec_get(p).name@
                && !deps@[j].1.spec_matches(c.spec_get(p).version),
{
    let pkg = c.get(p);
    let mut j: usize = 0;
    while j < deps.len()
        invariant
            j <= deps@.len(),
            *pkg == c.spec_get(p),
            forall|k: int|
                0 <= k < j ==> !(#[trigger] deps@[k].0@ == c.spec_get(p).name@
                    && !deps@[k].1.spec_matches(c.spec_get(p).version)),
        decreases deps@.len() - j,
    {
        if deps[j].0 == pkg.name && !deps[j].1.matches(&pkg.version) {
            return true;
        }
        j += 1;
    }
    false
}

/// Names of the locked packages that reject `p`.
fn rejecting_locked(c: &PackageCollection, m: &VpmManifest, ps: &Vec<PackageInfo>, p: PackageInfo) -> (r: Vec<String>)
    requires
        all_valid(*c, ps@),
        c.valid(p),
    ensures
        names(r@) == rejecting(*c, *m, pkg_names(*c, ps@), p),
{
    let ghost adding = pkg_names(*c, ps@);
    let ghost pred = |e: (String, crate::manifest::LockedPackage)| rejects(*c, adding, e, p);
    let ghost f = |e: (String, crate::manifest::LockedPackage)| e.0@;
    let mut r: Vec<String> = Vec::new();
    let mut i: usize = 0;
    while i < m.locked.len()
        invariant
            i <= m.locked@.len(),
            all_valid(*c, ps@),
            c.valid(p),
            adding == pkg_names(*c, ps@),
            pred == (|e: (String, crate::manifest::LockedPackage)| rejects(*c, adding, e, p)),
            f == (|e: (String, crate::manifest::LockedPackage)| e.0@),
            names(r@) == m.locked@.take(i as int).filter(pred).map_values(f),
        decreases m.locked@.len() - i,
    {
        let e = &m.locked[i];
        let hit = match find_pkg(c, ps, &e.0) {
            Some(_) => false,
            None => rejects_version(&e.1.dependencies, c, p),
        };
        proof {
            assert(m.locked@.take(i + 1) =~= m.locked@.take(i as int).push(*e));
            m.locked@.take(i as int).lemma_filter_push(*e, pred);
            assert(hit == pred(*e));
        }
        if hit {
            let ghost before = r@;
            r.push(e.0.clone());
            proof {
                assert(names(r@) =~= names(before).push(e.0@));
                assert(m.locked@.take(i as int).filter(pred).push(*e).map_values(f)
                    =~= m.locked@.take(i as int).filter(pred).map_values(f).push(f(*e)));
            }
        }
        i += 1;
    }
    proof {
        assert(m.locked@.take(m.locked@.len() as int) =~= m.locked@);
    }
    r
}

/// The conflicts of the new packages `ps` with the locked packages.
fn conflicts_for(c: &PackageCollection, m: &VpmManifest, ps: &Vec<PackageInfo>) -> (r: Vec<(String, Vec<String>)>)
    requires
        all_valid(*c, ps@),
    ensures
        conflicts_view(r@) == conflicts_of(*c, *m, pkg_names(*c, ps@), ps@),
{
    let ghost adding = pkg_names(*c, ps@);
    let mut r: Vec<(String, Vec<String>)> = Vec::new();
    let mut i: usize = 0;
    while i < ps.len()
        invariant
            i <= ps@.len(),
            all_valid(*c, ps@),
            adding == pkg_names(*c, ps@),
            conflicts_view(r@) == conflicts_of(*c, *m, adding, ps@.take(i as int)),
        decreases ps@.len() - i,
    {
        let rej = rejecting_locked(c, m, ps, ps[i]);
        proof {
            assert(ps@.take(i + 1).drop_last() =~= ps@.take(i as int));
        }
        if rej.len() > 0 {
            let ghost before = r@;
            r.push((c.get(ps[i]).name.clone(), rej));
            proof {
                assert(conflicts_view(r@) =~= conflicts_view(before).push((c.spec_get(ps@[i as int]).name@, names(rej@))));
            }
        }
        i += 1;
    }
    proof {
        assert(ps@.take(ps@.len() as int) =~= ps@);
    }
    r
}

} // verus!
