use vstd::prelude::*;
use crate::assoc::{names, has_key, lemma_value_at, contains_name, extend_names, lemma_names_push};
use crate::changes::{Builder, PackageChange, Install, Remove, RemoveReason};
use crate::graph::{graph_rel, reach_set, mark_recursive, lemma_reach_same};
use crate::manifest::VpmManifest;
use crate::package::PackageCollection;
use crate::project::{UnityProject, UnlockedPackage};
use crate::version::DependencyRange;

verus! {

/// `b` is a dependency of the locked package `a`.
pub open spec fn locked_rel(m: VpmManifest) -> spec_fn(Seq<char>, Seq<char>) -> bool {
    |a: Seq<char>, b: Seq<char>|
        m.locked_map().contains_key(a) && has_key(m.locked_map()[a].dependencies@, b)
}

/// Locked names that the plan removes or replaces by a fresh locked install.
pub open spec fn removable_seeds(ch: Map<Seq<char>, PackageChange>, m: VpmManifest) -> Set<Seq<char>> {
    Set::new(
        |n: Seq<char>|
            m.locked_map().contains_key(n) && ch.contains_key(n) && match ch[n] {
                PackageChange::Install(i) => i.add_to_locked,
                PackageChange::Remove(_) => true,
            },
    )
}

/// Locked packages that may be removed: those reached from a removed or replaced one.
pub open spec fn removable_set(ch: Map<Seq<char>, PackageChange>, m: VpmManifest) -> Set<Seq<char>> {
    reach_set(locked_rel(m), removable_seeds(ch, m))
}

/// Dependencies once the plan is applied: a fresh package's own, else the locked ones.
pub open spec fn using_rel(
    ch: Map<Seq<char>, PackageChange>,
    c: PackageCollection,
    m: VpmManifest,
) -> spec_fn(Seq<char>, Seq<char>) -> bool {
    |a: Seq<char>, b: Seq<char>|
        if ch.contains_key(a) && ch[a] is Install && ch[a]->Install_0.package is Some {
            has_key(c.spec_get(ch[a]->Install_0.package->Some_0).vpm_dependencies@, b)
        } else {
            locked_rel(m)(a, b)
        }
}

/// Some hand-placed package depends on `n`.
pub open spec fn unlocked_dependency(us: Seq<UnlockedPackage>, n: Seq<char>) -> bool {
    exists|i: int| 0 <= i < us.len() && #[trigger] names(us[i].vpm_dependencies@).contains(n)
}

/// What must stay: dependencies of hand-placed packages, top-level dependencies
/// not being removed, and everything being installed.
pub open spec fn using_seeds(ch: Map<Seq<char>, PackageChange>, p: UnityProject) -> Set<Seq<char>> {
    Set::new(
        |n: Seq<char>|
            unlocked_dependency(p.unlocked_packages@, n) || (p.manifest.deps_map().contains_key(n) && !(
            ch.contains_key(n) && ch[n] is Remove)) || (ch.contains_key(n) && ch[n] is Install),
    )
}

/// Everything still in use once the plan is applied.
pub open spec fn using_set(
    ch: Map<Seq<char>, PackageChange>,
    c: PackageCollection,
    p: UnityProject,
) -> Set<Seq<char>> {
    reach_set(using_rel(ch, c, p.manifest), using_seeds(ch, p))
}

/// The locked packages that the sweep finds unused.
pub open spec fn unused(ch: Map<Seq<char>, PackageChange>, c: PackageCollection, p: UnityProject, n: Seq<char>) -> bool {
    &&& p.manifest.locked_map().contains_key(n)
    &&& removable_set(ch, p.manifest).contains(n)
    &&& !using_set(ch, c, p).contains(n)
}

/// The plan after the sweep: each unused locked package not yet in the plan is removed as unused.
pub open spec fn swept(ch: Map<Seq<char>, PackageChange>, c: PackageCollection, p: UnityProject) -> Map<
    Seq<char>,
    PackageChange,
> {
    Map::new(
        |n: Seq<char>| ch.contains_key(n) || unused(ch, c, p, n),
        |n: Seq<char>|
            if ch.contains_key(n) {
                ch[n]
            } else {
                PackageChange::Remove(Remove { reason: RemoveReason::Unused })
            },
    )
}

/// Every package that the plan installs is a package of the collection.
pub open spec fn packages_valid(ch: Map<Seq<char>, PackageChange>, c: PackageCollection) -> bool {
    forall|n: Seq<char>|
        #[trigger] ch.contains_key(n) && ch[n] is Install && ch[n]->Install_0.package is Some ==> c.valid(
            ch[n]->Install_0.package->Some_0,
        )
}

/// The names of a dependency list.
fn dep_keys(deps: &Vec<(String, DependencyRange)>) -> (r: Vec<String>)
    ensures
        forall|b: Seq<char>| #[trigger] names(r@).contains(b) == has_key(deps@, b),
{
    let mut r: Vec<String> = Vec::new();
    let mut i: usize = 0;
    while i < deps.len()
        invariant
            i <= deps@.len(),
            r@.len() == i,
            forall|k: int| 0 <= k < i ==> #[trigger] r@[k]@ == deps@[k].0@,
        decreases deps@.len() - i,
    {
        r.push(deps[i].0.clone());
        i += 1;
    }
    assert forall|b: Seq<char>| #[trigger] names(r@).contains(b) == has_key(deps@, b) by {
        if names(r@).contains(b) {
            let k = choose|k: int| 0 <= k < names(r@).len() && names(r@)[k] == b;
            assert(deps@[k].0@ == b);
        }
        if has_key(deps@, b) {
            let k = choose|k: int| 0 <= k < deps@.len() && deps@[k].0@ == b;
            assert(names(r@)[k] == b);
        }
    }
    r
}

/// The graph of the locked packages and their dependencies.
fn locked_graph(m: &VpmManifest) -> (g: Vec<(String, Vec<String>)>)
    requires
        m.wf(),
    ensures
        forall|a: Seq<char>, b: Seq<char>| #[trigger] graph_rel(g@)(a, b) == locked_rel(*m)(a, b),
{
    let mut g: Vec<(String, Vec<String>)> = Vec::new();
    let mut i: usize = 0;
    while i < m.locked.len()
        invariant
            i <= m.locked@.len(),
            g@.len() == i,
            forall|k: int| 0 <= k < i ==> #[trigger] g@[k].0@ == m.locked@[k].0@,
            forall|k: int, b: Seq<char>|
                0 <= k < i ==> #[trigger] names(g@[k].1@).contains(b) == has_key(
                    m.locked@[k].1.dependencies@,
                    b,
                ),
        decreases m.locked@.len() - i,
    {
        let keys = dep_keys(&m.locked[i].1.dependencies);
        g.push((m.locked[i].0.clone(), keys));
        i += 1;
    }
    assert forall|a: Seq<char>, b: Seq<char>| #[trigger] graph_rel(g@)(a, b) == locked_rel(*m)(a, b) by {
        if graph_rel(g@)(a, b) {
            let (k, j) = choose|k: int, j: int|
                0 <= k < g@.len() && 0 <= j < g@[k].1@.len() && #[trigger] g@[k].0@ == a
                    && #[trigger] g@[k].1@[j]@ == b;
            assert(names(g@[k].1@)[j] == b);
            assert(names(g@[k].1@).contains(b));
            assert(g@[k].0@ == m.locked@[k].0@);
            lemma_value_at(m.locked@, k);
            assert(locked_rel(*m)(a, b));
        }
        if locked_rel(*m)(a, b) {
            let k = choose|k: int| 0 <= k < m.locked@.len() && #[trigger] m.locked@[k].0@ == a;
            lemma_value_at(m.locked@, k);
            assert(names(g@[k].1@).contains(b));
            let j = choose|j: int| 0 <= j < names(g@[k].1@).len() && names(g@[k].1@)[j] == b;
            assert(g@[k].1@[j]@ == b);
            assert(g@[k].0@ == a);
            assert(crate::graph::edge(g@, a, b));
        }
    }
    g
}

/// The name `a` is installed from a package of the collection.
pub open spec fn fresh_install(ch: Map<Seq<char>, PackageChange>, a: Seq<char>) -> bool {
    ch.contains_key(a) && ch[a] is Install && ch[a]->Install_0.package is Some
}

/// The graph of the project once the plan is applied.
fn using_graph(b: &Builder, c: &PackageCollection, m: &VpmManifest) -> (g: Vec<(String, Vec<String>)>)
    requires
        b.wf(),
        m.wf(),
        packages_valid(b.changes(), *c),
    ensures
        forall|x: Seq<char>, y: Seq<char>| #[trigger] graph_rel(g@)(x, y) == using_rel(b.changes(), *c, *m)(x, y),
{
    let ghost ch = b.changes();
    let ghost pc = b.package_changes@;
    let mut g: Vec<(String, Vec<String>)> = Vec::new();
    let mut i: usize = 0;
    while i < b.package_changes.len()
        invariant
            i <= pc.len(),
            pc == b.package_changes@,
            ch == b.changes(),
            b.wf(),
            packages_valid(ch, *c),
            forall|x: Seq<char>, y: Seq<char>|
                #[trigger] graph_rel(g@)(x, y) == exists|k: int|
                    0 <= k < i && #[trigger] pc[k].0@ == x && pc[k].1 is Install && pc[k].1->Install_0.package is Some
                        && has_key(c.spec_get(pc[k].1->Install_0.package->Some_0).vpm_dependencies@, y),
        decreases pc.len() - i,
    {
        match b.package_changes[i].1 {
            PackageChange::Install(Install { package: Some(p), .. }) => {
                proof {
                    lemma_value_at(pc, i as int);
                    assert(ch.contains_key(pc[i as int].0@));
                }
                let keys = dep_keys(&c.get(p).vpm_dependencies);
                let e = (b.package_changes[i].0.clone(), keys);
                proof {
                    crate::graph::lemma_edge_push(g@, e);
                }
                g.push(e);
            },
            _ => {},
        }
        i += 1;
    }
    let ghost g1 = g@;
    let mut i: usize = 0;
    while i < m.locked.len()
        invariant
            i <= m.locked@.len(),
            m.wf(),
            ch == b.changes(),
            b.wf(),
            forall|x: Seq<char>, y: Seq<char>|
                #[trigger] graph_rel(g@)(x, y) == (graph_rel(g1)(x, y) || exists|k: int|
                    0 <= k < i && #[trigger] m.locked@[k].0@ == x && !fresh_install(ch, x)
                        && has_key(m.locked@[k].1.dependencies@, y)),
        decreases m.locked@.len() - i,
    {
        let is_fresh = match b.get_change(&m.locked[i].0) {
            Some(PackageChange::Install(Install { package: Some(_), .. })) => true,
            _ => false,
        };
        if !is_fresh {
            let keys = dep_keys(&m.locked[i].1.dependencies);
            let e = (m.locked[i].0.clone(), keys);
            proof {
                crate::graph::lemma_edge_push(g@, e);
            }
            g.push(e);
        }
        i += 1;
    }
    assert forall|x: Seq<char>, y: Seq<char>| #[trigger] graph_rel(g@)(x, y) == using_rel(ch, *c, *m)(x, y) by {
        if fresh_install(ch, x) {
            let k = choose|k: int| 0 <= k < pc.len() && #[trigger] pc[k].0@ == x;
            lemma_value_at(pc, k);
            if graph_rel(g1)(x, y) {
                let k2 = choose|k2: int|
                    0 <= k2 < pc.len() && #[trigger] pc[k2].0@ == x && pc[k2].1 is Install && pc[k2].1->Install_0.package is Some
                        && has_key(c.spec_get(pc[k2].1->Install_0.package->Some_0).vpm_dependencies@, y);
                lemma_value_at(pc, k2);
            }
        } else {
            if graph_rel(g1)(x, y) {
                let k2 = choose|k2: int|
                    0 <= k2 < pc.len() && #[trigger] pc[k2].0@ == x && pc[k2].1 is Install && pc[k2].1->Install_0.package is Some
                        && has_key(c.spec_get(pc[k2].1->Install_0.package->Some_0).vpm_dependencies@, y);
                lemma_value_at(pc, k2);
                assert(false);
            }
            if locked_rel(*m)(x, y) {
                let k = choose|k: int| 0 <= k < m.locked@.len() && #[trigger] m.locked@[k].0@ == x;
                lemma_value_at(m.locked@, k);
            }
            if graph_rel(g@)(x, y) {
                let k = choose|k: int|
                    0 <= k < m.locked@.len() && #[trigger] m.locked@[k].0@ == x && !fresh_install(ch, x)
                        && has_key(m.locked@[k].1.dependencies@, y);
                lemma_value_at(m.locked@, k);
            }
        }
    }
    g
}

/// Locked names that the plan removes or replaces.
fn collect_removable_seeds(b: &Builder, m: &VpmManifest) -> (r: Vec<String>)
    requires
        b.wf(),
        m.wf(),
    ensures
        names(r@).to_set() == removable_seeds(b.changes(), *m),
{
    let ghost pc = b.package_changes@;
    let mut r: Vec<String> = Vec::new();
    let mut i: usize = 0;
    while i < b.package_changes.len()
        invariant
            i <= pc.len(),
            pc == b.package_changes@,
            m.wf(),
            forall|n: Seq<char>|
                #[trigger] names(r@).contains(n) == exists|k: int|
                    0 <= k < i && #[trigger] pc[k].0@ == n && m.locked_map().contains_key(n) && match pc[k].1 {
                        PackageChange::Install(x) => x.add_to_locked,
                        PackageChange::Remove(_) => true,
                    },
        decreases pc.len() - i,
    {
        let seed = match b.package_changes[i].1 {
            PackageChange::Install(x) => x.add_to_locked,
            PackageChange::Remove(_) => true,
        };
        if seed && m.get_locked(&b.package_changes[i].0).is_some() {
            let name = b.package_changes[i].0.clone();
            proof {
                lemma_names_push(r@, name);
            }
            r.push(name);
        }
        i += 1;
    }
    assert forall|n: Seq<char>| #[trigger] names(r@).to_set().contains(n) == removable_seeds(b.changes(), *m).contains(n) by {
        if names(r@).contains(n) {
            let k = choose|k: int|
                0 <= k < pc.len() && #[trigger] pc[k].0@ == n && m.locked_map().contains_key(n) && match pc[k].1 {
                    PackageChange::Install(x) => x.add_to_locked,
                    PackageChange::Remove(_) => true,
                };
            lemma_value_at(pc, k);
        }
        if removable_seeds(b.changes(), *m).contains(n) {
            let k = choose|k: int| 0 <= k < pc.len() && #[trigger] pc[k].0@ == n;
            lemma_value_at(pc, k);
        }
    }
    assert(names(r@).to_set() =~= removable_seeds(b.changes(), *m));
    r
}

/// Names that must stay once the plan is applied.
fn collect_using_seeds(b: &Builder, p: &UnityProject) -> (r: Vec<String>)
    requires
        b.wf(),
        p.manifest.wf(),
    ensures
        names(r@).to_set() == using_seeds(b.changes(), *p),
{
    let ghost ch = b.changes();
    let ghost us = p.unlocked_packages@;
    let mut r: Vec<String> = Vec::new();
    let mut i: usize = 0;
    while i < p.unlocked_packages.len()
        invariant
            i <= us.len(),
            us == p.unlocked_packages@,
            forall|n: Seq<char>|
                #[trigger] names(r@).contains(n) == exists|k: int|
                    0 <= k < i && #[trigger] names(us[k].vpm_dependencies@).contains(n),
        decreases us.len() - i,
    {
        let ghost before = r@;
        extend_names(&mut r, &p.unlocked_packages[i].vpm_dependencies);
        proof {
            let d = names(us[i as int].vpm_dependencies@);
            assert forall|n: Seq<char>| #[trigger] names(r@).contains(n) == (names(before).contains(n) || d.contains(n)) by {
                if names(r@).contains(n) {
                    let k = choose|k: int| 0 <= k < names(r@).len() && names(r@)[k] == n;
                    if k < names(before).len() {
                        assert(names(before)[k] == n);
                    } else {
                        assert(d[k - names(before).len()] == n);
                    }
                }
                if names(before).contains(n) {
                    let k = choose|k: int| 0 <= k < names(before).len() && names(before)[k] == n;
                    assert(names(r@)[k] == n);
                }
                if d.contains(n) {
                    let k = choose|k: int| 0 <= k < d.len() && d[k] == n;
                    assert(names(r@)[k + names(before).len()] == n);
                }
            }
        }
        i += 1;
    }
    let ghost r1 = r@;
    let ghost ds = p.manifest.dependencies@;
    let mut i: usize = 0;
    while i < p.manifest.dependencies.len()
        invariant
            i <= ds.len(),
            ds == p.manifest.dependencies@,
            b.wf(),
            ch == b.changes(),
            forall|n: Seq<char>|
                #[trigger] names(r@).contains(n) == (names(r1).contains(n) || exists|k: int|
                    0 <= k < i && #[trigger] ds[k].0@ == n && !(ch.contains_key(n) && ch[n] is Remove)),
        decreases ds.len() - i,
    {
        let removed = match b.get_change(&p.manifest.dependencies[i].0) {
            Some(PackageChange::Remove(_)) => true,
            _ => false,
        };
        if !removed {
            let name = p.manifest.dependencies[i].0.clone();
            proof {
                lemma_names_push(r@, name);
            }
            r.push(name);
        }
        i += 1;
    }
    let ghost r2 = r@;
    let ghost pc = b.package_changes@;
    let mut i: usize = 0;
    while i < b.package_changes.len()
        invariant
            i <= pc.len(),
            pc == b.package_changes@,
            forall|n: Seq<char>|
                #[trigger] names(r@).contains(n) == (names(r2).contains(n) || exists|k: int|
                    0 <= k < i && #[trigger] pc[k].0@ == n && pc[k].1 is Install),
        decreases pc.len() - i,
    {
        if let PackageChange::Install(_) = b.package_changes[i].1 {
            let name = b.package_changes[i].0.clone();
            proof {
                lemma_names_push(r@, name);
            }
            r.push(name);
        }
        i += 1;
    }
    assert forall|n: Seq<char>| #[trigger] names(r@).to_set().contains(n) == using_seeds(ch, *p).contains(n) by {
        if p.manifest.deps_map().contains_key(n) {
            let k = choose|k: int| 0 <= k < ds.len() && #[trigger] ds[k].0@ == n;
        }
        if ch.contains_key(n) {
            let k = choose|k: int| 0 <= k < pc.len() && #[trigger] pc[k].0@ == n;
            lemma_value_at(pc, k);
        }
        if exists|k: int| 0 <= k < pc.len() && #[trigger] pc[k].0@ == n && pc[k].1 is Install {
            let k = choose|k: int| 0 <= k < pc.len() && #[trigger] pc[k].0@ == n && pc[k].1 is Install;
            lemma_value_at(pc, k);
        }
        if unlocked_dependency(us, n) {
            let k = choose|k: int| 0 <= k < us.len() && #[trigger] names(us[k].vpm_dependencies@).contains(n);
        }
    }
    assert(names(r@).to_set() =~= using_seeds(ch, *p));
    r
}

impl Builder {
    /// Removes, as unused, every locked package that a removed or replaced
    /// package led to and that nothing staying in the project still needs.
    pub fn mark_and_sweep_packages(&mut self, p: &UnityProject, c: &PackageCollection)
        requires
            old(self).wf(),
            p.manifest.wf(),
            packages_valid(old(self).changes(), *c),
        ensures
            final(self).wf(),
            final(self).changes() == swept(old(self).changes(), *c, *p),
            final(self).conflict_map() == old(self).conflict_map(),
    {
        let ghost ch = self.changes();
        let ghost m = p.manifest;
        let seeds = collect_removable_seeds(self, &p.manifest);
        let lg = locked_graph(&p.manifest);
        let removable = mark_recursive(&lg, &seeds);
        proof {
            lemma_reach_same(graph_rel(lg@), locked_rel(m), removable_seeds(ch, m));
        }
        if removable.len() == 0 {
            proof {
                assert forall|n: Seq<char>| !removable_set(ch, m).contains(n) by {
                    if removable_set(ch, m).contains(n) {
                        assert(names(removable@).to_set().contains(n));
                    }
                }
                assert(swept(ch, *c, *p) =~= ch);
            }
            return;
        }
        let useeds = collect_using_seeds(self, p);
        let ug = using_graph(self, c, &p.manifest);
        let using = mark_recursive(&ug, &useeds);
        proof {
            lemma_reach_same(graph_rel(ug@), using_rel(ch, *c, m), using_seeds(ch, *p));
        }
        let ghost lk = m.locked@;
        let mut i: usize = 0;
        while i < p.manifest.locked.len()
            invariant
                i <= lk.len(),
                lk == p.manifest.locked@,
                m == p.manifest,
                m.wf(),
                self.wf(),
                self.conflict_map() == old(self).conflict_map(),
                ch == old(self).changes(),
                names(removable@).to_set() == removable_set(ch, m),
                names(using@).to_set() == using_set(ch, *c, *p),
                self.changes() == Map::new(
                    |n: Seq<char>| ch.contains_key(n) || (unused(ch, *c, *p, n) && exists|k: int| 0 <= k < i && #[trigger] lk[k].0@ == n),
                    |n: Seq<char>| if ch.contains_key(n) { ch[n] } else { PackageChange::Remove(Remove { reason: RemoveReason::Unused }) },
                ),
            decreases lk.len() - i,
        {
            let name = &p.manifest.locked[i].0;
            let ghost n = name@;
            if !contains_name(&using, name) && contains_name(&removable, name) {
                proof {
                    lemma_value_at(lk, i as int);
                    assert(names(using@).to_set().contains(n) == names(using@).contains(n));
                    assert(!using_set(ch, *c, *p).contains(n));
                    assert(!(ch.contains_key(n) && ch[n] is Install)) by {
                        if ch.contains_key(n) && ch[n] is Install {
                            assert(using_seeds(ch, *p).contains(n));
                            assert(crate::graph::reachable(using_rel(ch, *c, m), using_seeds(ch, *p), n));
                        }
                    }
                }
                let ghost before = self.changes();
                self.remove_unused(name.clone());
                proof {
                    assert(self.changes() =~= Map::new(
                        |x: Seq<char>| ch.contains_key(x) || (unused(ch, *c, *p, x) && exists|k: int| 0 <= k < i + 1 && #[trigger] lk[k].0@ == x),
                        |x: Seq<char>| if ch.contains_key(x) { ch[x] } else { PackageChange::Remove(Remove { reason: RemoveReason::Unused }) },
                    ));
                }
            } else {
                proof {
                    lemma_value_at(lk, i as int);
                    assert(names(using@).to_set().contains(n) == names(using@).contains(n));
                    assert(names(removable@).to_set().contains(n) == names(removable@).contains(n));
                    assert(self.changes() =~= Map::new(
                        |x: Seq<char>| ch.contains_key(x) || (unused(ch, *c, *p, x) && exists|k: int| 0 <= k < i + 1 && #[trigger] lk[k].0@ == x),
                        |x: Seq<char>| if ch.contains_key(x) { ch[x] } else { PackageChange::Remove(Remove { reason: RemoveReason::Unused }) },
                    ));
                }
            }
            i += 1;
        }
        proof {
            assert forall|n: Seq<char>| unused(ch, *c, *p, n) implies exists|k: int| 0 <= k < lk.len() && #[trigger] lk[k].0@ == n by {
                let k = choose|k: int| 0 <= k < lk.len() && #[trigger] lk[k].0@ == n;
            }
            assert(self.changes() =~= swept(ch, *c, *p));
        }
    }
}

/// The sweep keeps every decision already in the plan, and removes a locked package
/// as unused only when a removed or replaced locked package leads to it and it is
/// unreachable from what stays: the dependencies of hand-placed packages, the
/// top-level dependencies not being removed, and the packages being installed,
/// following fresh packages' own dependencies and locked ones otherwise.
pub proof fn lemma_sweep_removes_only_unreachable(
    ch: Map<Seq<char>, PackageChange>,
    c: PackageCollection,
    p: UnityProject,
    n: Seq<char>,
)
    ensures
        ch.contains_key(n) ==> swept(ch, c, p).contains_key(n) && swept(ch, c, p)[n] == ch[n],
        swept(ch, c, p).contains_key(n) && !ch.contains_key(n) ==> {
            &&& swept(ch, c, p)[n] == PackageChange::Remove(Remove { reason: RemoveReason::Unused })
            &&& p.manifest.locked_map().contains_key(n)
            &&& crate::graph::reachable(locked_rel(p.manifest), removable_seeds(ch, p.manifest), n)
            &&& !crate::graph::reachable(using_rel(ch, c, p.manifest), using_seeds(ch, p), n)
        },
{
}

} // verus!
