use vstd::prelude::*;
use crate::assoc::{names, contains_name, clone_names};

verus! {

/// `b` is a dependency of `a` in the graph: some node named `a` lists `b`.
pub open spec fn edge(g: Seq<(String, Vec<String>)>, a: Seq<char>, b: Seq<char>) -> bool {
    exists|i: int, j: int|
        0 <= i < g.len() && 0 <= j < g[i].1@.len() && #[trigger] g[i].0@ == a && #[trigger] g[i].1@[j]@
            == b
}

/// The graph's dependency relation.
pub open spec fn graph_rel(g: Seq<(String, Vec<String>)>) -> spec_fn(Seq<char>, Seq<char>) -> bool {
    |a: Seq<char>, b: Seq<char>| edge(g, a, b)
}

/// `s` holds every successor under `rel` of every name it holds.
pub open spec fn is_closed(rel: spec_fn(Seq<char>, Seq<char>) -> bool, s: Set<Seq<char>>) -> bool {
    forall|a: Seq<char>, b: Seq<char>| s.contains(a) && #[trigger] rel(a, b) ==> s.contains(b)
}

/// `x` is reachable from `seeds` under `rel`: every closed set holding the seeds holds `x`.
pub open spec fn reachable(
    rel: spec_fn(Seq<char>, Seq<char>) -> bool,
    seeds: Set<Seq<char>>,
    x: Seq<char>,
) -> bool {
    forall|s: Set<Seq<char>>| #[trigger] is_closed(rel, s) && seeds.subset_of(s) ==> s.contains(x)
}

/// Everything reachable from `seeds` under `rel`.
pub open spec fn reach_set(
    rel: spec_fn(Seq<char>, Seq<char>) -> bool,
    seeds: Set<Seq<char>>,
) -> Set<Seq<char>> {
    Set::new(|x: Seq<char>| reachable(rel, seeds, x))
}

pub open spec fn count_false(s: Seq<bool>) -> nat
    decreases s.len(),
{
    if s.len() == 0 {
        0
    } else {
        count_false(s.drop_last()) + if s.last() {
            0nat
        } else {
            1nat
        }
    }
}

proof fn lemma_count_false_set(s: Seq<bool>, i: int)
    requires
        0 <= i < s.len(),
        !s[i],
    ensures
        count_false(s.update(i, true)) + 1 == count_false(s),
    decreases s.len(),
{
    let t = s.update(i, true);
    if i == s.len() - 1 {
        assert(t.drop_last() =~= s.drop_last());
    } else {
        assert(t.drop_last() =~= s.drop_last().update(i, true));
        lemma_count_false_set(s.drop_last(), i);
    }
}

/// Marks every name reachable from `seeds` along the graph's dependency edges.
pub fn mark_recursive(g: &Vec<(String, Vec<String>)>, seeds: &Vec<String>) -> (r: Vec<String>)
    ensures
        names(r@).to_set() == reach_set(graph_rel(g@), names(seeds@).to_set()),
{
    let ghost sd = names(seeds@).to_set();
    let ghost rel = graph_rel(g@);
    let mut marked = clone_names(seeds);
    let n = g.len();
    let mut expanded: Vec<bool> = Vec::new();
    while expanded.len() < n
        invariant
            expanded@.len() <= n,
            forall|k: int| 0 <= k < expanded@.len() ==> !expanded@[k],
        decreases n - expanded@.len(),
    {
        expanded.push(false);
    }
    proof {
        assert forall|x: Seq<char>| #[trigger] names(marked@).contains(x) implies reachable(rel, sd, x) by {
            assert(sd.contains(x));
        }
    }
    let mut changed = true;
    while changed
        invariant
            n == g@.len(),
            rel == graph_rel(g@),
            expanded@.len() == n,
            sd == names(seeds@).to_set(),
            forall|x: Seq<char>| sd.contains(x) ==> #[trigger] names(marked@).contains(x),
            forall|x: Seq<char>| #[trigger] names(marked@).contains(x) ==> reachable(rel, sd, x),
            forall|k: int, j: int|
                0 <= k < n && expanded@[k] && 0 <= j < g@[k].1@.len() ==> #[trigger] names(
                    marked@,
                ).contains(g@[k].1@[j]@),
            forall|k: int| 0 <= k < n && #[trigger] expanded@[k] ==> names(marked@).contains(g@[k].0@),
            !changed ==> forall|k: int|
                0 <= k < n && #[trigger] names(marked@).contains(g@[k].0@) ==> expanded@[k],
        decreases count_false(expanded@) * 2 + if changed {
            1nat
        } else {
            0nat
        },
    {
        changed = false;
        let ghost c0 = count_false(expanded@);
        let ghost m0 = marked@;
        let mut i: usize = 0;
        while i < n
            invariant
                n == g@.len(),
                rel == graph_rel(g@),
                i <= n,
                expanded@.len() == n,
                sd == names(seeds@).to_set(),
                forall|x: Seq<char>| sd.contains(x) ==> #[trigger] names(marked@).contains(x),
                forall|x: Seq<char>| #[trigger] names(marked@).contains(x) ==> reachable(rel, sd, x),
                forall|k: int, j: int|
                    0 <= k < n && expanded@[k] && 0 <= j < g@[k].1@.len() ==> #[trigger] names(
                        marked@,
                    ).contains(g@[k].1@[j]@),
                forall|k: int| 0 <= k < n && #[trigger] expanded@[k] ==> names(marked@).contains(g@[k].0@),
                count_false(expanded@) <= c0,
                changed ==> count_false(expanded@) < c0,
                !changed ==> marked@ == m0,
                !changed ==> forall|k: int|
                    0 <= k < i && #[trigger] names(marked@).contains(g@[k].0@) ==> expanded@[k],
            decreases n - i,
        {
            if !expanded[i] && contains_name(&marked, &g[i].0) {
                proof {
                    lemma_count_false_set(expanded@, i as int);
                }
                expanded.set(i, true);
                changed = true;
                let deps = &g[i].1;
                let mut j: usize = 0;
                while j < deps.len()
                    invariant
                        n == g@.len(),
                        rel == graph_rel(g@),
                        i < n,
                        *deps == g@[i as int].1,
                        j <= deps@.len(),
                        expanded@.len() == n,
                        expanded@[i as int],
                        sd == names(seeds@).to_set(),
                        names(marked@).contains(g@[i as int].0@),
                        forall|x: Seq<char>| sd.contains(x) ==> #[trigger] names(marked@).contains(x),
                        forall|x: Seq<char>| #[trigger] names(marked@).contains(x) ==> reachable(rel, sd, x),
                        forall|k: int, jj: int|
                            0 <= k < n && k != i && expanded@[k] && 0 <= jj < g@[k].1@.len()
                                ==> #[trigger] names(marked@).contains(g@[k].1@[jj]@),
                        forall|jj: int| 0 <= jj < j ==> #[trigger] names(marked@).contains(deps@[jj]@),
                        forall|k: int| 0 <= k < n && #[trigger] expanded@[k] ==> names(marked@).contains(g@[k].0@),
                    decreases deps@.len() - j,
                {
                    if !contains_name(&marked, &deps[j]) {
                        let ghost before = marked@;
                        let ghost b = deps@[j as int]@;
                        proof {
                            let a = g@[i as int].0@;
                            assert(edge(g@, a, b)) by {
                                assert(g@[i as int].0@ == a && g@[i as int].1@[j as int]@ == b);
                            }
                            assert forall|s: Set<Seq<char>>| #[trigger] is_closed(rel, s) && sd.subset_of(s)
                                implies s.contains(b) by {
                                assert(reachable(rel, sd, a));
                                assert(s.contains(a));
                                assert(rel(a, b));
                            }
                        }
                        marked.push(deps[j].clone());
                        proof {
                            assert(names(marked@) =~= names(before).push(b));
                            assert(names(marked@)[names(before).len() as int] == b);
                            assert forall|x: Seq<char>| names(before).contains(x) implies #[trigger] names(marked@).contains(x) by {
                                let k = choose|k: int| 0 <= k < names(before).len() && names(before)[k] == x;
                                assert(names(marked@)[k] == x);
                            }
                            assert forall|x: Seq<char>| #[trigger] names(marked@).contains(x) implies reachable(rel, sd, x) by {
                                if x != b {
                                    assert(names(before).contains(x));
                                }
                            }
                        }
                    }
                    j += 1;
                }
            }
            i += 1;
        }
    }
    proof {
        let ms = names(marked@).to_set();
        assert(is_closed(rel, ms)) by {
            assert forall|a: Seq<char>, b: Seq<char>| ms.contains(a) && #[trigger] rel(a, b) implies ms.contains(b) by {
                let (k, j) = choose|k: int, j: int|
                    0 <= k < g@.len() && 0 <= j < g@[k].1@.len() && #[trigger] g@[k].0@ == a && #[trigger] g@[k].1@[j]@ == b;
                assert(names(marked@).contains(g@[k].0@));
                assert(names(marked@).contains(g@[k].1@[j]@));
            }
        }
        assert(sd.subset_of(ms));
        assert(ms =~= reach_set(rel, sd));
    }
    marked
}

} // verus!

verus! {

/// Relations with the same pairs reach the same names.
pub proof fn lemma_reach_same(
    r1: spec_fn(Seq<char>, Seq<char>) -> bool,
    r2: spec_fn(Seq<char>, Seq<char>) -> bool,
    seeds: Set<Seq<char>>,
)
    requires
        forall|a: Seq<char>, b: Seq<char>| #[trigger] r1(a, b) == r2(a, b),
    ensures
        reach_set(r1, seeds) == reach_set(r2, seeds),
{
    assert forall|s: Set<Seq<char>>| #[trigger] is_closed(r1, s) == is_closed(r2, s) by {
        if is_closed(r1, s) {
            assert forall|a: Seq<char>, b: Seq<char>| s.contains(a) && #[trigger] r2(a, b) implies s.contains(b) by {
                assert(r1(a, b));
            }
        }
        if is_closed(r2, s) {
            assert forall|a: Seq<char>, b: Seq<char>| s.contains(a) && #[trigger] r1(a, b) implies s.contains(b) by {
                assert(r2(a, b));
            }
        }
    }
    assert forall|x: Seq<char>| #[trigger] reachable(r1, seeds, x) == reachable(r2, seeds, x) by {
        if reachable(r1, seeds, x) {
            assert forall|s: Set<Seq<char>>| #[trigger] is_closed(r2, s) && seeds.subset_of(s) implies s.contains(x) by {
                assert(is_closed(r1, s));
            }
        }
        if reachable(r2, seeds, x) {
            assert forall|s: Set<Seq<char>>| #[trigger] is_closed(r1, s) && seeds.subset_of(s) implies s.contains(x) by {
                assert(is_closed(r2, s));
            }
        }
    }
    assert(reach_set(r1, seeds) =~= reach_set(r2, seeds));
}

} // verus!

verus! {

/// Appending a node adds exactly its own edges.
pub proof fn lemma_edge_push(g: Seq<(String, Vec<String>)>, e: (String, Vec<String>))
    ensures
        forall|a: Seq<char>, b: Seq<char>|
            #[trigger] graph_rel(g.push(e))(a, b) == (graph_rel(g)(a, b) || (e.0@ == a && names(
                e.1@,
            ).contains(b))),
{
    let t = g.push(e);
    assert forall|a: Seq<char>, b: Seq<char>|
        #[trigger] graph_rel(t)(a, b) == (graph_rel(g)(a, b) || (e.0@ == a && names(e.1@).contains(b))) by {
        if graph_rel(t)(a, b) {
            let (k, j) = choose|k: int, j: int|
                0 <= k < t.len() && 0 <= j < t[k].1@.len() && #[trigger] t[k].0@ == a && #[trigger] t[k].1@[j]@ == b;
            if k < g.len() {
                assert(g[k] == t[k]);
                assert(edge(g, a, b));
            } else {
                assert(names(e.1@)[j] == b);
            }
        }
        if graph_rel(g)(a, b) {
            let (k, j) = choose|k: int, j: int|
                0 <= k < g.len() && 0 <= j < g[k].1@.len() && #[trigger] g[k].0@ == a && #[trigger] g[k].1@[j]@ == b;
            assert(t[k] == g[k]);
            assert(edge(t, a, b));
        }
        if e.0@ == a && names(e.1@).contains(b) {
            let j = choose|j: int| 0 <= j < names(e.1@).len() && names(e.1@)[j] == b;
            assert(t[g.len() as int] == e);
            assert(t[g.len() as int].1@[j]@ == b);
            assert(edge(t, a, b));
        }
    }
}

} // verus!
