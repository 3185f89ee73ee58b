use vstd::prelude::*;
use vstd::string::*;
use crate::assoc::names;
use crate::fs::{FileTree, under, renamed, slash};
use crate::changes::{PackageChange, PendingProjectChanges, Install};
use crate::package::{PackageCollection, PackageInfo};
use crate::project::UnityProject;
use crate::manifest::VpmManifest;
use crate::version::DependencyRange;
use crate::assoc::lemma_value_at;

verus! {

/// What kind of I/O failure occurred.
#[derive(Clone, Copy, Debug, PartialEq, Eq, Structural)]
pub enum IoErrorKind {
    NotFound,
    AlreadyExists,
    Other,
}

/// An I/O failure while applying a plan.
#[derive(Debug)]
pub struct IoError {
    pub kind: IoErrorKind,
    pub message: String,
}

impl IoError {
    /// A copy of this error.
    pub fn duplicate(&self) -> (r: IoError)
        ensures
            r == *self,
    {
        IoError { kind: self.kind, message: self.message.clone() }
    }
}

/// One step of staging, kept so that it can be undone.
pub enum UndoStep {
    /// An entry was moved from `from` to `to`.
    Renamed { from: String, to: String },
    /// A directory was created at `path`.
    Created { path: String },
}

/// Each step of `log`, undone from the last, finds what it needs in `m`.
pub open spec fn log_ok(m: Map<Seq<char>, Option<Seq<u8>>>, log: Seq<UndoStep>) -> bool
    decreases log.len(),
{
    if log.len() == 0 {
        true
    } else {
        match log.last() {
            UndoStep::Renamed { from, to } => m.contains_key(to@) && !m.contains_key(from@) && log_ok(
                renamed(m, to@, from@),
                log.drop_last(),
            ),
            UndoStep::Created { path } => m.contains_key(path@) && log_ok(m.remove(path@), log.drop_last()),
        }
    }
}

/// The tree once every step of `log` is undone, the last first.
pub open spec fn undo(m: Map<Seq<char>, Option<Seq<u8>>>, log: Seq<UndoStep>) -> Map<Seq<char>, Option<Seq<u8>>>
    decreases log.len(),
{
    if log.len() == 0 {
        m
    } else {
        match log.last() {
            UndoStep::Renamed { from, to } => undo(renamed(m, to@, from@), log.drop_last()),
            UndoStep::Created { path } => undo(m.remove(path@), log.drop_last()),
        }
    }
}

proof fn lemma_log_rename(m: Map<Seq<char>, Option<Seq<u8>>>, log: Seq<UndoStep>, from: String, to: String)
    requires
        log_ok(m, log),
        m.contains_key(from@),
        !m.contains_key(to@),
    ensures
        log_ok(renamed(m, from@, to@), log.push(UndoStep::Renamed { from, to })),
        undo(renamed(m, from@, to@), log.push(UndoStep::Renamed { from, to })) == undo(m, log),
{
    let l2 = log.push(UndoStep::Renamed { from, to });
    assert(l2.drop_last() =~= log);
    assert(renamed(renamed(m, from@, to@), to@, from@) =~= m);
}

proof fn lemma_log_create(m: Map<Seq<char>, Option<Seq<u8>>>, log: Seq<UndoStep>, path: String)
    requires
        log_ok(m, log),
        !m.contains_key(path@),
    ensures
        log_ok(m.insert(path@, None), log.push(UndoStep::Created { path })),
        undo(m.insert(path@, None), log.push(UndoStep::Created { path })) == undo(m, log),
{
    let l2 = log.push(UndoStep::Created { path });
    assert(l2.drop_last() =~= log);
    assert(m.insert(path@, None).remove(path@) =~= m);
}

/// Undoes every step of `log`, the last first.
pub fn rollback(tree: &mut FileTree, log: &mut Vec<UndoStep>)
    requires
        old(tree).wf(),
        log_ok(old(tree)@, old(log)@),
    ensures
        final(tree).wf(),
        final(tree)@ == undo(old(tree)@, old(log)@),
        final(log)@.len() == 0,
{
    let ghost target = undo(tree@, log@);
    while log.len() > 0
        invariant
            tree.wf(),
            log_ok(tree@, log@),
            undo(tree@, log@) == target,
        decreases log@.len(),
    {
        let ghost before = log@;
        let step = log.pop().unwrap();
        proof {
            assert(log@ == before.drop_last());
        }
        match step {
            UndoStep::Renamed { from, to } => {
                tree.rename_entry(&to, from);
            },
            UndoStep::Created { path } => {
                tree.remove_entry(&path);
            },
        }
    }
}

/// A path whose first character differs from the directory's lies outside it.
pub proof fn lemma_first_char_outside(x: Seq<char>, d: Seq<char>)
    requires
        x.len() > 0,
        d.len() > 0,
        x[0] != d[0],
    ensures
        !under(x, d),
{
    if (d + slash()).is_prefix_of(x) {
        assert((d + slash())[0] == x[0]);
    }
}

/// The marker put before the name of each staged file.
pub open spec fn marker() -> Seq<char> {
    seq!['.', '_', '_', 'r', 'e', 'm', 'o', 'v', 'e', 'd', '_']
}

/// `rel` with the marker put before its last component, which starts after `ls`.
pub open spec fn marked_at(rel: Seq<char>, ls: int) -> Seq<char> {
    rel.subrange(0, ls + 1) + marker() + rel.subrange(ls + 1, rel.len() as int)
}

/// `ls` is the last `/` of `s`, or -1 when it has none.
pub open spec fn is_last_slash(s: Seq<char>, ls: int) -> bool {
    &&& -1 <= ls < s.len()
    &&& (ls == -1 || s[ls] == '/')
    &&& forall|j: int| ls < j < s.len() ==> s[j] != '/'
}

/// The last `/` of `s`, or -1.
pub open spec fn last_slash(s: Seq<char>) -> int {
    choose|ls: int| is_last_slash(s, ls)
}

proof fn lemma_last_slash_unique(s: Seq<char>, a: int, b: int)
    requires
        is_last_slash(s, a),
        is_last_slash(s, b),
    ensures
        a == b,
{
    if a < b {
        assert(s[b] == '/');
    }
    if b < a {
        assert(s[a] == '/');
    }
}

/// Where staging puts the entry `p` (a file when `is_file`) of the folder `d`.
pub open spec fn staged_spec(root: Seq<char>, d: Seq<char>, p: Seq<char>, is_file: bool) -> Seq<char> {
    let rel = p.subrange(d.len() as int, p.len() as int);
    if is_file {
        root + marked_at(rel, last_slash(rel))
    } else {
        root + rel
    }
}

/// The folder that package `name` is staged to.
pub open spec fn stage_root(temp: Seq<char>, name: Seq<char>) -> Seq<char> {
    temp + slash() + name
}

/// Where staging package `name` puts the entry at `x` of `m`.
pub open spec fn dest_of(m: Map<Seq<char>, Option<Seq<u8>>>, temp: Seq<char>, name: Seq<char>, x: Seq<char>) -> Seq<char> {
    staged_spec(stage_root(temp, name), pkg_dir(name), x, m[x] is Some)
}

/// Staging package `name` would put an entry where one already stands, or two entries
/// at the same path.
pub open spec fn staging_collision(m: Map<Seq<char>, Option<Seq<u8>>>, temp: Seq<char>, name: Seq<char>) -> bool {
    exists|x: Seq<char>|
        #[trigger] m.contains_key(x) && under(x, pkg_dir(name)) && (m.contains_key(dest_of(m, temp, name, x)) || exists|
            y: Seq<char>,
        |
            y != x && #[trigger] m.contains_key(y) && under(y, pkg_dir(name)) && dest_of(m, temp, name, y) == dest_of(
                m,
                temp,
                name,
                x,
            ))
}

/// Where staging puts the entry `p` of the package folder `d`: under `root`, at the
/// same relative path, a file's name carrying the marker.
pub fn staged_path(root: &String, d: &String, p: &String, is_file: bool) -> (r: String)
    requires
        under(p@, d@),
    ensures
        is_file ==> exists|ls: int|
            is_last_slash(p@.subrange(d@.len() as int, p@.len() as int), ls) && r@ == root@ + marked_at(
                p@.subrange(d@.len() as int, p@.len() as int),
                ls,
            ),
        !is_file ==> r@ == root@ + p@.subrange(d@.len() as int, p@.len() as int),
        root@.is_prefix_of(r@),
        r@ == staged_spec(root@, d@, p@, is_file),
{
    let dl = d.as_str().unicode_len();
    let pl = p.as_str().unicode_len();
    proof {
        if p@ != d@ {
            assert((d@ + slash()).is_prefix_of(p@));
        }
    }
    let rel = p.as_str().substring_char(dl, pl);
    if !is_file {
        let r = root.clone().concat(rel);
        assert(root@.is_prefix_of(r@)) by {
            assert(r@.subrange(0, root@.len() as int) =~= root@);
        }
        return r;
    }
    let n = rel.unicode_len();
    let mut k: usize = n;
    while k > 0 && rel.get_char(k - 1) != '/'
        invariant
            n == rel@.len(),
            k <= n,
            forall|j: int| k <= j < n ==> rel@[j] != '/',
        decreases k,
    {
        k -= 1;
    }
    let ghost ls: int = k as int - 1;
    let head = rel.substring_char(0, k);
    let tail = rel.substring_char(k, n);
    let marker_str = ".__removed_";
    proof {
        reveal_strlit(".__removed_");
        assert(marker_str@ =~= marker());
    }
    let r = root.clone().concat(head).concat(marker_str).concat(tail);
    proof {
        assert(is_last_slash(rel@, ls));
        lemma_last_slash_unique(rel@, ls, last_slash(rel@));
        assert(r@ =~= root@ + marked_at(rel@, ls));
        assert(r@.subrange(0, root@.len() as int) =~= root@);
    }
    r
}

/// Adding only paths that start with `T` leaves package folders that were empty empty.
proof fn lemma_only_temp_added(a: Map<Seq<char>, Option<Seq<u8>>>, b: Map<Seq<char>, Option<Seq<u8>>>)
    requires
        forall|x: Seq<char>| #[trigger] b.contains_key(x) ==> a.contains_key(x) || (x.len() > 0 && x[0] == 'T'),
    ensures
        forall|n: Seq<char>| #[trigger] empty_under(a, pkg_dir(n)) ==> empty_under(b, pkg_dir(n)),
{
    assert forall|n: Seq<char>| #[trigger] empty_under(a, pkg_dir(n)) implies empty_under(b, pkg_dir(n)) by {
        assert forall|x: Seq<char>| #[trigger] b.contains_key(x) implies !under(x, pkg_dir(n)) by {
            if !a.contains_key(x) {
                assert(pkg_dir(n)[0] == 'P');
                lemma_first_char_outside(x, pkg_dir(n));
            }
        }
    }
}

proof fn lemma_prefix_trans(a: Seq<char>, b: Seq<char>, c: Seq<char>)
    requires
        a.is_prefix_of(b),
        b.is_prefix_of(c),
    ensures
        a.is_prefix_of(c),
{
    assert forall|i: int| 0 <= i < a.len() implies a[i] == c[i] by {
        assert(a[i] == b[i]);
    }
}

/// The folder of package `n`.
pub open spec fn pkg_dir(n: Seq<char>) -> Seq<char> {
    seq!['P', 'a', 'c', 'k', 'a', 'g', 'e', 's', '/'] + n
}

/// No entry of `m` lies at or inside `d`.
pub open spec fn empty_under(m: Map<Seq<char>, Option<Seq<u8>>>, d: Seq<char>) -> bool {
    forall|x: Seq<char>| #[trigger] m.contains_key(x) ==> !under(x, d)
}

pub fn package_dir(name: &String) -> (r: String)
    ensures
        r@ == pkg_dir(name@),
{
    let base = "Packages/";
    proof {
        reveal_strlit("Packages/");
    }
    let r = String::from_str(base).concat(name.as_str());
    assert(r@ =~= pkg_dir(name@));
    r
}

/// Moves the folder of package `name`, entry by entry, to `temp`/`name`, logging
/// each step. `Ok(false)` when the package has no folder.
pub fn stage_package(tree: &mut FileTree, log: &mut Vec<UndoStep>, temp: &String, name: &String) -> (r: Result<bool, IoError>)
    requires
        old(tree).wf(),
        log_ok(old(tree)@, old(log)@),
        temp@.len() > 0,
        temp@[0] == 'T',
        (pkg_temp_root() + slash()).is_prefix_of(temp@),
    ensures
        forall|x: Seq<char>| #[trigger] final(tree)@.contains_key(x) && old(tree)@.contains_key(x) ==> final(tree)@[x] == old(tree)@[x],
        forall|x: Seq<char>| #[trigger] old(tree)@.contains_key(x) && !under(x, pkg_dir(name@)) ==> final(tree)@.contains_key(x),
        forall|x: Seq<char>| #[trigger] final(tree)@.contains_key(x) && !old(tree)@.contains_key(x) ==> under(x, pkg_temp_root()),
        final(tree).wf(),
        log_ok(final(tree)@, final(log)@),
        undo(final(tree)@, final(log)@) == undo(old(tree)@, old(log)@),
        r is Ok ==> empty_under(final(tree)@, pkg_dir(name@)),
        forall|n: Seq<char>| #[trigger] empty_under(old(tree)@, pkg_dir(n)) ==> empty_under(final(tree)@, pkg_dir(n)),
        (r is Err) == staging_collision(old(tree)@, temp@, name@),
        r matches Err(e) ==> e.kind == IoErrorKind::AlreadyExists,
        r matches Ok(b) ==> b == !empty_under(old(tree)@, pkg_dir(name@)),
        empty_under(old(tree)@, pkg_dir(name@)) ==> final(tree)@ == old(tree)@,
{
    let d = package_dir(name);
    let root = temp.clone().concat("/").concat(name.as_str());
    proof {
        reveal_strlit("/");
        assert(root@ =~= stage_root(temp@, name@));
        assert(root@[0] == 'T');
        assert(temp@.is_prefix_of(root@));
        lemma_prefix_trans(pkg_temp_root() + slash(), temp@, root@);
    }
    let paths = tree.paths_under(&d);
    if paths.len() == 0 {
        proof {
            assert forall|x: Seq<char>| #[trigger] tree@.contains_key(x) implies !under(x, pkg_dir(name@)) by {
                if under(x, pkg_dir(name@)) {
                    assert(names(paths@).contains(x));
                }
            }
        }
        return Ok(false);
    }
    let ghost start = tree@;
    let ghost mut dests: Seq<Seq<char>> = Seq::empty();
    proof {
        assert(names(paths@)[0] == paths@[0]@);
        assert(names(paths@).contains(paths@[0]@));
        assert(!empty_under(start, pkg_dir(name@)));
        assert forall|k: int| 0 <= k < paths@.len() implies tree@.contains_key(#[trigger] paths@[k]@) by {
            assert(names(paths@)[k] == paths@[k]@);
            assert(names(paths@).contains(paths@[k]@));
        }
        assert forall|x: Seq<char>| #[trigger] tree@.contains_key(x) && under(x, d@) implies exists|k: int| 0 <= k < paths@.len() && #[trigger] paths@[k]@ == x by {
            assert(names(paths@).contains(x));
            let k = choose|k: int| 0 <= k < names(paths@).len() && names(paths@)[k] == x;
            assert(paths@[k]@ == x);
        }
    }
    let mut i: usize = 0;
    while i < paths.len()
        invariant
            tree.wf(),
            log_ok(tree@, log@),
            undo(tree@, log@) == undo(old(tree)@, old(log)@),
            d@ == pkg_dir(name@),
            root@[0] == 'T',
            root@.len() > 0,
            i <= paths@.len(),
            names(paths@).no_duplicates(),
            forall|x: Seq<char>| #[trigger] names(paths@).contains(x) == (start.contains_key(x) && under(x, d@)),
            forall|k: int| i <= k < paths@.len() ==> tree@.contains_key(#[trigger] paths@[k]@),
            forall|x: Seq<char>| #[trigger] tree@.contains_key(x) && under(x, d@) ==> exists|k: int| i <= k < paths@.len() && #[trigger] paths@[k]@ == x,
            start == old(tree)@,
            forall|x: Seq<char>| #[trigger] tree@.contains_key(x) ==> start.contains_key(x) || (x.len() > 0 && x[0] == 'T'),
            root@ == stage_root(temp@, name@),
            !empty_under(start, pkg_dir(name@)),
            dests.len() == i,
            forall|k: int| 0 <= k < i ==> #[trigger] dests[k] == dest_of(start, temp@, name@, paths@[k]@),
            forall|k: int| 0 <= k < i ==> !start.contains_key(#[trigger] dests[k]),
            forall|k: int, k2: int| 0 <= k2 < k < i ==> #[trigger] dests[k2] != #[trigger] dests[k],
            forall|k: int| 0 <= k < i ==> tree@.contains_key(#[trigger] dests[k]),
            forall|k: int| 0 <= k < i ==> dests[k].len() > 0 && #[trigger] dests[k][0] == 'T',
            forall|x: Seq<char>| #[trigger] tree@.contains_key(x) && !start.contains_key(x) ==> exists|k: int| 0 <= k < i && #[trigger] dests[k] == x,
            forall|x: Seq<char>| #[trigger] start.contains_key(x) && !under(x, d@) ==> tree@.contains_key(x),
            forall|k: int| i <= k < paths@.len() ==> tree@[#[trigger] paths@[k]@] == start[paths@[k]@],
            forall|x: Seq<char>| #[trigger] tree@.contains_key(x) && start.contains_key(x) ==> tree@[x] == start[x],
            forall|k: int| 0 <= k < i ==> under(#[trigger] dests[k], pkg_temp_root()),
            (pkg_temp_root() + slash()).is_prefix_of(root@),
        decreases paths@.len() - i,
    {
        let p = &paths[i];
        proof {
            assert(names(paths@).contains(p@)) by {
                assert(names(paths@)[i as int] == p@);
            }
        }
        let is_file = match tree.get(p) {
            Some(e) => e.is_some(),
            None => {
                assert(false);
                false
            },
        };
        let dest = staged_path(&root, &d, p, is_file);
        proof {
            assert(dest@[0] == 'T') by {
                assert(dest@.subrange(0, root@.len() as int)[0] == root@[0]);
            }
            assert(dest@ == dest_of(start, temp@, name@, p@));
            lemma_prefix_trans(pkg_temp_root() + slash(), root@, dest@);
            assert(under(dest@, pkg_temp_root()));
            assert(d@[0] == 'P');
            lemma_first_char_outside(dest@, d@);
        }
        if tree.get(&dest).is_some() {
            proof {
                lemma_only_temp_added(old(tree)@, tree@);
                let x = p@;
                assert(start.contains_key(x) && under(x, pkg_dir(name@)));
                if !start.contains_key(dest@) {
                    let k = choose|k: int| 0 <= k < i && #[trigger] dests[k] == dest@;
                    let y = paths@[k]@;
                    assert(names(paths@)[k] != names(paths@)[i as int]);
                    assert(names(paths@).contains(y)) by {
                        assert(names(paths@)[k] == y);
                    }
                    assert(y != x && start.contains_key(y) && under(y, pkg_dir(name@)) && dest_of(start, temp@, name@, y) == dest_of(start, temp@, name@, x));
                }
                assert(staging_collision(start, temp@, name@));
            }
            return Err(IoError { kind: IoErrorKind::AlreadyExists, message: dest });
        }
        proof {
            assert(!start.contains_key(dest@)) by {
                if start.contains_key(dest@) {
                    assert(tree@.contains_key(dest@));
                }
            }
            assert forall|k: int| 0 <= k < i implies dests[k] != dest@ by {
                assert(tree@.contains_key(dests[k]));
            }
        }
        let ghost before = tree@;
        let from = p.clone();
        let to = dest.clone();
        proof {
            lemma_log_rename(tree@, log@, from, to);
        }
        tree.rename_entry(p, dest);
        log.push(UndoStep::Renamed { from, to });
        proof {
            let dnew = dests.push(to@);
            assert forall|k: int| 0 <= k < i + 1 implies tree@.contains_key(#[trigger] dnew[k]) by {
                if k < i {
                    assert(dests[k][0] == 'T');
                    assert(dests[k] != p@) by {
                        lemma_first_char_outside(dests[k], d@);
                    }
                }
            }
            assert forall|x: Seq<char>| #[trigger] tree@.contains_key(x) && !start.contains_key(x) implies exists|k: int| 0 <= k < i + 1 && #[trigger] dnew[k] == x by {
                if x != to@ {
                    assert(before.contains_key(x));
                    let k = choose|k: int| 0 <= k < i && #[trigger] dests[k] == x;
                    assert(dnew[k] == x);
                } else {
                    assert(dnew[i as int] == x);
                }
            }
            assert forall|x: Seq<char>| #[trigger] start.contains_key(x) && !under(x, d@) implies tree@.contains_key(x) by {
                assert(x != p@);
            }
            assert forall|x: Seq<char>| #[trigger] tree@.contains_key(x) && start.contains_key(x) implies tree@[x] == start[x] by {
                assert(x != to@);
                assert(before.contains_key(x));
            }
            assert forall|k: int| i + 1 <= k < paths@.len() implies tree@[#[trigger] paths@[k]@] == start[paths@[k]@] by {
                assert(names(paths@)[k] != names(paths@)[i as int]);
                assert(names(paths@)[k] == paths@[k]@);
                assert(names(paths@).contains(paths@[k]@));
                lemma_first_char_outside(to@, d@);
            }
            dests = dnew;
        }
        proof {
            assert forall|k: int| i + 1 <= k < paths@.len() implies tree@.contains_key(#[trigger] paths@[k]@) by {
                assert(names(paths@)[k] != names(paths@)[i as int]);
                assert(before.contains_key(paths@[k]@));
                assert(names(paths@).contains(paths@[k]@)) by {
                    assert(names(paths@)[k] == paths@[k]@);
                }
                lemma_first_char_outside(dest@, d@);
            }
            assert forall|x: Seq<char>| #[trigger] tree@.contains_key(x) && under(x, d@) implies exists|k: int| i + 1 <= k < paths@.len() && #[trigger] paths@[k]@ == x by {
                if x == dest@ {
                    assert(d@[0] == 'P');
                    assert(dest@.len() > 0);
                    lemma_first_char_outside(dest@, d@);
                } else {
                    assert(before.contains_key(x));
                    let k = choose|k: int| i <= k < paths@.len() && #[trigger] paths@[k]@ == x;
                    if k == i {
                        assert(x == p@);
                    }
                }
            }
        }
        i += 1;
    }
    proof {
        assert forall|x: Seq<char>| #[trigger] tree@.contains_key(x) implies !under(x, pkg_dir(name@)) by {
            if under(x, d@) {
                let k = choose|k: int| i <= k < paths@.len() && #[trigger] paths@[k]@ == x;
            }
        }
        lemma_only_temp_added(old(tree)@, tree@);
        assert(!staging_collision(start, temp@, name@)) by {
            if staging_collision(start, temp@, name@) {
                let x = choose|x: Seq<char>|
                    #[trigger] start.contains_key(x) && under(x, pkg_dir(name@)) && (start.contains_key(dest_of(start, temp@, name@, x)) || exists|y: Seq<char>|
                        y != x && #[trigger] start.contains_key(y) && under(y, pkg_dir(name@)) && dest_of(start, temp@, name@, y) == dest_of(start, temp@, name@, x));
                assert(names(paths@).contains(x));
                let k = choose|k: int| 0 <= k < names(paths@).len() && names(paths@)[k] == x;
                assert(paths@[k]@ == x);
                assert(dests[k] == dest_of(start, temp@, name@, x));
                if !start.contains_key(dest_of(start, temp@, name@, x)) {
                    let y = choose|y: Seq<char>|
                        y != x && #[trigger] start.contains_key(y) && under(y, pkg_dir(name@)) && dest_of(start, temp@, name@, y) == dest_of(start, temp@, name@, x);
                    assert(names(paths@).contains(y));
                    let k2 = choose|k2: int| 0 <= k2 < names(paths@).len() && names(paths@)[k2] == y;
                    assert(paths@[k2]@ == y);
                    assert(dests[k2] == dests[k]);
                }
            }
        }
    }
    Ok(true)
}

/// `b` agrees with `a` on every path outside `d`.
pub open spec fn unchanged_outside(a: Map<Seq<char>, Option<Seq<u8>>>, b: Map<Seq<char>, Option<Seq<u8>>>, d: Seq<char>) -> bool {
    forall|x: Seq<char>|
        !under(x, d) ==> (#[trigger] a.contains_key(x) == b.contains_key(x) && (a.contains_key(x) ==> a[x] == b[x]))
}

/// Puts a package's files into the project. It writes only inside the package's
/// own folder, so installs of different packages do not meet.
pub trait PackageInstaller {
    fn install_package(&self, tree: &mut FileTree, c: &PackageCollection, package: PackageInfo) -> (r: Result<(), IoError>)
        requires
            old(tree).wf(),
            c.valid(package),
        ensures
            final(tree).wf(),
            unchanged_outside(old(tree)@, final(tree)@, pkg_dir(c.spec_get(package).name@));
}

/// Every install of the plan carries a package of the collection, stored under that package's name.
pub open spec fn plan_consistent(plan: PendingProjectChanges, c: PackageCollection) -> bool {
    forall|k: int|
        0 <= k < plan.package_changes@.len() && #[trigger] plan.package_changes@[k].1 is Install
            && plan.package_changes@[k].1->Install_0.package is Some ==> c.valid(
            plan.package_changes@[k].1->Install_0.package->Some_0,
        ) && c.spec_get(plan.package_changes@[k].1->Install_0.package->Some_0).name@ == plan.package_changes@[k].0@
}

/// `x` lies in the folder of a package that `plan` installs.
pub open spec fn in_installed_folder(plan: PendingProjectChanges, c: PackageCollection, x: Seq<char>) -> bool {
    exists|j: int|
        0 <= j < plan.package_changes@.len() && #[trigger] plan.package_changes@[j].1 is Install
            && plan.package_changes@[j].1->Install_0.package is Some && under(
            x,
            pkg_dir(c.spec_get(plan.package_changes@[j].1->Install_0.package->Some_0).name@),
        )
}

/// `p` is the package of some install of `plan`.
pub open spec fn installed_by(plan: PendingProjectChanges, p: PackageInfo) -> bool {
    exists|j: int|
        0 <= j < plan.package_changes@.len() && #[trigger] plan.package_changes@[j].1 == PackageChange::Install(
            Install { package: Some(p), ..plan.package_changes@[j].1->Install_0 },
        )
}

/// The packages that the changes install, in order.
pub open spec fn plan_installs(pc: Seq<(String, PackageChange)>) -> Seq<PackageInfo>
    decreases pc.len(),
{
    if pc.len() == 0 {
        Seq::empty()
    } else {
        let rest = plan_installs(pc.drop_last());
        match pc.last().1 {
            PackageChange::Install(i) => match i.package {
                Some(p) => rest.push(p),
                None => rest,
            },
            _ => rest,
        }
    }
}

/// The names that the changes remove, in order.
pub open spec fn plan_removals(pc: Seq<(String, PackageChange)>) -> Seq<Seq<char>>
    decreases pc.len(),
{
    if pc.len() == 0 {
        Seq::empty()
    } else {
        let rest = plan_removals(pc.drop_last());
        match pc.last().1 {
            PackageChange::Remove(_) => rest.push(pc.last().0@),
            _ => rest,
        }
    }
}

/// Applying `plan` may change what stands at `x`: it lies in the folder of a package
/// that the plan removes or installs, in the staging area, or is a legacy asset.
pub open spec fn apply_touches(plan: PendingProjectChanges, c: PackageCollection, x: Seq<char>) -> bool {
    ||| exists|k: int| 0 <= k < plan_removals(plan.package_changes@).len() && under(x, #[trigger] pkg_dir(plan_removals(plan.package_changes@)[k]))
    ||| exists|k: int| 0 <= k < plan_installs(plan.package_changes@).len() && under(x, #[trigger] pkg_dir(c.spec_get(plan_installs(plan.package_changes@)[k]).name@))
    ||| under(x, pkg_temp_root())
    ||| x == temp_root()
    ||| legacy_target(plan.remove_legacy_files@, plan.remove_legacy_folders@, x)
}

/// The packages a plan installs, and the names it stages: removed names first, then installed ones.
fn partition(plan: &PendingProjectChanges, c: &PackageCollection) -> (r: (Vec<PackageInfo>, Vec<String>))
    requires
        plan_consistent(*plan, *c),
    ensures
        forall|k: int| 0 <= k < r.0@.len() ==> c.valid(#[trigger] r.0@[k]),
        forall|k: int| 0 <= k < r.0@.len() ==> #[trigger] names(r.1@).contains(c.spec_get(r.0@[k]).name@),
        forall|k: int| 0 <= k < r.0@.len() ==> installed_by(*plan, #[trigger] r.0@[k]),
        forall|k: int|
            0 <= k < plan.package_changes@.len() && #[trigger] plan.package_changes@[k].1 is Remove ==> names(r.1@).contains(
                plan.package_changes@[k].0@,
            ),
        r.0@ == plan_installs(plan.package_changes@),
        names(r.1@) == plan_removals(plan.package_changes@) + r.0@.map_values(|p: PackageInfo| c.spec_get(p).name@),
{
    let ghost pc = plan.package_changes@;
    let mut installs: Vec<PackageInfo> = Vec::new();
    let mut staged: Vec<String> = Vec::new();
    let mut i: usize = 0;
    while i < plan.package_changes.len()
        invariant
            i <= plan.package_changes@.len(),
            plan_consistent(*plan, *c),
            forall|k: int| 0 <= k < installs@.len() ==> c.valid(#[trigger] installs@[k]),
            forall|k: int| 0 <= k < installs@.len() ==> installed_by(*plan, #[trigger] installs@[k]),
            forall|k: int|
                0 <= k < i && #[trigger] plan.package_changes@[k].1 is Remove ==> names(staged@).contains(
                    plan.package_changes@[k].0@,
                ),
            pc == plan.package_changes@,
            installs@ == plan_installs(pc.take(i as int)),
            names(staged@) == plan_removals(pc.take(i as int)),
        decreases plan.package_changes@.len() - i,
    {
        proof {
            assert(pc.take(i + 1).drop_last() =~= pc.take(i as int));
        }
        match plan.package_changes[i].1 {
            PackageChange::Install(Install { package: Some(p), .. }) => {
                proof {
                    assert(plan.package_changes@[i as int].1 == PackageChange::Install(
                        Install { package: Some(p), ..plan.package_changes@[i as int].1->Install_0 },
                    ));
                }
                installs.push(p);
            },
            PackageChange::Remove(_) => {
                let ghost before = staged@;
                let name = plan.package_changes[i].0.clone();
                staged.push(name);
                proof {
                    crate::assoc::lemma_names_push(before, name);
                    assert(names(staged@) =~= names(before).push(name@));
                }
            },
            _ => {},
        }
        i += 1;
    }
    proof {
        assert(pc.take(pc.len() as int) =~= pc);
    }
    let ghost removed = names(staged@);
    let mut k: usize = 0;
    while k < installs.len()
        invariant
            k <= installs@.len(),
            forall|j: int| 0 <= j < installs@.len() ==> c.valid(#[trigger] installs@[j]),
            forall|j: int| 0 <= j < installs@.len() ==> installed_by(*plan, #[trigger] installs@[j]),
            forall|j: int| 0 <= j < k ==> #[trigger] names(staged@).contains(c.spec_get(installs@[j]).name@),
            forall|j: int|
                0 <= j < plan.package_changes@.len() && #[trigger] plan.package_changes@[j].1 is Remove ==> names(staged@).contains(
                    plan.package_changes@[j].0@,
                ),
            names(staged@) == removed + installs@.take(k as int).map_values(|p: PackageInfo| c.spec_get(p).name@),
        decreases installs@.len() - k,
    {
        let ghost before = staged@;
        let name = c.get(installs[k]).name.clone();
        staged.push(name);
        proof {
            crate::assoc::lemma_names_push(before, name);
            assert(installs@.take(k + 1).map_values(|p: PackageInfo| c.spec_get(p).name@)
                =~= installs@.take(k as int).map_values(|p: PackageInfo| c.spec_get(p).name@).push(name@));
            assert(names(staged@) =~= names(before).push(name@));
        }
        k += 1;
    }
    proof {
        assert(installs@.take(installs@.len() as int) =~= installs@);
    }
    (installs, staged)
}

/// Stages the folders of all `staged` names; on failure the caller rolls back the log.
fn stage_all(tree: &mut FileTree, log: &mut Vec<UndoStep>, temp: &String, staged: &Vec<String>) -> (r: Result<(), IoError>)
    requires
        old(tree).wf(),
        log_ok(old(tree)@, old(log)@),
        temp@.len() > 0,
        temp@[0] == 'T',
        (pkg_temp_root() + slash()).is_prefix_of(temp@),
    ensures
        forall|x: Seq<char>| #[trigger] final(tree)@.contains_key(x) && old(tree)@.contains_key(x) ==> final(tree)@[x] == old(tree)@[x],
        forall|x: Seq<char>|
            #[trigger] old(tree)@.contains_key(x) && (forall|k: int| 0 <= k < staged@.len() ==> !under(x, #[trigger] pkg_dir(staged@[k]@)))
                ==> final(tree)@.contains_key(x),
        forall|x: Seq<char>| #[trigger] final(tree)@.contains_key(x) && !old(tree)@.contains_key(x) ==> under(x, pkg_temp_root()),
        final(tree).wf(),
        log_ok(final(tree)@, final(log)@),
        undo(final(tree)@, final(log)@) == undo(old(tree)@, old(log)@),
        r is Ok ==> forall|n: Seq<char>| #[trigger] names(staged@).contains(n) ==> empty_under(final(tree)@, pkg_dir(n)),
        r matches Err(e) ==> e.kind == IoErrorKind::AlreadyExists,
        (forall|n: Seq<char>| #[trigger] names(staged@).contains(n) ==> empty_under(old(tree)@, pkg_dir(n))) ==> r is Ok
            && final(tree)@ == old(tree)@,
{
    let mut i: usize = 0;
    while i < staged.len()
        invariant
            i <= staged@.len(),
            tree.wf(),
            log_ok(tree@, log@),
            undo(tree@, log@) == undo(old(tree)@, old(log)@),
            temp@.len() > 0,
            temp@[0] == 'T',
            forall|k: int| 0 <= k < i ==> #[trigger] empty_under(tree@, pkg_dir(staged@[k]@)),
            (forall|n: Seq<char>| #[trigger] names(staged@).contains(n) ==> empty_under(old(tree)@, pkg_dir(n))) ==> tree@ == old(tree)@,
            (pkg_temp_root() + slash()).is_prefix_of(temp@),
            forall|x: Seq<char>| #[trigger] tree@.contains_key(x) && old(tree)@.contains_key(x) ==> tree@[x] == old(tree)@[x],
            forall|x: Seq<char>|
                #[trigger] old(tree)@.contains_key(x) && (forall|k: int| 0 <= k < i ==> !under(x, #[trigger] pkg_dir(staged@[k]@)))
                    ==> tree@.contains_key(x),
            forall|x: Seq<char>| #[trigger] tree@.contains_key(x) && !old(tree)@.contains_key(x) ==> under(x, pkg_temp_root()),
        decreases staged@.len() - i,
    {
        let ghost before = tree@;
        proof {
            if forall|n: Seq<char>| #[trigger] names(staged@).contains(n) ==> empty_under(old(tree)@, pkg_dir(n)) {
                assert(names(staged@)[i as int] == staged@[i as int]@);
                assert(names(staged@).contains(staged@[i as int]@));
            }
        }
        let res = stage_package(tree, log, temp, &staged[i]);
        proof {
            assert forall|x: Seq<char>| #[trigger] tree@.contains_key(x) && old(tree)@.contains_key(x) implies tree@[x] == old(tree)@[x] by {
                if !before.contains_key(x) {
                    assert(under(x, pkg_temp_root()));
                    assert(x[0] == 'T') by {
                        if x != pkg_temp_root() {
                            assert((pkg_temp_root() + slash())[0] == x[0]);
                        }
                    }
                    assert forall|k: int| 0 <= k < i implies !under(x, #[trigger] pkg_dir(staged@[k]@)) by {
                        assert(pkg_dir(staged@[k]@)[0] == 'P');
                        lemma_first_char_outside(x, pkg_dir(staged@[k]@));
                    }
                }
            }
            assert forall|x: Seq<char>|
                #[trigger] old(tree)@.contains_key(x) && (forall|k: int| 0 <= k < i + 1 ==> !under(x, #[trigger] pkg_dir(staged@[k]@)))
                    implies tree@.contains_key(x) by {
                assert forall|k: int| 0 <= k < i implies !under(x, #[trigger] pkg_dir(staged@[k]@)) by {
                    assert(0 <= k < i + 1);
                }
                assert(!under(x, pkg_dir(staged@[i as int]@)));
                assert(before.contains_key(x));
            }
            assert forall|x: Seq<char>| #[trigger] tree@.contains_key(x) && !old(tree)@.contains_key(x) implies under(x, pkg_temp_root()) by {
                if before.contains_key(x) {
                } 
            }
        }
        match res {
            Ok(_) => {},
            Err(e) => {
                return Err(e);
            },
        }
        proof {
            assert forall|k: int| 0 <= k < i + 1 implies #[trigger] empty_under(tree@, pkg_dir(staged@[k]@)) by {
                if k < i {
                    assert(empty_under(before, pkg_dir(staged@[k]@)));
                }
            }
        }
        i += 1;
    }
    proof {
        assert forall|n: Seq<char>| #[trigger] names(staged@).contains(n) implies empty_under(tree@, pkg_dir(n)) by {
            let k = choose|k: int| 0 <= k < names(staged@).len() && names(staged@)[k] == n;
            assert(empty_under(tree@, pkg_dir(staged@[k]@)));
        }
    }
    Ok(())
}

/// `b` agrees with `a` on every path outside the folders of `ps`.
pub open spec fn unchanged_outside_all(a: Map<Seq<char>, Option<Seq<u8>>>, b: Map<Seq<char>, Option<Seq<u8>>>, c: PackageCollection, ps: Seq<PackageInfo>) -> bool {
    forall|x: Seq<char>|
        (forall|k: int| 0 <= k < ps.len() ==> !under(x, #[trigger] pkg_dir(c.spec_get(ps[k]).name@))) ==> (
        #[trigger] a.contains_key(x) == b.contains_key(x) && (a.contains_key(x) ==> a[x] == b[x]))
}

/// Runs the installer for every package, each whatever the others did, and returns each outcome in order.
fn install_all<I: PackageInstaller>(installer: &I, tree: &mut FileTree, c: &PackageCollection, ps: &Vec<PackageInfo>) -> (r: Vec<Result<(), IoError>>)
    requires
        old(tree).wf(),
        forall|k: int| 0 <= k < ps@.len() ==> c.valid(#[trigger] ps@[k]),
    ensures
        final(tree).wf(),
        unchanged_outside_all(old(tree)@, final(tree)@, *c, ps@),
        r@.len() == ps@.len(),
{
    let mut outcomes: Vec<Result<(), IoError>> = Vec::new();
    let mut i: usize = 0;
    while i < ps.len()
        invariant
            i <= ps@.len(),
            tree.wf(),
            forall|k: int| 0 <= k < ps@.len() ==> c.valid(#[trigger] ps@[k]),
            unchanged_outside_all(old(tree)@, tree@, *c, ps@.take(i as int)),
            outcomes@.len() == i,
        decreases ps@.len() - i,
    {
        let ghost before = tree@;
        let result = installer.install_package(tree, c, ps[i]);
        outcomes.push(result);
        proof {
            let t1 = ps@.take(i + 1);
            let t0 = ps@.take(i as int);
            assert forall|x: Seq<char>|
                (forall|k: int| 0 <= k < t1.len() ==> !under(x, #[trigger] pkg_dir(c.spec_get(t1[k]).name@))) implies (
                #[trigger] old(tree)@.contains_key(x) == tree@.contains_key(x) && (old(tree)@.contains_key(x) ==> old(tree)@[x] == tree@[x])) by {
                assert forall|k: int| 0 <= k < t0.len() implies !under(x, #[trigger] pkg_dir(c.spec_get(t0[k]).name@)) by {
                    assert(t1[k] == t0[k]);
                }
                assert(t1[i as int] == ps@[i as int]);
                assert(!under(x, pkg_dir(c.spec_get(t1[i as int]).name@)));
                assert(old(tree)@.contains_key(x) == before.contains_key(x));
                assert(before.contains_key(x) == tree@.contains_key(x));
            }
        }
        i += 1;
    }
    proof {
        assert(ps@.take(ps@.len() as int) =~= ps@);
    }
    outcomes
}

/// Removes whatever stands in the folders of `ps`.
fn clear_packages(tree: &mut FileTree, c: &PackageCollection, ps: &Vec<PackageInfo>)
    requires
        old(tree).wf(),
        forall|k: int| 0 <= k < ps@.len() ==> c.valid(#[trigger] ps@[k]),
    ensures
        final(tree).wf(),
        forall|x: Seq<char>| #[trigger] final(tree)@.contains_key(x) == (old(tree)@.contains_key(x) && forall|k: int|
            0 <= k < ps@.len() ==> !under(x, #[trigger] pkg_dir(c.spec_get(ps@[k]).name@))),
        forall|x: Seq<char>| #[trigger] final(tree)@.contains_key(x) ==> final(tree)@[x] == old(tree)@[x],
{
    let mut i: usize = 0;
    while i < ps.len()
        invariant
            i <= ps@.len(),
            tree.wf(),
            forall|k: int| 0 <= k < ps@.len() ==> c.valid(#[trigger] ps@[k]),
            forall|x: Seq<char>| #[trigger] tree@.contains_key(x) == (old(tree)@.contains_key(x) && forall|k: int|
                0 <= k < i ==> !under(x, #[trigger] pkg_dir(c.spec_get(ps@[k]).name@))),
            forall|x: Seq<char>| #[trigger] tree@.contains_key(x) ==> tree@[x] == old(tree)@[x],
        decreases ps@.len() - i,
    {
        let d = package_dir(&c.get(ps[i]).name);
        let ghost before = tree@;
        tree.remove_under(&d);
        proof {
            assert forall|x: Seq<char>| #[trigger] tree@.contains_key(x) == (old(tree)@.contains_key(x) && forall|k: int|
                0 <= k < i + 1 ==> !under(x, #[trigger] pkg_dir(c.spec_get(ps@[k]).name@))) by {
                assert(tree@.contains_key(x) == (before.contains_key(x) && !under(x, d@)));
            }
            assert forall|x: Seq<char>| #[trigger] tree@.contains_key(x) implies tree@[x] == old(tree)@[x] by {
                assert(before.contains_key(x));
            }
        }
        i += 1;
    }
}

/// `m` without whatever stands in the folders of `ps`.
pub open spec fn cleared(m: Map<Seq<char>, Option<Seq<u8>>>, c: PackageCollection, ps: Seq<PackageInfo>) -> Map<Seq<char>, Option<Seq<u8>>> {
    Map::new(
        |x: Seq<char>| m.contains_key(x) && forall|k: int| 0 <= k < ps.len() ==> !under(x, #[trigger] pkg_dir(c.spec_get(ps[k]).name@)),
        |x: Seq<char>| m[x],
    )
}

/// Settles the installs of `ps`, whose outcomes are `outcomes`: when one failed,
/// clears the folders of all of them, undoes the staging `log` and returns the
/// first failure; when all succeeded, changes nothing.
pub fn finish_installs(
    tree: &mut FileTree,
    log: &mut Vec<UndoStep>,
    c: &PackageCollection,
    ps: &Vec<PackageInfo>,
    outcomes: &Vec<Result<(), IoError>>,
) -> (r: Result<(), IoError>)
    requires
        old(tree).wf(),
        forall|k: int| 0 <= k < ps@.len() ==> c.valid(#[trigger] ps@[k]),
        outcomes@.len() == ps@.len(),
        log_ok(cleared(old(tree)@, *c, ps@), old(log)@),
    ensures
        final(tree).wf(),
        (r is Ok) == forall|k: int| 0 <= k < outcomes@.len() ==> #[trigger] outcomes@[k] is Ok,
        r is Ok ==> final(tree)@ == old(tree)@ && final(log)@ == old(log)@,
        r is Err ==> final(tree)@ == undo(cleared(old(tree)@, *c, ps@), old(log)@),
        r is Err ==> exists|k: int|
            0 <= k < outcomes@.len() && #[trigger] outcomes@[k] == r && forall|j: int| 0 <= j < k ==> outcomes@[j] is Ok,
{
    let mut i: usize = 0;
    while i < outcomes.len()
        invariant
            i <= outcomes@.len(),
            forall|j: int| 0 <= j < i ==> #[trigger] outcomes@[j] is Ok,
            tree.wf(),
            tree@ == old(tree)@,
            log@ == old(log)@,
            outcomes@.len() == ps@.len(),
            forall|k: int| 0 <= k < ps@.len() ==> c.valid(#[trigger] ps@[k]),
            log_ok(cleared(old(tree)@, *c, ps@), old(log)@),
        decreases outcomes@.len() - i,
    {
        match &outcomes[i] {
            Err(e) => {
                let err = e.duplicate();
                clear_packages(tree, c, ps);
                proof {
                    assert(tree@ =~= cleared(old(tree)@, *c, ps@));
                }
                rollback(tree, log);
                assert(outcomes@[i as int] == Err::<(), IoError>(err));
                return Err(err);
            },
            Ok(()) => {},
        }
        i += 1;
    }
    Ok(())
}

/// Creates the directory `path` unless it exists, logging the creation.
fn ensure_dir(tree: &mut FileTree, log: &mut Vec<UndoStep>, path: String)
    requires
        old(tree).wf(),
        log_ok(old(tree)@, old(log)@),
        path@.len() > 0,
        path@[0] == 'T',
    ensures
        final(tree).wf(),
        log_ok(final(tree)@, final(log)@),
        undo(final(tree)@, final(log)@) == undo(old(tree)@, old(log)@),
        final(tree)@.contains_key(path@),
        forall|x: Seq<char>| #[trigger] final(tree)@.contains_key(x) ==> old(tree)@.contains_key(x) || (x.len() > 0 && x[0] == 'T'),
        final(tree)@ == if old(tree)@.contains_key(path@) {
            old(tree)@
        } else {
            old(tree)@.insert(path@, None)
        },
{
    if tree.get(&path).is_none() {
        let created = path.clone();
        proof {
            lemma_log_create(tree@, log@, created);
        }
        tree.add_dir(path);
        log.push(UndoStep::Created { path: created });
    }
}

/// What applying `plan` does to the manifest, name by name.
pub open spec fn manifest_applied(a: VpmManifest, b: VpmManifest, plan: PendingProjectChanges, c: PackageCollection) -> bool {
    forall|n: Seq<char>|
        #![trigger b.deps_map().get(n)]
        #![trigger b.locked_map().get(n)]
        match plan.changes().get(n) {
            None => b.deps_map().get(n) == a.deps_map().get(n) && b.locked_map().get(n) == a.locked_map().get(n),
            Some(PackageChange::Remove(_)) => b.deps_map().get(n) is None && b.locked_map().get(n) is None,
            Some(PackageChange::Install(i)) => {
                &&& b.deps_map().get(n) == match i.to_dependencies {
                    Some(r) => Some(r),
                    None => a.deps_map().get(n),
                }
                &&& if i.add_to_locked && i.package is Some {
                    b.locked_map().contains_key(n) && b.locked_map()[n].version == c.spec_get(i.package->Some_0).version
                        && b.locked_map()[n].dependencies@ == c.spec_get(i.package->Some_0).vpm_dependencies@
                } else {
                    b.locked_map().get(n) == a.locked_map().get(n)
                }
            },
        }
}

fn clone_dependencies(v: &Vec<(String, DependencyRange)>) -> (r: Vec<(String, DependencyRange)>)
    ensures
        r@ == v@,
{
    let mut r: Vec<(String, DependencyRange)> = Vec::new();
    let mut i: usize = 0;
    while i < v.len()
        invariant
            i <= v@.len(),
            r@ == v@.take(i as int),
        decreases v@.len() - i,
    {
        r.push((v[i].0.clone(), v[i].1));
        proof {
            assert(v@.take(i + 1) =~= v@.take(i as int).push(v@[i as int]));
        }
        i += 1;
    }
    proof {
        assert(v@.take(v@.len() as int) =~= v@);
    }
    r
}

/// Writes the plan into the manifest: locked packages and dependency entries of
/// installs, then removal of removed packages.
fn apply_manifest(m: &mut VpmManifest, c: &PackageCollection, plan: &PendingProjectChanges)
    requires
        old(m).wf(),
        plan.wf(),
        plan_consistent(*plan, *c),
    ensures
        final(m).wf(),
        manifest_applied(*old(m), *final(m), *plan, *c),
{
    let ghost pc = plan.package_changes@;
    let ghost a = *m;
    let mut removed: Vec<String> = Vec::new();
    let mut i: usize = 0;
    while i < plan.package_changes.len()
        invariant
            i <= pc.len(),
            pc == plan.package_changes@,
            plan.wf(),
            plan_consistent(*plan, *c),
            m.wf(),
            forall|x: Seq<char>| #[trigger] names(removed@).contains(x) == exists|k: int| 0 <= k < i && #[trigger] pc[k].0@ == x && pc[k].1 is Remove,
            forall|x: Seq<char>|
                #![trigger m.deps_map().get(x)]
                #![trigger m.locked_map().get(x)]
                !(exists|k: int| 0 <= k < i && #[trigger] pc[k].0@ == x) ==> m.deps_map().get(x) == a.deps_map().get(x) && m.locked_map().get(x) == a.locked_map().get(x),
            forall|k: int|
                #![trigger pc[k]]
                0 <= k < i ==> match pc[k].1 {
                    PackageChange::Remove(_) => m.deps_map().get(pc[k].0@) == a.deps_map().get(pc[k].0@) && m.locked_map().get(pc[k].0@) == a.locked_map().get(pc[k].0@),
                    PackageChange::Install(ins) => {
                        &&& m.deps_map().get(pc[k].0@) == match ins.to_dependencies {
                            Some(r) => Some(r),
                            None => a.deps_map().get(pc[k].0@),
                        }
                        &&& if ins.add_to_locked && ins.package is Some {
                            m.locked_map().contains_key(pc[k].0@) && m.locked_map()[pc[k].0@].version == c.spec_get(ins.package->Some_0).version
                                && m.locked_map()[pc[k].0@].dependencies@ == c.spec_get(ins.package->Some_0).vpm_dependencies@
                        } else {
                            m.locked_map().get(pc[k].0@) == a.locked_map().get(pc[k].0@)
                        }
                    },
                },
        decreases pc.len() - i,
    {
        let ghost before = *m;
        let ghost key = pc[i as int].0@;
        match plan.package_changes[i].1 {
            PackageChange::Install(ins) => {
                match ins.package {
                    Some(p) => {
                        if ins.add_to_locked {
                            let pkg = c.get(p);
                            m.add_locked(pkg.name.clone(), pkg.version, clone_dependencies(&pkg.vpm_dependencies));
                        }
                    },
                    None => {},
                }
                match ins.to_dependencies {
                    Some(r) => {
                        m.add_dependency(plan.package_changes[i].0.clone(), r);
                    },
                    None => {},
                }
            },
            PackageChange::Remove(_) => {
                let ghost rb = removed@;
                let name = plan.package_changes[i].0.clone();
                removed.push(name);
                proof {
                    crate::assoc::lemma_names_push(rb, name);
                }
            },
        }
        proof {
            assert forall|x: Seq<char>| x != key implies m.deps_map().get(x) == before.deps_map().get(x) && m.locked_map().get(x) == before.locked_map().get(x) by {}
            assert forall|k: int| 0 <= k < i implies pc[k].0@ != key by {
                if pc[k].0@ == key {
                    assert(pc[k].0@ == pc[i as int].0@);
                }
            }
        }
        i += 1;
    }
    let ghost mid = *m;
    m.remove_packages(&removed);
    proof {
        let b = *m;
        assert forall|n: Seq<char>| #[trigger] names(removed@).to_set().contains(n) == (plan.changes().contains_key(n) && plan.changes()[n] is Remove) by {
            if names(removed@).contains(n) {
                let k = choose|k: int| 0 <= k < pc.len() && #[trigger] pc[k].0@ == n && pc[k].1 is Remove;
                lemma_value_at(pc, k);
            }
            if plan.changes().contains_key(n) && plan.changes()[n] is Remove {
                let k = choose|k: int| 0 <= k < pc.len() && #[trigger] pc[k].0@ == n;
                lemma_value_at(pc, k);
            }
        }
        assert forall|n: Seq<char>| #![trigger b.deps_map().get(n)] #![trigger b.locked_map().get(n)]
            match plan.changes().get(n) {
                None => b.deps_map().get(n) == a.deps_map().get(n) && b.locked_map().get(n) == a.locked_map().get(n),
                Some(PackageChange::Remove(_)) => b.deps_map().get(n) is None && b.locked_map().get(n) is None,
                Some(PackageChange::Install(ins)) => {
                    &&& b.deps_map().get(n) == match ins.to_dependencies {
                        Some(r) => Some(r),
                        None => a.deps_map().get(n),
                    }
                    &&& if ins.add_to_locked && ins.package is Some {
                        b.locked_map().contains_key(n) && b.locked_map()[n].version == c.spec_get(ins.package->Some_0).version
                            && b.locked_map()[n].dependencies@ == c.spec_get(ins.package->Some_0).vpm_dependencies@
                    } else {
                        b.locked_map().get(n) == a.locked_map().get(n)
                    }
                },
            } by {
            let rs = names(removed@).to_set();
            if plan.changes().contains_key(n) {
                let k = choose|k: int| 0 <= k < pc.len() && #[trigger] pc[k].0@ == n;
                lemma_value_at(pc, k);
                if pc[k].1 is Remove {
                    assert(rs.contains(n));
                    assert(!b.deps_map().contains_key(n));
                    assert(!b.locked_map().contains_key(n));
                } else {
                    assert(!rs.contains(n));
                    assert(b.deps_map().get(n) == mid.deps_map().get(n));
                    assert(b.locked_map().get(n) == mid.locked_map().get(n));
                    if b.locked_map().contains_key(n) {
                        assert(b.locked_map()[n] == mid.locked_map()[n]);
                    }
                }
            } else {
                assert(!rs.contains(n));
                assert(b.deps_map().get(n) == mid.deps_map().get(n));
                assert(b.locked_map().get(n) == mid.locked_map().get(n));
                assert(!(exists|k: int| 0 <= k < pc.len() && #[trigger] pc[k].0@ == n)) by {
                    if exists|k: int| 0 <= k < pc.len() && #[trigger] pc[k].0@ == n {
                        let k = choose|k: int| 0 <= k < pc.len() && #[trigger] pc[k].0@ == n;
                        lemma_value_at(pc, k);
                    }
                }
            }
        }
    }
}

pub open spec fn meta_of(p: Seq<char>) -> Seq<char> {
    p + seq!['.', 'm', 'e', 't', 'a']
}

fn meta_path(p: &String) -> (r: String)
    ensures
        r@ == meta_of(p@),
{
    let suffix = ".meta";
    proof {
        reveal_strlit(".meta");
    }
    let r = p.clone().concat(suffix);
    assert(r@ =~= meta_of(p@));
    r
}

/// `x` is the legacy file `f` or its sidecar.
pub open spec fn hits_file(f: Seq<char>, x: Seq<char>) -> bool {
    x == f || x == meta_of(f)
}

/// `x` lies at or inside the legacy folder `f`, or is its sidecar.
pub open spec fn hits_folder(f: Seq<char>, x: Seq<char>) -> bool {
    under(x, f) || x == meta_of(f)
}

/// `x` is one of the legacy assets (or their sidecars) that a plan deletes.
pub open spec fn legacy_target(files: Seq<(String, String)>, folders: Seq<(String, String)>, x: Seq<char>) -> bool {
    (exists|k: int| 0 <= k < files.len() && #[trigger] hits_file(files[k].0@, x)) || (exists|k: int|
        0 <= k < folders.len() && #[trigger] hits_folder(folders[k].0@, x))
}

/// Deletes the legacy files and folders, each with its `.meta` sidecar, and nothing else.
fn remove_legacy_assets(tree: &mut FileTree, files: &Vec<(String, String)>, folders: &Vec<(String, String)>)
    requires
        old(tree).wf(),
    ensures
        final(tree).wf(),
        forall|x: Seq<char>| #[trigger] final(tree)@.contains_key(x) == (old(tree)@.contains_key(x) && !legacy_target(files@, folders@, x)),
        forall|x: Seq<char>| #[trigger] final(tree)@.contains_key(x) ==> final(tree)@[x] == old(tree)@[x],
{
    let mut i: usize = 0;
    while i < files.len()
        invariant
            i <= files@.len(),
            tree.wf(),
            forall|x: Seq<char>| #[trigger] tree@.contains_key(x) == (old(tree)@.contains_key(x) && !exists|k: int| 0 <= k < i && #[trigger] hits_file(files@[k].0@, x)),
            forall|x: Seq<char>| #[trigger] tree@.contains_key(x) ==> tree@[x] == old(tree)@[x],
        decreases files@.len() - i,
    {
        let ghost before = tree@;
        tree.remove_entry(&files[i].0);
        let meta = meta_path(&files[i].0);
        tree.remove_entry(&meta);
        proof {
            assert forall|x: Seq<char>| #[trigger] tree@.contains_key(x) == (old(tree)@.contains_key(x) && !exists|k: int| 0 <= k < i + 1 && #[trigger] hits_file(files@[k].0@, x)) by {
                if exists|k: int| 0 <= k < i + 1 && #[trigger] hits_file(files@[k].0@, x) {
                    let k = choose|k: int| 0 <= k < i + 1 && #[trigger] hits_file(files@[k].0@, x);
                    if k < i {
                        assert(!before.contains_key(x));
                    }
                } else {
                    assert(!exists|k: int| 0 <= k < i && #[trigger] hits_file(files@[k].0@, x)) by {
                        if exists|k: int| 0 <= k < i && #[trigger] hits_file(files@[k].0@, x) {
                            let k = choose|k: int| 0 <= k < i && #[trigger] hits_file(files@[k].0@, x);
                            assert(0 <= k < i + 1 && hits_file(files@[k].0@, x));
                        }
                    }
                    assert(!hits_file(files@[i as int].0@, x)) by {
                        if hits_file(files@[i as int].0@, x) {
                            assert(0 <= i < i + 1 && hits_file(files@[i as int].0@, x));
                        }
                    }
                }
            }
        }
        i += 1;
    }
    let ghost mid = tree@;
    let mut i: usize = 0;
    while i < folders.len()
        invariant
            i <= folders@.len(),
            tree.wf(),
            forall|x: Seq<char>| #[trigger] mid.contains_key(x) == (old(tree)@.contains_key(x) && !exists|k: int| 0 <= k < files@.len() && #[trigger] hits_file(files@[k].0@, x)),
            forall|x: Seq<char>| #[trigger] tree@.contains_key(x) == (mid.contains_key(x) && !exists|k: int| 0 <= k < i && #[trigger] hits_folder(folders@[k].0@, x)),
            forall|x: Seq<char>| #[trigger] tree@.contains_key(x) ==> tree@[x] == old(tree)@[x],
        decreases folders@.len() - i,
    {
        let ghost before = tree@;
        tree.remove_under(&folders[i].0);
        let meta = meta_path(&folders[i].0);
        tree.remove_entry(&meta);
        proof {
            assert forall|x: Seq<char>| #[trigger] tree@.contains_key(x) == (mid.contains_key(x) && !exists|k: int| 0 <= k < i + 1 && #[trigger] hits_folder(folders@[k].0@, x)) by {
                if exists|k: int| 0 <= k < i + 1 && #[trigger] hits_folder(folders@[k].0@, x) {
                    let k = choose|k: int| 0 <= k < i + 1 && #[trigger] hits_folder(folders@[k].0@, x);
                    if k < i {
                        assert(!before.contains_key(x));
                    }
                } else {
                    assert(!exists|k: int| 0 <= k < i && #[trigger] hits_folder(folders@[k].0@, x)) by {
                        if exists|k: int| 0 <= k < i && #[trigger] hits_folder(folders@[k].0@, x) {
                            let k = choose|k: int| 0 <= k < i && #[trigger] hits_folder(folders@[k].0@, x);
                            assert(0 <= k < i + 1 && hits_folder(folders@[k].0@, x));
                        }
                    }
                    assert(!hits_folder(folders@[i as int].0@, x)) by {
                        if hits_folder(folders@[i as int].0@, x) {
                            assert(0 <= i < i + 1 && hits_folder(folders@[i as int].0@, x));
                        }
                    }
                }
            }
            assert forall|x: Seq<char>| #[trigger] tree@.contains_key(x) implies tree@[x] == old(tree)@[x] by {
                assert(before.contains_key(x));
            }
        }
        i += 1;
    }
}

pub open spec fn temp_root() -> Seq<char> {
    seq!['T', 'e', 'm', 'p']
}

pub open spec fn pkg_temp_root() -> Seq<char> {
    seq!['T', 'e', 'm', 'p', '/', 'v', 'r', 'c', '-', 'g', 'e', 't']
}

impl UnityProject {
    /// Applies `plan` with the staging folder `Temp/vrc-get/<temp_id>`: moves the
    /// folders of removed and reinstalled packages aside, installs, and on success
    /// writes the manifest, drops the staging folders and deletes legacy assets.
    /// On any failure the files are restored exactly and the manifest is untouched.
    pub fn apply_pending_changes_in<I: PackageInstaller>(
        &mut self,
        installer: &I,
        c: &PackageCollection,
        plan: &PendingProjectChanges,
        temp_id: &String,
    ) -> (r: Result<(), IoError>)
        requires
            old(self).wf(),
            plan.wf(),
            plan_consistent(*plan, *c),
        ensures
            final(self).wf(),
            final(self).unlocked_packages == old(self).unlocked_packages,
            final(self).unity_version == old(self).unity_version,
            r is Err ==> final(self).files@ == old(self).files@ && final(self).manifest == old(self).manifest,
            plan_installs(plan.package_changes@).len() == 0 && (forall|n: Seq<char>|
                #[trigger] plan_removals(plan.package_changes@).contains(n) ==> empty_under(old(self).files@, pkg_dir(n)))
                ==> r is Ok,
            r is Ok ==> {
                &&& manifest_applied(old(self).manifest, final(self).manifest, *plan, *c)
                &&& empty_under(final(self).files@, pkg_temp_root())
                &&& forall|x: Seq<char>| !#[trigger] apply_touches(*plan, *c, x) ==> final(self).files@.contains_key(x) == old(self).files@.contains_key(x)
                    && (old(self).files@.contains_key(x) ==> final(self).files@[x] == old(self).files@[x])
                &&& forall|k: int, x: Seq<char>|
                    0 <= k < plan.package_changes@.len() && #[trigger] plan.package_changes@[k].1 is Remove
                        && #[trigger] final(self).files@.contains_key(x) && under(x, pkg_dir(plan.package_changes@[k].0@))
                        ==> in_installed_folder(*plan, *c, x)
                &&& forall|k: int| 0 <= k < plan.remove_legacy_files@.len() ==> !final(self).files@.contains_key(
                    #[trigger] plan.remove_legacy_files@[k].0@,
                ) && !final(self).files@.contains_key(meta_of(plan.remove_legacy_files@[k].0@))
                &&& forall|k: int| 0 <= k < plan.remove_legacy_folders@.len() ==> empty_under(
                    final(self).files@,
                    #[trigger] plan.remove_legacy_folders@[k].0@,
                ) && !final(self).files@.contains_key(meta_of(plan.remove_legacy_folders@[k].0@))
            },
    {
        let (installs, staged) = partition(plan, c);
        let temp_dir = "Temp";
        let pkg_temp_dir = "Temp/vrc-get";
        proof {
            reveal_strlit("Temp");
            reveal_strlit("Temp/vrc-get");
            reveal_strlit("Temp/vrc-get/");
            assert(temp_dir@ =~= temp_root());
            assert(pkg_temp_dir@ =~= pkg_temp_root());
        }
        let temp = String::from_str("Temp/vrc-get/").concat(temp_id.as_str());
        assert(temp@[0] == 'T');
        proof {
            assert((pkg_temp_root() + slash()) =~= temp@.subrange(0, 13));
            assert((pkg_temp_root() + slash()).is_prefix_of(temp@));
            assert(under(temp@, pkg_temp_root()));
        }
        let ghost t0 = self.files@;
        let mut log: Vec<UndoStep> = Vec::new();
        ensure_dir(&mut self.files, &mut log, String::from_str(temp_dir));
        let ghost ta = self.files@;
        ensure_dir(&mut self.files, &mut log, String::from_str(pkg_temp_dir));
        let ghost tb = self.files@;
        ensure_dir(&mut self.files, &mut log, temp.clone());
        proof {
            assert forall|x: Seq<char>| #[trigger] self.files@.contains_key(x) implies t0.contains_key(x) || (x.len() > 0 && x[0] == 'T') by {
                if !tb.contains_key(x) {
                } else if !ta.contains_key(x) {
                } else {
                }
            }
            lemma_only_temp_added(t0, self.files@);
            if plan_installs(plan.package_changes@).len() == 0 && (forall|n: Seq<char>| #[trigger] plan_removals(plan.package_changes@).contains(n) ==> empty_under(t0, pkg_dir(n))) {
                assert forall|n: Seq<char>| #[trigger] names(staged@).contains(n) implies empty_under(self.files@, pkg_dir(n)) by {
                    let k = choose|k: int| 0 <= k < names(staged@).len() && names(staged@)[k] == n;
                    assert(installs@.map_values(|p: PackageInfo| c.spec_get(p).name@).len() == 0);
                    assert(plan_removals(plan.package_changes@)[k] == n);
                    assert(plan_removals(plan.package_changes@).contains(n));
                    assert(empty_under(t0, pkg_dir(n)));
                }
            }
        }
        let ghost te = self.files@;
        match stage_all(&mut self.files, &mut log, &temp, &staged) {
            Ok(()) => {},
            Err(e) => {
                rollback(&mut self.files, &mut log);
                return Err(e);
            },
        }
        let ghost t1 = self.files@;
        let outcomes = install_all(installer, &mut self.files, c, &installs);
        proof {
            let cl = cleared(self.files@, *c, installs@);
            assert forall|x: Seq<char>| #[trigger] cl.contains_key(x) == t1.contains_key(x) by {
                if exists|k: int| 0 <= k < installs@.len() && under(x, #[trigger] pkg_dir(c.spec_get(installs@[k]).name@)) {
                    let k = choose|k: int| 0 <= k < installs@.len() && under(x, #[trigger] pkg_dir(c.spec_get(installs@[k]).name@));
                    assert(names(staged@).contains(c.spec_get(installs@[k]).name@));
                    assert(empty_under(t1, pkg_dir(c.spec_get(installs@[k]).name@)));
                }
            }
            assert(cl =~= t1);
        }
        match finish_installs(&mut self.files, &mut log, c, &installs, &outcomes) {
            Ok(()) => {},
            Err(e) => {
                return Err(e);
            },
        }
        let ghost t2 = self.files@;
        proof {
            assert forall|k: int, x: Seq<char>|
                0 <= k < plan.package_changes@.len() && #[trigger] plan.package_changes@[k].1 is Remove
                    && #[trigger] t2.contains_key(x) && under(x, pkg_dir(plan.package_changes@[k].0@))
                    implies in_installed_folder(*plan, *c, x) by {
                let n = plan.package_changes@[k].0@;
                assert(names(staged@).contains(n));
                assert(empty_under(t1, pkg_dir(n)));
                if forall|j: int| 0 <= j < installs@.len() ==> !under(x, #[trigger] pkg_dir(c.spec_get(installs@[j]).name@)) {
                    assert(t1.contains_key(x) == t2.contains_key(x));
                } else {
                    let j = choose|j: int| 0 <= j < installs@.len() && under(x, #[trigger] pkg_dir(c.spec_get(installs@[j]).name@));
                    assert(installed_by(*plan, installs@[j]));
                    let j2 = choose|j2: int|
                        0 <= j2 < plan.package_changes@.len() && #[trigger] plan.package_changes@[j2].1 == PackageChange::Install(
                            Install { package: Some(installs@[j]), ..plan.package_changes@[j2].1->Install_0 },
                        );
                    assert(plan.package_changes@[j2].1 is Install);
                }
            }
        }
        let ghost t2b = self.files@;
        self.files.remove_under(&temp);
        let ghost t2c = self.files@;
        self.files.remove_under(&String::from_str(pkg_temp_dir));
        let temp_dir_s = String::from_str(temp_dir);
        let left = self.files.paths_under(&temp_dir_s);
        if left.len() == 1 {
            self.files.remove_entry(&temp_dir_s);
        }
        let ghost t3 = self.files@;
        apply_manifest(&mut self.manifest, c, plan);
        remove_legacy_assets(&mut self.files, &plan.remove_legacy_files, &plan.remove_legacy_folders);
        proof {
            let lf = plan.remove_legacy_files@;
            let ld = plan.remove_legacy_folders@;
            assert forall|x: Seq<char>| !#[trigger] apply_touches(*plan, *c, x) implies self.files@.contains_key(x) == t0.contains_key(x)
                && (t0.contains_key(x) ==> self.files@[x] == t0[x]) by {
                assert forall|k: int| 0 <= k < staged@.len() implies !under(x, #[trigger] pkg_dir(staged@[k]@)) by {
                    let rm = plan_removals(plan.package_changes@);
                    let ins = installs@.map_values(|p: PackageInfo| c.spec_get(p).name@);
                    assert(names(staged@)[k] == staged@[k]@);
                    if k < rm.len() {
                        assert(staged@[k]@ == rm[k]);
                    } else {
                        assert(staged@[k]@ == ins[k - rm.len()]);
                        assert(ins[k - rm.len()] == c.spec_get(plan_installs(plan.package_changes@)[k - rm.len()]).name@);
                    }
                }
                assert(!under(x, pkg_temp_root()));
                assert(x != temp_root());
                assert(x != pkg_temp_root());
                assert(x != temp@);
                assert(te.contains_key(x) == t0.contains_key(x) && (t0.contains_key(x) ==> te[x] == t0[x]));
                assert(t1.contains_key(x) == te.contains_key(x) && (te.contains_key(x) ==> t1[x] == te[x]));
                assert forall|j: int| 0 <= j < installs@.len() implies !under(x, #[trigger] pkg_dir(c.spec_get(installs@[j]).name@)) by {
                    assert(names(staged@).contains(c.spec_get(installs@[j]).name@));
                    let k = choose|k: int| 0 <= k < names(staged@).len() && names(staged@)[k] == c.spec_get(installs@[j]).name@;
                    assert(!under(x, pkg_dir(staged@[k]@)));
                }
                assert(t2.contains_key(x) == t1.contains_key(x));
                assert(!under(x, temp@)) by {
                    if under(x, temp@) {
                        if x != temp@ {
                            lemma_prefix_trans(temp@, temp@ + slash(), x);
                        }
                        lemma_prefix_trans(pkg_temp_root() + slash(), temp@, x);
                    }
                }
                assert(t2c.contains_key(x) == t2.contains_key(x));
                assert(t3.contains_key(x) == t2.contains_key(x));
                assert(!legacy_target(plan.remove_legacy_files@, plan.remove_legacy_folders@, x));
                assert(self.files@.contains_key(x) == t3.contains_key(x));
                if t0.contains_key(x) {
                    assert(t1[x] == te[x]);
                    assert(t2[x] == t1[x]);
                    assert(t2c[x] == t2[x]);
                    assert(t3[x] == t2[x]);
                    assert(self.files@[x] == t3[x]);
                }
            }
            assert forall|k: int| 0 <= k < lf.len() implies !self.files@.contains_key(#[trigger] lf[k].0@) && !self.files@.contains_key(meta_of(lf[k].0@)) by {
                assert(hits_file(lf[k].0@, lf[k].0@));
                assert(hits_file(lf[k].0@, meta_of(lf[k].0@)));
            }
            assert forall|k: int| 0 <= k < ld.len() implies empty_under(self.files@, #[trigger] ld[k].0@) && !self.files@.contains_key(meta_of(ld[k].0@)) by {
                assert forall|x: Seq<char>| #[trigger] self.files@.contains_key(x) implies !under(x, ld[k].0@) by {
                    if under(x, ld[k].0@) {
                        assert(hits_folder(ld[k].0@, x));
                    }
                }
                assert(hits_folder(ld[k].0@, meta_of(ld[k].0@)));
            }
            assert forall|x: Seq<char>| #[trigger] self.files@.contains_key(x) implies !under(x, pkg_temp_root()) by {
                assert(t3.contains_key(x));
            }
            assert forall|x: Seq<char>| #[trigger] self.files@.contains_key(x) implies t2.contains_key(x) by {
                assert(t3.contains_key(x));
            }
        }
        Ok(())
    }
}

/// Relies on uuid::Uuid::new_v4 and its `Display`: a fresh random identifier for
/// the staging folder. Nothing is known of its value.
#[verifier::external_body]
fn new_temp_id() -> String {
    uuid::Uuid::new_v4().to_string()
}

impl UnityProject {
    /// Applies `plan` transactionally, staging under a fresh random folder of `Temp/vrc-get`.
    pub fn apply_pending_changes<I: PackageInstaller>(
        &mut self,
        installer: &I,
        c: &PackageCollection,
        plan: &PendingProjectChanges,
    ) -> (r: Result<(), IoError>)
        requires
            old(self).wf(),
            plan.wf(),
            plan_consistent(*plan, *c),
        ensures
            final(self).wf(),
            final(self).unlocked_packages == old(self).unlocked_packages,
            final(self).unity_version == old(self).unity_version,
            r is Err ==> final(self).files@ == old(self).files@ && final(self).manifest == old(self).manifest,
            plan_installs(plan.package_changes@).len() == 0 && (forall|n: Seq<char>|
                #[trigger] plan_removals(plan.package_changes@).contains(n) ==> empty_under(old(self).files@, pkg_dir(n)))
                ==> r is Ok,
            r is Ok ==> {
                &&& manifest_applied(old(self).manifest, final(self).manifest, *plan, *c)
                &&& empty_under(final(self).files@, pkg_temp_root())
                &&& forall|x: Seq<char>| !#[trigger] apply_touches(*plan, *c, x) ==> final(self).files@.contains_key(x) == old(self).files@.contains_key(x)
                    && (old(self).files@.contains_key(x) ==> final(self).files@[x] == old(self).files@[x])
                &&& forall|k: int, x: Seq<char>|
                    0 <= k < plan.package_changes@.len() && #[trigger] plan.package_changes@[k].1 is Remove
                        && #[trigger] final(self).files@.contains_key(x) && under(x, pkg_dir(plan.package_changes@[k].0@))
                        ==> in_installed_folder(*plan, *c, x)
                &&& forall|k: int| 0 <= k < plan.remove_legacy_files@.len() ==> !final(self).files@.contains_key(
                    #[trigger] plan.remove_legacy_files@[k].0@,
                ) && !final(self).files@.contains_key(meta_of(plan.remove_legacy_files@[k].0@))
                &&& forall|k: int| 0 <= k < plan.remove_legacy_folders@.len() ==> empty_under(
                    final(self).files@,
                    #[trigger] plan.remove_legacy_folders@[k].0@,
                ) && !final(self).files@.contains_key(meta_of(plan.remove_legacy_folders@[k].0@))
            },
    {
        let id = new_temp_id();
        self.apply_pending_changes_in(installer, c, plan, &id)
    }
}

/// Whether every install of `plan` carries a package of `c` stored under its own name.
pub fn is_plan_consistent(plan: &PendingProjectChanges, c: &PackageCollection) -> (r: bool)
    ensures
        r == plan_consistent(*plan, *c),
{
    let mut i: usize = 0;
    while i < plan.package_changes.len()
        invariant
            i <= plan.package_changes@.len(),
            forall|k: int|
                0 <= k < i && #[trigger] plan.package_changes@[k].1 is Install
                    && plan.package_changes@[k].1->Install_0.package is Some ==> c.valid(
                    plan.package_changes@[k].1->Install_0.package->Some_0,
                ) && c.spec_get(plan.package_changes@[k].1->Install_0.package->Some_0).name@ == plan.package_changes@[k].0@,
        decreases plan.package_changes@.len() - i,
    {
        match plan.package_changes[i].1 {
            PackageChange::Install(Install { package: Some(p), .. }) => {
                if p.index >= c.packages.len() || c.packages[p.index].name != plan.package_changes[i].0 {
                    return false;
                }
            },
            _ => {},
        }
        i += 1;
    }
    true
}

} // verus!
