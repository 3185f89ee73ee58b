use vstd::prelude::*;
use vstd::string::*;
use crate::fs::FileTree;
use crate::package::{PackageCollection, PackageInfo, PackageManifest};
use crate::resolve::all_valid;

verus! {

/// Declared legacy paths may use `\` as separator; the tree uses `/`.
pub open spec fn norm_char(c: char) -> char {
    if c == '\\' {
        '/'
    } else {
        c
    }
}

pub open spec fn normalize(s: Seq<char>) -> Seq<char> {
    s.map_values(|c: char| norm_char(c))
}

pub open spec fn assets_root() -> Seq<char> {
    seq!['A', 's', 's', 'e', 't', 's', '/']
}

pub open spec fn packages_root() -> Seq<char> {
    seq!['P', 'a', 'c', 'k', 'a', 'g', 'e', 's', '/']
}

/// The component starting at `j` is `.` or `..`.
pub open spec fn dot_component(t: Seq<char>, j: int) -> bool {
    t[j] == '.' && (j + 1 == t.len() || t[j + 1] == '/' || (t[j + 1] == '.' && (j + 2 == t.len() || t[j
        + 2] == '/')))
}

/// The separator at `i` ends the path, doubles another, or opens a `.` or `..` component.
pub open spec fn bad_separator(t: Seq<char>, i: int) -> bool {
    i + 1 == t.len() || t[i + 1] == '/' || dot_component(t, i + 1)
}

/// A relative path inside `Assets/` or `Packages/` whose components are all
/// ordinary names: never absolute, never climbing out with `..`.
pub open spec fn safe_path(t: Seq<char>) -> bool {
    &&& (assets_root().is_prefix_of(t) || packages_root().is_prefix_of(t))
    &&& forall|i: int| 0 <= i < t.len() && t[i] == '/' ==> !#[trigger] bad_separator(t, i)
}

pub open spec fn meta_suffix() -> Seq<char> {
    seq!['.', 'm', 'e', 't', 'a']
}

pub open spec fn is_meta_path(p: Seq<char>) -> bool {
    meta_suffix().is_suffix_of(p)
}

/// The asset that a `.meta` sidecar describes.
pub open spec fn strip_meta(p: Seq<char>) -> Seq<char> {
    p.subrange(0, p.len() - 5)
}

/// The bytes of `guid: `.
pub open spec fn guid_tag() -> Seq<u8> {
    seq![103u8, 117u8, 105u8, 100u8, 58u8, 32u8]
}

/// `content` holds `guid: ` followed by `g` at byte `k`.
pub open spec fn guid_at(content: Seq<u8>, k: int, g: Seq<char>) -> bool {
    &&& 0 <= k
    &&& k + 6 + g.len() <= content.len()
    &&& content.subrange(k, k + 6) == guid_tag()
    &&& forall|i: int| 0 <= i < g.len() ==> #[trigger] content[k + 6 + i] as u32 == g[i] as u32
}

pub open spec fn has_guid(content: Seq<u8>, g: Seq<char>) -> bool {
    exists|k: int| #[trigger] guid_at(content, k, g)
}

/// A directory is wanted and the entry is one, or a file is wanted and the entry is one.
pub open spec fn kind_ok(e: Option<Vec<u8>>, want_dir: bool) -> bool {
    want_dir == e.is_none()
}

pub open spec fn present(t: Seq<(String, Option<Vec<u8>>)>, a: Seq<char>, want_dir: bool) -> bool {
    exists|k: int| 0 <= k < t.len() && #[trigger] t[k].0@ == a && kind_ok(t[k].1, want_dir)
}

/// Entry `k` is the declared path itself.
pub open spec fn path_hit(t: Seq<(String, Option<Vec<u8>>)>, k: int, d: Seq<char>, want_dir: bool) -> bool {
    &&& 0 <= k < t.len()
    &&& t[k].0@ == normalize(d)
    &&& kind_ok(t[k].1, want_dir)
    &&& safe_path(normalize(d))
}

/// Entry `k` is a sidecar recording GUID `g` for a safe asset of the wanted kind
/// (whose path uses `/` only).
pub open spec fn guid_hit(t: Seq<(String, Option<Vec<u8>>)>, k: int, g: Seq<char>, want_dir: bool) -> bool {
    &&& 0 <= k < t.len()
    &&& g.len() > 0
    &&& t[k].1 is Some
    &&& is_meta_path(t[k].0@)
    &&& has_guid(t[k].1->Some_0@, g)
    &&& normalize(strip_meta(t[k].0@)) == strip_meta(t[k].0@)
    &&& safe_path(strip_meta(t[k].0@))
    &&& present(t, strip_meta(t[k].0@), want_dir)
}

pub open spec fn first_guid_hit(t: Seq<(String, Option<Vec<u8>>)>, k: int, g: Seq<char>, want_dir: bool) -> bool {
    guid_hit(t, k, g, want_dir) && forall|j: int| 0 <= j < k ==> !#[trigger] guid_hit(t, j, g, want_dir)
}

/// Where a declared legacy asset `(d, g)` stands in the tree: at its declared
/// path, else at the asset whose sidecar records its GUID, else nowhere.
pub open spec fn resolve_legacy(t: Seq<(String, Option<Vec<u8>>)>, d: Seq<char>, g: Seq<char>, want_dir: bool) -> Option<
    Seq<char>,
> {
    if exists|k: int| #[trigger] path_hit(t, k, d, want_dir) {
        Some(normalize(d))
    } else if exists|k: int| #[trigger] first_guid_hit(t, k, g, want_dir) {
        Some(strip_meta(t[choose|k: int| first_guid_hit(t, k, g, want_dir)].0@))
    } else {
        None
    }
}

fn norm(c: char) -> (r: char)
    ensures
        r == norm_char(c),
{
    if c == '\\' {
        '/'
    } else {
        c
    }
}

/// Whether the path `e` is the declared path `d` with `/` for `\`.
fn same_path(e: &str, d: &str) -> (r: bool)
    ensures
        r == (e@ == normalize(d@)),
{
    let n = d.unicode_len();
    if e.unicode_len() != n {
        return false;
    }
    let mut i: usize = 0;
    while i < n
        invariant
            n == d@.len(),
            n == e@.len(),
            i <= n,
            forall|k: int| 0 <= k < i ==> e@[k] == norm_char(d@[k]),
        decreases n - i,
    {
        if e.get_char(i) != norm(d.get_char(i)) {
            assert(e@[i as int] != normalize(d@)[i as int]);
            return false;
        }
        i += 1;
    }
    assert(e@ =~= normalize(d@));
    true
}

/// Whether the normalized `d` starts with the characters of `root`.
fn starts_with_norm(d: &str, root: &str) -> (r: bool)
    ensures
        r == root@.is_prefix_of(normalize(d@)),
{
    let n = root.unicode_len();
    if d.unicode_len() < n {
        return false;
    }
    let mut i: usize = 0;
    while i < n
        invariant
            n == root@.len(),
            n <= d@.len(),
            i <= n,
            forall|k: int| 0 <= k < i ==> root@[k] == norm_char(d@[k]),
        decreases n - i,
    {
        if root.get_char(i) != norm(d.get_char(i)) {
            assert(root@[i as int] != normalize(d@)[i as int]);
            return false;
        }
        i += 1;
    }
    assert(root@ =~= normalize(d@).subrange(0, n as int));
    true
}

/// Whether the declared path, once normalized, is a safe project path.
pub fn is_safe_declared(d: &str) -> (r: bool)
    ensures
        r == safe_path(normalize(d@)),
{
    let assets = "Assets/";
    let packages = "Packages/";
    proof {
        reveal_strlit("Assets/");
        reveal_strlit("Packages/");
        assert(assets@ =~= assets_root());
        assert(packages@ =~= packages_root());
    }
    if !starts_with_norm(d, assets) && !starts_with_norm(d, packages) {
        return false;
    }
    let ghost t = normalize(d@);
    let n = d.unicode_len();
    let mut i: usize = 0;
    while i < n
        invariant
            n == d@.len(),
            t == normalize(d@),
            i <= n,
            forall|k: int| 0 <= k < i && t[k] == '/' ==> !#[trigger] bad_separator(t, k),
        decreases n - i,
    {
        if norm(d.get_char(i)) == '/' {
            let bad = if i + 1 == n {
                true
            } else {
                let c1 = norm(d.get_char(i + 1));
                if c1 == '/' {
                    true
                } else if c1 == '.' {
                    if i + 2 == n {
                        true
                    } else {
                        let c2 = norm(d.get_char(i + 2));
                        if c2 == '/' {
                            true
                        } else if c2 == '.' {
                            i + 3 == n || norm(d.get_char(i + 3)) == '/'
                        } else {
                            false
                        }
                    }
                } else {
                    false
                }
            };
            assert(bad == bad_separator(t, i as int));
            if bad {
                return false;
            }
        }
        i += 1;
    }
    true
}

/// Whether `p` names a `.meta` sidecar.
fn is_meta(p: &str) -> (r: bool)
    ensures
        r == is_meta_path(p@),
{
    let suffix = ".meta";
    proof {
        reveal_strlit(".meta");
        assert(suffix@ =~= meta_suffix());
    }
    let n = p.unicode_len();
    if n < 5 {
        return false;
    }
    let mut i: usize = 0;
    while i < 5
        invariant
            n == p@.len(),
            n >= 5,
            i <= 5,
            suffix@ == meta_suffix(),
            forall|k: int| 0 <= k < i ==> p@[n - 5 + k] == meta_suffix()[k],
        decreases 5 - i,
    {
        if p.get_char(n - 5 + i) != suffix.get_char(i) {
            return false;
        }
        i += 1;
    }
    assert(meta_suffix() =~= p@.subrange(n - 5, n as int));
    true
}

/// Whether `content` records the GUID `g`.
fn content_has_guid(content: &Vec<u8>, g: &str) -> (r: bool)
    ensures
        r == has_guid(content@, g@),
{
    let gl = g.unicode_len();
    let cl = content.len();
    if cl < 6 || cl - 6 < gl {
        assert forall|k: int| !#[trigger] guid_at(content@, k, g@) by {}
        return false;
    }
    let last = cl - 6 - gl;
    let mut k: usize = 0;
    while k <= last
        invariant
            gl == g@.len(),
            cl == content@.len(),
            last + 6 + gl == cl,
            forall|x: int| 0 <= x < k ==> !#[trigger] guid_at(content@, x, g@),
        decreases last + 1 - k,
    {
        let tag = content[k] == 103u8 && content[k + 1] == 117u8 && content[k + 2] == 105u8
            && content[k + 3] == 100u8 && content[k + 4] == 58u8 && content[k + 5] == 32u8;
        assert(tag == (content@.subrange(k as int, k + 6) == guid_tag())) by {
            if content@.subrange(k as int, k + 6) == guid_tag() {
                assert(content@.subrange(k as int, k + 6)[0] == content@[k as int]);
                assert(content@.subrange(k as int, k + 6)[1] == content@[k + 1]);
                assert(content@.subrange(k as int, k + 6)[2] == content@[k + 2]);
                assert(content@.subrange(k as int, k + 6)[3] == content@[k + 3]);
                assert(content@.subrange(k as int, k + 6)[4] == content@[k + 4]);
                assert(content@.subrange(k as int, k + 6)[5] == content@[k + 5]);
            }
            if tag {
                assert(content@.subrange(k as int, k + 6) =~= guid_tag());
            }
        }
        if tag {
            let mut i: usize = 0;
            let mut all = true;
            while i < gl
                invariant
                    gl == g@.len(),
                    cl == content@.len(),
                    k + 6 + gl == cl || k + 6 + gl < cl,
                    k + 6 + gl <= cl,
                    i <= gl,
                    all == forall|y: int| 0 <= y < i ==> #[trigger] content@[k + 6 + y] as u32 == g@[y] as u32,
                decreases gl - i,
            {
                if content[k + 6 + i] as u32 != g.get_char(i) as u32 {
                    all = false;
                }
                i += 1;
            }
            if all {
                assert(guid_at(content@, k as int, g@));
                return true;
            }
        }
        k += 1;
    }
    assert forall|x: int| !#[trigger] guid_at(content@, x, g@) by {
        if 0 <= x && x < k {
        }
    }
    false
}

fn find_present(t: &Vec<(String, Option<Vec<u8>>)>, a: &String, want_dir: bool) -> (r: bool)
    ensures
        r == present(t@, a@, want_dir),
{
    let mut k: usize = 0;
    while k < t.len()
        invariant
            k <= t@.len(),
            forall|j: int| 0 <= j < k ==> !(#[trigger] t@[j].0@ == a@ && kind_ok(t@[j].1, want_dir)),
        decreases t@.len() - k,
    {
        if t[k].0 == *a && t[k].1.is_none() == want_dir {
            return true;
        }
        k += 1;
    }
    false
}

/// Finds where the declared legacy asset `(d, g)` stands in the tree.
pub fn resolve_legacy_asset(tree: &FileTree, d: &String, g: &String, want_dir: bool) -> (r: Option<String>)
    ensures
        match r {
            Some(p) => resolve_legacy(tree.entries@, d@, g@, want_dir) == Some(p@),
            None => resolve_legacy(tree.entries@, d@, g@, want_dir) is None,
        },
{
    let t = &tree.entries;
    let safe = is_safe_declared(d.as_str());
    let mut k: usize = 0;
    while k < t.len()
        invariant
            k <= t@.len(),
            *t == tree.entries,
            safe == safe_path(normalize(d@)),
            forall|j: int| 0 <= j < k ==> !#[trigger] path_hit(t@, j, d@, want_dir),
        decreases t@.len() - k,
    {
        if safe && same_path(t[k].0.as_str(), d.as_str()) && t[k].1.is_none() == want_dir {
            assert(path_hit(t@, k as int, d@, want_dir));
            return Some(t[k].0.clone());
        }
        k += 1;
    }
    assert(!exists|j: int| #[trigger] path_hit(t@, j, d@, want_dir));
    if g.unicode_len() == 0 {
        assert(!exists|j: int| #[trigger] first_guid_hit(t@, j, g@, want_dir));
        return None;
    }
    let mut k: usize = 0;
    while k < t.len()
        invariant
            k <= t@.len(),
            *t == tree.entries,
            g@.len() > 0,
            forall|j: int| !#[trigger] path_hit(t@, j, d@, want_dir),
            forall|j: int| 0 <= j < k ==> !#[trigger] guid_hit(t@, j, g@, want_dir),
        decreases t@.len() - k,
    {
        let e = &t[k];
        match &e.1 {
            Some(content) => {
                let name = e.0.as_str();
                if is_meta(name) && content_has_guid(content, g.as_str()) {
                    let n = name.unicode_len();
                    let asset = name.substring_char(0, n - 5).to_owned();
                    if same_path(asset.as_str(), asset.as_str()) && is_safe_declared(asset.as_str())
                        && find_present(t, &asset, want_dir) {
                        proof {
                            assert(asset@ == strip_meta(t@[k as int].0@));
                            assert(first_guid_hit(t@, k as int, g@, want_dir));
                            let k2 = choose|k2: int| first_guid_hit(t@, k2, g@, want_dir);
                            assert(first_guid_hit(t@, k2, g@, want_dir));
                            if k2 < k {
                                assert(!guid_hit(t@, k2, g@, want_dir));
                            }
                            if k2 > k {
                                assert(!guid_hit(t@, k as int, g@, want_dir));
                            }
                            assert(k2 == k);
                            assert(!exists|j: int| #[trigger] path_hit(t@, j, d@, want_dir));
                            assert(resolve_legacy(t@, d@, g@, want_dir) == Some(strip_meta(t@[k as int].0@)));
                        }
                        return Some(asset);
                    }
                }
            },
            None => {},
        }
        k += 1;
    }
    assert(!exists|j: int| #[trigger] first_guid_hit(t@, j, g@, want_dir));
    None
}

pub open spec fn pairs_view(v: Seq<(String, String)>) -> Seq<(Seq<char>, Seq<char>)> {
    v.map_values(|e: (String, String)| (e.0@, e.1@))
}

/// The legacy folders (`want_dir`) or files that a package declares.
pub open spec fn decls_of(p: PackageManifest, want_dir: bool) -> Seq<(String, String)> {
    if want_dir {
        p.legacy_folders@
    } else {
        p.legacy_files@
    }
}

/// The assets that the declarations resolve to, each with its owning package.
pub open spec fn resolved_decls(
    t: Seq<(String, Option<Vec<u8>>)>,
    owner: Seq<char>,
    decls: Seq<(String, String)>,
    want_dir: bool,
) -> Seq<(Seq<char>, Seq<char>)>
    decreases decls.len(),
{
    if decls.len() == 0 {
        Seq::empty()
    } else {
        let rest = resolved_decls(t, owner, decls.drop_last(), want_dir);
        match resolve_legacy(t, decls.last().0@, decls.last().1@, want_dir) {
            Some(p) => rest.push((p, owner)),
            None => rest,
        }
    }
}

/// The legacy assets of a list of installing packages, in order.
pub open spec fn legacy_assets(
    t: Seq<(String, Option<Vec<u8>>)>,
    c: PackageCollection,
    ps: Seq<PackageInfo>,
    want_dir: bool,
) -> Seq<(Seq<char>, Seq<char>)>
    decreases ps.len(),
{
    if ps.len() == 0 {
        Seq::empty()
    } else {
        legacy_assets(t, c, ps.drop_last(), want_dir) + resolved_decls(
            t,
            c.spec_get(ps.last()).name@,
            decls_of(c.spec_get(ps.last()), want_dir),
            want_dir,
        )
    }
}

/// Resolves the legacy folders (`want_dir`) or files of the installing packages.
pub fn collect_legacy_assets(
    tree: &FileTree,
    c: &PackageCollection,
    installs: &Vec<PackageInfo>,
    want_dir: bool,
) -> (r: Vec<(String, String)>)
    requires
        all_valid(*c, installs@),
    ensures
        pairs_view(r@) == legacy_assets(tree.entries@, *c, installs@, want_dir),
{
    let mut r: Vec<(String, String)> = Vec::new();
    let mut i: usize = 0;
    while i < installs.len()
        invariant
            i <= installs@.len(),
            all_valid(*c, installs@),
            pairs_view(r@) == legacy_assets(tree.entries@, *c, installs@.take(i as int), want_dir),
        decreases installs@.len() - i,
    {
        let pkg = c.get(installs[i]);
        let decls = if want_dir {
            &pkg.legacy_folders
        } else {
            &pkg.legacy_files
        };
        let ghost base = pairs_view(r@);
        let mut j: usize = 0;
        while j < decls.len()
            invariant
                j <= decls@.len(),
                decls@ == decls_of(*pkg, want_dir),
                pairs_view(r@) == base + resolved_decls(tree.entries@, pkg.name@, decls@.take(j as int), want_dir),
            decreases decls@.len() - j,
        {
            proof {
                assert(decls@.take(j + 1).drop_last() =~= decls@.take(j as int));
            }
            match resolve_legacy_asset(tree, &decls[j].0, &decls[j].1, want_dir) {
                Some(path) => {
                    let ghost before = r@;
                    r.push((path, pkg.name.clone()));
                    proof {
                        assert(pairs_view(r@) =~= pairs_view(before).push((path@, pkg.name@)));
                    }
                },
                None => {},
            }
            j += 1;
        }
        proof {
            assert(decls@.take(decls@.len() as int) =~= decls@);
            assert(installs@.take(i + 1).drop_last() =~= installs@.take(i as int));
        }
        i += 1;
    }
    proof {
        assert(installs@.take(installs@.len() as int) =~= installs@);
    }
    r
}

proof fn lemma_resolved_safe(t: Seq<(String, Option<Vec<u8>>)>, d: Seq<char>, g: Seq<char>, want_dir: bool)
    ensures
        resolve_legacy(t, d, g, want_dir) matches Some(p) ==> safe_path(p) && present(t, p, want_dir),
{
    if exists|k: int| #[trigger] path_hit(t, k, d, want_dir) {
        let k = choose|k: int| path_hit(t, k, d, want_dir);
        assert(t[k].0@ == normalize(d));
    } else if exists|k: int| #[trigger] first_guid_hit(t, k, g, want_dir) {
        let k = choose|k: int| first_guid_hit(t, k, g, want_dir);
    }
}

proof fn lemma_decls_safe(t: Seq<(String, Option<Vec<u8>>)>, owner: Seq<char>, decls: Seq<(String, String)>, want_dir: bool)
    ensures
        forall|i: int| 0 <= i < resolved_decls(t, owner, decls, want_dir).len() ==> safe_path(
            #[trigger] resolved_decls(t, owner, decls, want_dir)[i].0,
        ) && present(t, resolved_decls(t, owner, decls, want_dir)[i].0, want_dir),
    decreases decls.len(),
{
    if decls.len() > 0 {
        lemma_decls_safe(t, owner, decls.drop_last(), want_dir);
        lemma_resolved_safe(t, decls.last().0@, decls.last().1@, want_dir);
        let rest = resolved_decls(t, owner, decls.drop_last(), want_dir);
        let all = resolved_decls(t, owner, decls, want_dir);
        assert forall|i: int| 0 <= i < all.len() implies safe_path(#[trigger] all[i].0) && present(t, all[i].0, want_dir) by {
            if i < rest.len() {
                assert(all[i] == rest[i]);
            }
        }
    }
}

/// Every legacy asset that planning resolves lies inside `Assets/` or `Packages/`,
/// has no empty, `.` or `..` component, and exists in the tree with the declared kind.
pub proof fn lemma_legacy_assets_safe(
    t: Seq<(String, Option<Vec<u8>>)>,
    c: PackageCollection,
    ps: Seq<PackageInfo>,
    want_dir: bool,
)
    ensures
        forall|i: int| 0 <= i < legacy_assets(t, c, ps, want_dir).len() ==> safe_path(
            #[trigger] legacy_assets(t, c, ps, want_dir)[i].0,
        ) && present(t, legacy_assets(t, c, ps, want_dir)[i].0, want_dir),
    decreases ps.len(),
{
    if ps.len() > 0 {
        lemma_legacy_assets_safe(t, c, ps.drop_last(), want_dir);
        let pre = legacy_assets(t, c, ps.drop_last(), want_dir);
        let owner = c.spec_get(ps.last()).name@;
        let decls = decls_of(c.spec_get(ps.last()), want_dir);
        lemma_decls_safe(t, owner, decls, want_dir);
        let all = legacy_assets(t, c, ps, want_dir);
        assert forall|i: int| 0 <= i < all.len() implies safe_path(#[trigger] all[i].0) && present(t, all[i].0, want_dir) by {
            if i < pre.len() {
                assert(all[i] == pre[i]);
            } else {
                assert(all[i] == resolved_decls(t, owner, decls, want_dir)[i - pre.len()]);
            }
        }
    }
}

proof fn lemma_first_guid_hit_exists(t: Seq<(String, Option<Vec<u8>>)>, k: int, g: Seq<char>, want_dir: bool)
    requires
        guid_hit(t, k, g, want_dir),
    ensures
        exists|j: int| #[trigger] first_guid_hit(t, j, g, want_dir),
    decreases k,
{
    if exists|j: int| 0 <= j < k && #[trigger] guid_hit(t, j, g, want_dir) {
        let j = choose|j: int| 0 <= j < k && #[trigger] guid_hit(t, j, g, want_dir);
        lemma_first_guid_hit_exists(t, j, g, want_dir);
    } else {
        assert(first_guid_hit(t, k, g, want_dir));
    }
}

/// A declared legacy asset whose path is gone is still found through the GUID that
/// a sidecar in the tree records for it: the result is an asset whose sidecar records it.
pub proof fn lemma_legacy_found_by_guid(
    t: Seq<(String, Option<Vec<u8>>)>,
    d: Seq<char>,
    g: Seq<char>,
    want_dir: bool,
    k: int,
)
    requires
        !present(t, normalize(d), want_dir),
        guid_hit(t, k, g, want_dir),
    ensures
        resolve_legacy(t, d, g, want_dir) matches Some(p) && exists|j: int|
            #[trigger] guid_hit(t, j, g, want_dir) && p == strip_meta(t[j].0@),
{
    assert(!exists|j: int| #[trigger] path_hit(t, j, d, want_dir)) by {
        if exists|j: int| #[trigger] path_hit(t, j, d, want_dir) {
            let j = choose|j: int| path_hit(t, j, d, want_dir);
            assert(t[j].0@ == normalize(d));
        }
    }
    lemma_first_guid_hit_exists(t, k, g, want_dir);
    let j = choose|j: int| first_guid_hit(t, j, g, want_dir);
    assert(guid_hit(t, j, g, want_dir));
}

} // verus!
