//! The directory scanner's logic: filtering a walked directory tree to
//! the `.cbr` files under a root, and grouping the matches by the
//! top-level subdirectory they were found in.
//!
//! A path is modelled as its sequence of components, each one a plain
//! string; the caller walks the tree and hands every visited entry in
//! walk order, together with whether it is a regular file.

use vstd::prelude::*;

use crate::paths::clone_strings;
use crate::paths::is_cbr_file_name;
use crate::paths::is_cbr_name;

verus! {

/// One filesystem entry seen during the walk: the full path, as its
/// components, and whether the entry is a regular file.
pub struct ScanEntry {
    pub path: Vec<String>,
    pub is_file: bool,
}

/// One entry of the grouping map: a top-level subdirectory name under
/// the root, and the root joined with that name.
pub struct Group {
    pub name: String,
    pub dir: Vec<String>,
}

/// What a scan produces: the matching file paths in walk order, and the
/// grouping map in first-sighting order.
pub struct ScanResult {
    pub files: Vec<Vec<String>>,
    pub groups: Vec<Group>,
}

/// An entry is kept when it is a regular file under the root whose last
/// component carries the `.cbr` extension, case-insensitively.
pub open spec fn entry_matches(root: Seq<Seq<char>>, e: ScanEntry) -> bool {
    &&& e.is_file
    &&& e.path@.len() > 0
    &&& root.is_prefix_of(e.path.deep_view())
    &&& is_cbr_name(e.path.deep_view().last())
}

/// The group key of an entry: the first path component below the root,
/// present only for matching entries that lie strictly below it.
pub open spec fn group_key_of(root: Seq<Seq<char>>, e: ScanEntry) -> Option<Seq<char>> {
    if entry_matches(root, e) && e.path@.len() > root.len() {
        Some(e.path.deep_view()[root.len() as int])
    } else {
        None
    }
}

/// The mathematical shape of the grouping map: key and stored path, in
/// insertion order.
pub open spec fn groups_model(gs: Seq<Group>) -> Seq<(Seq<char>, Seq<Seq<char>>)> {
    gs.map_values(|g: Group| (g.name@, g.dir.deep_view()))
}

/// Whether the grouping map already holds a key.
pub open spec fn has_group_key(gs: Seq<(Seq<char>, Seq<Seq<char>>)>, k: Seq<char>) -> bool {
    exists|i: int| 0 <= i < gs.len() && gs[i].0 == k
}

/// First-wins insertion: a key already present leaves the map unchanged;
/// a new key is appended with the root joined to it as its value.
pub open spec fn insert_group(
    gs: Seq<(Seq<char>, Seq<Seq<char>>)>,
    root: Seq<Seq<char>>,
    k: Seq<char>,
) -> Seq<(Seq<char>, Seq<Seq<char>>)> {
    if has_group_key(gs, k) {
        gs
    } else {
        gs.push((k, root.push(k)))
    }
}

/// The flat result of a scan: the paths of the matching entries, in
/// walk order.
pub open spec fn scan_files(root: Seq<Seq<char>>, entries: Seq<ScanEntry>) -> Seq<
    Seq<Seq<char>>,
>
    decreases entries.len(),
{
    if entries.len() == 0 {
        Seq::empty()
    } else {
        let prev = scan_files(root, entries.drop_last());
        if entry_matches(root, entries.last()) {
            prev.push(entries.last().path.deep_view())
        } else {
            prev
        }
    }
}

/// The grouping map of a scan: every matching entry below the root
/// inserts its top-level subdirectory, first sighting winning.
pub open spec fn scan_groups(root: Seq<Seq<char>>, entries: Seq<ScanEntry>) -> Seq<
    (Seq<char>, Seq<Seq<char>>),
>
    decreases entries.len(),
{
    if entries.len() == 0 {
        Seq::empty()
    } else {
        let prev = scan_groups(root, entries.drop_last());
        match group_key_of(root, entries.last()) {
            Some(k) => insert_group(prev, root, k),
            None => prev,
        }
    }
}

/// Every matching entry's path appears in the flat result, and nothing
/// else does: an entry that the walk never handed over is never listed.
pub proof fn lemma_flat_result_exact(root: Seq<Seq<char>>, entries: Seq<ScanEntry>)
    ensures
        forall|i: int|
            0 <= i < entries.len() && entry_matches(root, #[trigger] entries[i])
                ==> scan_files(root, entries).contains(entries[i].path.deep_view()),
        forall|p: Seq<Seq<char>>| #[trigger]
            scan_files(root, entries).contains(p) ==> exists|i: int|
                0 <= i < entries.len() && entry_matches(root, entries[i])
                    && entries[i].path.deep_view() == p,
    decreases entries.len(),
{
    if entries.len() > 0 {
        let prev = entries.drop_last();
        lemma_flat_result_exact(root, prev);
        let s = scan_files(root, entries);
        let sp = scan_files(root, prev);
        assert forall|p: Seq<Seq<char>>| #[trigger] sp.contains(p) implies s.contains(p) by {
            let j = choose|j: int| 0 <= j < sp.len() && sp[j] == p;
            assert(s[j] == p);
        }
        assert forall|i: int|
            0 <= i < entries.len() && entry_matches(root, #[trigger] entries[i]) implies s.contains(
            entries[i].path.deep_view(),
        ) by {
            if i < entries.len() - 1 {
                assert(prev[i] == entries[i]);
                assert(sp.contains(entries[i].path.deep_view()));
            } else {
                assert(entries.last() == entries[i]);
                assert(s.last() == entries[i].path.deep_view());
            }
        }
        assert forall|p: Seq<Seq<char>>| #[trigger] s.contains(p) implies exists|i: int|
            0 <= i < entries.len() && entry_matches(root, entries[i])
                && entries[i].path.deep_view() == p by {
            let j = choose|j: int| 0 <= j < s.len() && s[j] == p;
            if j < sp.len() {
                assert(sp.contains(p));
                let i = choose|i: int|
                    0 <= i < prev.len() && entry_matches(root, prev[i])
                        && prev[i].path.deep_view() == p;
                assert(entries[i] == prev[i]);
            } else {
                assert(entry_matches(root, entries[entries.len() - 1]));
                assert(entries[entries.len() - 1].path.deep_view() == p);
            }
        }
    }
}

/// When the walk hands over each path at most once, no path appears in
/// the flat result twice: together with `lemma_flat_result_exact`, every
/// matching file is listed exactly once.
pub proof fn lemma_flat_result_no_duplicates(root: Seq<Seq<char>>, entries: Seq<ScanEntry>)
    requires
        forall|i: int, j: int|
            0 <= i < j < entries.len()
                ==> entries[i].path.deep_view() != entries[j].path.deep_view(),
    ensures
        forall|j: int, t: int|
            0 <= j < t < scan_files(root, entries).len()
                ==> scan_files(root, entries)[j] != scan_files(root, entries)[t],
    decreases entries.len(),
{
    if entries.len() > 0 {
        let prev = entries.drop_last();
        assert forall|i: int, j: int|
            0 <= i < j < prev.len() implies prev[i].path.deep_view()
            != prev[j].path.deep_view() by {
            assert(entries[i] == prev[i]);
            assert(entries[j] == prev[j]);
        }
        lemma_flat_result_no_duplicates(root, prev);
        lemma_flat_result_exact(root, prev);
        let s = scan_files(root, entries);
        let sp = scan_files(root, prev);
        if entry_matches(root, entries.last()) {
            let p = entries.last().path.deep_view();
            assert forall|j: int, t: int| 0 <= j < t < s.len() implies s[j] != s[t] by {
                if t < sp.len() {
                    assert(sp[j] != sp[t]);
                } else {
                    assert(s[t] == p);
                    assert(sp.contains(sp[j]));
                    let i = choose|i: int|
                        0 <= i < prev.len() && entry_matches(root, prev[i])
                            && prev[i].path.deep_view() == sp[j];
                    assert(entries[i] == prev[i]);
                    assert(entries[i].path.deep_view() != entries[entries.len()
                        - 1].path.deep_view());
                }
            }
        }
    }
}

/// The grouping map holds a key exactly when some matching file lies in
/// that top-level subdirectory; its stored path is always the root
/// joined with the key; and no key is held twice.
pub proof fn lemma_group_map_exact(root: Seq<Seq<char>>, entries: Seq<ScanEntry>)
    ensures
        forall|k: Seq<char>|
            has_group_key(scan_groups(root, entries), k) <==> exists|i: int|
                0 <= i < entries.len() && group_key_of(root, #[trigger] entries[i]) == Some(k),
        forall|j: int|
            0 <= j < scan_groups(root, entries).len() ==> (#[trigger] scan_groups(
                root,
                entries,
            )[j]).1 == root.push(scan_groups(root, entries)[j].0),
        forall|j: int, t: int|
            0 <= j < t < scan_groups(root, entries).len()
                ==> scan_groups(root, entries)[j].0 != scan_groups(root, entries)[t].0,
    decreases entries.len(),
{
    if entries.len() > 0 {
        let prev = entries.drop_last();
        lemma_group_map_exact(root, prev);
        let g = scan_groups(root, entries);
        let gp = scan_groups(root, prev);
        assert forall|i: int|
            0 <= i < prev.len() implies #[trigger] prev[i] == entries[i] by {}
        match group_key_of(root, entries.last()) {
            Some(k0) => {
                if has_group_key(gp, k0) {
                    assert(g == gp);
                    assert forall|k: Seq<char>| has_group_key(g, k) implies exists|i: int|
                        0 <= i < entries.len() && group_key_of(root, #[trigger] entries[i])
                            == Some(k) by {
                        let i = choose|i: int|
                            0 <= i < prev.len() && group_key_of(root, #[trigger] prev[i])
                                == Some(k);
                        assert(group_key_of(root, entries[i]) == Some(k));
                    }
                    assert forall|k: Seq<char>|
                        (exists|i: int|
                            0 <= i < entries.len() && group_key_of(root, #[trigger] entries[i])
                                == Some(k)) implies has_group_key(g, k) by {
                        let i = choose|i: int|
                            0 <= i < entries.len() && group_key_of(root, #[trigger] entries[i])
                                == Some(k);
                        if i < prev.len() {
                            assert(group_key_of(root, prev[i]) == Some(k));
                        } else {
                            assert(k == k0);
                        }
                    }
                } else {
                    assert(g == gp.push((k0, root.push(k0))));
                    assert forall|k: Seq<char>| has_group_key(g, k) implies exists|i: int|
                        0 <= i < entries.len() && group_key_of(root, #[trigger] entries[i])
                            == Some(k) by {
                        let j = choose|j: int| 0 <= j < g.len() && g[j].0 == k;
                        if j < gp.len() {
                            assert(has_group_key(gp, k));
                            let i = choose|i: int|
                                0 <= i < prev.len() && group_key_of(root, #[trigger] prev[i])
                                    == Some(k);
                            assert(group_key_of(root, entries[i]) == Some(k));
                        } else {
                            assert(k == k0);
                            assert(group_key_of(root, entries[entries.len() - 1]) == Some(k0));
                        }
                    }
                    assert forall|k: Seq<char>|
                        (exists|i: int|
                            0 <= i < entries.len() && group_key_of(root, #[trigger] entries[i])
                                == Some(k)) implies has_group_key(g, k) by {
                        let i = choose|i: int|
                            0 <= i < entries.len() && group_key_of(root, #[trigger] entries[i])
                                == Some(k);
                        if i < prev.len() {
                            assert(group_key_of(root, prev[i]) == Some(k));
                            assert(has_group_key(gp, k));
                            let j = choose|j: int| 0 <= j < gp.len() && gp[j].0 == k;
                            assert(g[j].0 == k);
                        } else {
                            assert(g[g.len() - 1].0 == k);
                        }
                    }
                    assert forall|j: int, t: int|
                        0 <= j < t < g.len() implies g[j].0 != g[t].0 by {
                        if t == g.len() - 1 {
                            assert(g[j].0 == gp[j].0);
                            assert(!has_group_key(gp, k0));
                            assert(gp[j].0 != k0);
                        }
                    }
                }
            },
            None => {
                assert(g == gp);
                assert forall|k: Seq<char>| has_group_key(g, k) implies exists|i: int|
                    0 <= i < entries.len() && group_key_of(root, #[trigger] entries[i]) == Some(
                    k,
                ) by {
                    let i = choose|i: int|
                        0 <= i < prev.len() && group_key_of(root, #[trigger] prev[i]) == Some(k);
                    assert(group_key_of(root, entries[i]) == Some(k));
                }
                assert forall|k: Seq<char>|
                    (exists|i: int|
                        0 <= i < entries.len() && group_key_of(root, #[trigger] entries[i])
                            == Some(k)) implies has_group_key(g, k) by {
                    let i = choose|i: int|
                        0 <= i < entries.len() && group_key_of(root, #[trigger] entries[i])
                            == Some(k);
                    assert(i < prev.len());
                    assert(group_key_of(root, prev[i]) == Some(k));
                }
            },
        }
    }
}

/// A walk that hands over no matching entry yields an empty flat result
/// and an empty grouping map; a root that does not exist hands over no
/// entries at all, so it falls under this too.
pub proof fn lemma_no_match_yields_empty(root: Seq<Seq<char>>, entries: Seq<ScanEntry>)
    requires
        forall|i: int| 0 <= i < entries.len() ==> !entry_matches(root, #[trigger] entries[i]),
    ensures
        scan_files(root, entries) == Seq::<Seq<Seq<char>>>::empty(),
        scan_groups(root, entries) == Seq::<(Seq<char>, Seq<Seq<char>>)>::empty(),
    decreases entries.len(),
{
    if entries.len() > 0 {
        let prev = entries.drop_last();
        assert forall|i: int|
            0 <= i < prev.len() implies !entry_matches(root, #[trigger] prev[i]) by {
            assert(prev[i] == entries[i]);
        }
        lemma_no_match_yields_empty(root, prev);
        assert(!entry_matches(root, entries.last()));
    }
}

/// Whether `root` is a component-wise prefix of `path`.
pub fn is_prefix(root: &Vec<String>, path: &Vec<String>) -> (r: bool)
    ensures
        r == root.deep_view().is_prefix_of(path.deep_view()),
{
    if root.len() > path.len() {
        return false;
    }
    let mut k: usize = 0;
    while k < root.len()
        invariant
            k <= root.len() <= path.len(),
            forall|t: int| 0 <= t < k ==> root.deep_view()[t] == path.deep_view()[t],
        decreases root.len() - k,
    {
        if !(root[k] == path[k]) {
            assert(root.deep_view()[k as int] != path.deep_view()[k as int]);
            assert(!root.deep_view().is_prefix_of(path.deep_view()));
            return false;
        }
        assert(root.deep_view()[k as int] == path.deep_view()[k as int]);
        k = k + 1;
    }
    assert(root.deep_view() =~= path.deep_view().subrange(0, root.len() as int));
    true
}

/// Whether the grouping map built so far already holds `key`.
fn group_key_present(groups: &Vec<Group>, key: &String) -> (r: bool)
    ensures
        r == has_group_key(groups_model(groups@), key@),
{
    let mut i: usize = 0;
    while i < groups.len()
        invariant
            i <= groups.len(),
            forall|t: int| 0 <= t < i ==> groups_model(groups@)[t].0 != key@,
        decreases groups.len() - i,
    {
        if groups[i].name == *key {
            assert(groups_model(groups@)[i as int].0 == key@);
            return true;
        }
        assert(groups_model(groups@)[i as int].0 != key@);
        i = i + 1;
    }
    false
}

/// Walks the handed entries in order and returns every `.cbr` file under
/// `root` together with the grouping of the matches by their top-level
/// subdirectory.
pub fn find_cbr_files(root: &Vec<String>, entries: &Vec<ScanEntry>) -> (r: ScanResult)
    ensures
        r.files.deep_view() == scan_files(root.deep_view(), entries@),
        groups_model(r.groups@) == scan_groups(root.deep_view(), entries@),
{
    let ghost rootv = root.deep_view();
    let mut files: Vec<Vec<String>> = Vec::new();
    let mut groups: Vec<Group> = Vec::new();
    let mut i: usize = 0;
    while i < entries.len()
        invariant
            i <= entries.len(),
            rootv == root.deep_view(),
            files.deep_view() == scan_files(rootv, entries@.take(i as int)),
            groups_model(groups@) == scan_groups(rootv, entries@.take(i as int)),
        decreases entries.len() - i,
    {
        let e = &entries[i];
        proof {
            assert(entries@.take(i + 1).drop_last() =~= entries@.take(i as int));
            assert(entries@.take(i + 1).last() == entries@[i as int]);
        }
        let matched = e.is_file && e.path.len() > 0 && is_cbr_file_name(
            e.path[e.path.len() - 1].as_str(),
        ) && is_prefix(root, &e.path);
        proof {
            assert(e.path.deep_view().len() == e.path@.len());
            if e.path@.len() > 0 {
                assert(e.path.deep_view().last() == e.path@[e.path@.len() - 1]@);
            }
            assert(matched == entry_matches(rootv, entries@[i as int]));
        }
        if matched {
            if e.path.len() > root.len() {
                let key: &String = &e.path[root.len()];
                proof {
                    assert(e.path.deep_view()[rootv.len() as int] == key@);
                    assert(group_key_of(rootv, entries@[i as int]) == Some(key@));
                }
                if !group_key_present(&groups, key) {
                    let mut dir = clone_strings(root);
                    dir.push(key.clone());
                    proof {
                        assert(dir.deep_view() =~= rootv.push(key@));
                    }
                    let g = Group { name: key.clone(), dir };
                    groups.push(g);
                    proof {
                        assert(groups_model(groups@) =~= scan_groups(
                            rootv,
                            entries@.take(i + 1),
                        ));
                    }
                } else {
                    proof {
                        assert(groups_model(groups@) =~= scan_groups(
                            rootv,
                            entries@.take(i + 1),
                        ));
                    }
                }
            } else {
                proof {
                    assert(group_key_of(rootv, entries@[i as int]) is None);
                    assert(groups_model(groups@) =~= scan_groups(rootv, entries@.take(i + 1)));
                }
            }
            let p = clone_strings(&e.path);
            files.push(p);
            proof {
                assert(files.deep_view() =~= scan_files(rootv, entries@.take(i + 1)));
            }
        } else {
            proof {
                assert(files.deep_view() =~= scan_files(rootv, entries@.take(i + 1)));
                assert(groups_model(groups@) =~= scan_groups(rootv, entries@.take(i + 1)));
            }
        }
        i = i + 1;
    }
    proof {
        assert(entries@.take(entries@.len() as int) =~= entries@);
    }
    ScanResult { files, groups }
}

} // verus!
