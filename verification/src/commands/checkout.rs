//! `checkout`: whether switching to another tree would lose work, what to
//! delete and restore in the working directory, and the new index.
use vstd::prelude::*;

use crate::add::add_execute::tree_view;
use crate::index::{entries_view, Index, IndexEntry};

verus! {

/// The hash of the first entry for a path.
pub open spec fn hash_at(es: Seq<(Seq<char>, Seq<char>)>, path: Seq<char>) -> Option<Seq<char>>
    decreases es.len(),
{
    if es.len() == 0 {
        None
    } else {
        match hash_at(es.drop_last(), path) {
            Some(h) => Some(h),
            None => if es.last().0 == path {
                Some(es.last().1)
            } else {
                None
            },
        }
    }
}

/// The first of the values that are present.
pub open spec fn first_some(s: Seq<Option<Seq<char>>>) -> Option<Seq<char>>
    decreases s.len(),
{
    if s.len() == 0 {
        None
    } else {
        match first_some(s.drop_last()) {
            Some(x) => Some(x),
            None => s.last(),
        }
    }
}

/// Whether checking out the target changes or removes a file of the current
/// tree.
pub open spec fn will_change(target: Seq<(Seq<char>, Seq<char>)>, e: (Seq<char>, Seq<char>)) -> bool {
    match hash_at(target, e.0) {
        Some(h) => h != e.1,
        None => true,
    }
}

/// The refusal for a current file that the checkout changes, given the hash
/// of the file in the working directory (none if it cannot be read): a file
/// that differs from the current tree would be overwritten, and a missing
/// file that the target brings back counts as changed too.
pub open spec fn current_conflict(
    target: Seq<(Seq<char>, Seq<char>)>,
    e: (Seq<char>, Seq<char>),
    working: Option<Seq<char>>,
) -> Option<Seq<char>> {
    if !will_change(target, e) {
        None
    } else {
        match working {
            Some(w) => if w != e.1 {
                Some(
                    "error: Your local changes to '"@ + e.0
                        + "' would be overwritten by checkout.\nPlease commit your changes or stash them before you switch branches."@,
                )
            } else {
                None
            },
            None => if hash_at(target, e.0) is Some {
                Some("error: Your local changes to '"@ + e.0 + "' would be overwritten by checkout."@)
            } else {
                None
            },
        }
    }
}

/// The refusal for a target file that the current tree lacks but that
/// exists in the working directory.
pub open spec fn target_conflict(
    current: Seq<(Seq<char>, Seq<char>)>,
    e: (Seq<char>, Seq<char>),
    exists: bool,
) -> Option<Seq<char>> {
    if hash_at(current, e.0) is None && exists {
        Some("error: The following untracked file would be overwritten by checkout:\n  "@ + e.0)
    } else {
        None
    }
}

/// The first refusal: current files in order, then target files in order.
pub open spec fn safety_error(
    current: Seq<(Seq<char>, Seq<char>)>,
    target: Seq<(Seq<char>, Seq<char>)>,
    working: Seq<Option<Seq<char>>>,
    exists: Seq<bool>,
) -> Option<Seq<char>> {
    match first_some(
        Seq::new(current.len(), |i: int| current_conflict(target, current[i], working[i])),
    ) {
        Some(m) => Some(m),
        None => first_some(
            Seq::new(target.len(), |j: int| target_conflict(current, target[j], exists[j])),
        ),
    }
}

proof fn lemma_first_some_none(s: Seq<Option<Seq<char>>>)
    requires
        forall|i: int| 0 <= i < s.len() ==> (#[trigger] s[i]) is None,
    ensures
        first_some(s) is None,
    decreases s.len(),
{
    if s.len() > 0 {
        assert forall|i: int| 0 <= i < s.drop_last().len() implies (
        #[trigger] s.drop_last()[i]) is None by {
            assert(s.drop_last()[i] == s[i]);
        }
        lemma_first_some_none(s.drop_last());
        assert(s.last() == s[s.len() - 1]);
    }
}

/// A checkout that leaves every current file as it is (the target has the
/// same hash for its path) and brings no file onto a path where an
/// untracked file exists is never refused, whatever the working copies
/// hold: local edits to files the checkout does not touch are kept.
pub proof fn law_untouched_files_not_checked(
    current: Seq<(Seq<char>, Seq<char>)>,
    target: Seq<(Seq<char>, Seq<char>)>,
    working: Seq<Option<Seq<char>>>,
    exists: Seq<bool>,
)
    requires
        working.len() == current.len(),
        exists.len() == target.len(),
        forall|i: int|
            0 <= i < current.len() ==> hash_at(target, (#[trigger] current[i]).0) == Some(
                current[i].1,
            ),
        forall|j: int|
            0 <= j < target.len() ==> hash_at(current, (#[trigger] target[j]).0) is Some
                || !exists[j],
    ensures
        safety_error(current, target, working, exists) is None,
{
    let cs = Seq::new(current.len(), |i: int| current_conflict(target, current[i], working[i]));
    let ts = Seq::new(target.len(), |j: int| target_conflict(current, target[j], exists[j]));
    assert forall|i: int| 0 <= i < cs.len() implies (#[trigger] cs[i]) is None by {
        assert(hash_at(target, current[i].0) == Some(current[i].1));
    }
    assert forall|j: int| 0 <= j < ts.len() implies (#[trigger] ts[j]) is None by {
        assert(hash_at(current, target[j].0) is Some || !exists[j]);
    }
    lemma_first_some_none(cs);
    lemma_first_some_none(ts);
}

/// Optional strings as the text they hold.
pub open spec fn options_view(v: Seq<Option<String>>) -> Seq<Option<Seq<char>>> {
    v.map_values(
        |o: Option<String>|
            match o {
                Some(s) => Some(s@),
                None => None,
            },
    )
}

/// The position of the first entry for a path.
fn find_path(es: &Vec<(String, String)>, path: &String) -> (r: Option<usize>)
    ensures
        match hash_at(tree_view(es@), path@) {
            Some(h) => r matches Some(i) && i < es@.len() && es@[i as int].0@ == path@
                && es@[i as int].1@ == h,
            None => r is None,
        },
{
    let ghost v = tree_view(es@);
    let mut i: usize = 0;
    while i < es.len()
        invariant
            i <= es@.len(),
            v == tree_view(es@),
            hash_at(v.take(i as int), path@) is None,
        decreases es@.len() - i,
    {
        proof {
            assert(v.take(i + 1).drop_last() =~= v.take(i as int));
        }
        if es[i].0 == *path {
            proof {
                lemma_hash_at_prefix(v, i + 1);
            }
            return Some(i);
        }
        i = i + 1;
    }
    proof {
        assert(v.take(i as int) =~= v);
    }
    None
}

/// The first entry for a path, found in a prefix, is the first overall.
proof fn lemma_hash_at_prefix(es: Seq<(Seq<char>, Seq<char>)>, k: int)
    requires
        0 <= k <= es.len(),
        hash_at(es.take(k), es[k - 1].0) is Some || k == 0,
    ensures
        k > 0 ==> hash_at(es, es[k - 1].0) == hash_at(es.take(k), es[k - 1].0),
    decreases es.len() - k,
{
    if k > 0 && k < es.len() {
        let p = es[k - 1].0;
        lemma_hash_at_extend(es, k, p);
    }
    if k == es.len() {
        assert(es.take(k) =~= es);
    }
}

proof fn lemma_hash_at_extend(es: Seq<(Seq<char>, Seq<char>)>, k: int, p: Seq<char>)
    requires
        0 <= k <= es.len(),
        hash_at(es.take(k), p) is Some,
    ensures
        hash_at(es, p) == hash_at(es.take(k), p),
    decreases es.len() - k,
{
    if k < es.len() {
        assert(es.take(k + 1).drop_last() =~= es.take(k));
        lemma_hash_at_extend(es, k + 1, p);
    } else {
        assert(es.take(k) =~= es);
    }
}

/// Checks that checking out `target` over `current` loses no work. For each
/// current file, `working` holds the hash of the working copy as a blob, or
/// none if it cannot be read; for each target file, `existing` tells whether
/// a file is at its path.
pub fn check_safety(
    current: &Vec<(String, String)>,
    target: &Vec<(String, String)>,
    working: &Vec<Option<String>>,
    existing: &Vec<bool>,
) -> (r: Result<(), String>)
    requires
        working@.len() == current@.len(),
        existing@.len() == target@.len(),
    ensures
        r is Ok <==> safety_error(
            tree_view(current@),
            tree_view(target@),
            options_view(working@),
            existing@,
        ) is None,
        r matches Err(m) ==> safety_error(
            tree_view(current@),
            tree_view(target@),
            options_view(working@),
            existing@,
        ) == Some(m@),
        (forall|i: int|
            0 <= i < current@.len() ==> hash_at(tree_view(target@), (#[trigger] current@[i]).0@)
                == Some(current@[i].1@)) && (forall|j: int|
            0 <= j < target@.len() ==> hash_at(tree_view(current@), (#[trigger] target@[j]).0@)
                is Some || !existing@[j]) ==> r is Ok,
{
    proof {
        let cur = tree_view(current@);
        let tgt = tree_view(target@);
        if (forall|i: int|
            0 <= i < current@.len() ==> hash_at(tgt, (#[trigger] current@[i]).0@) == Some(
                current@[i].1@,
            )) && (forall|j: int|
            0 <= j < target@.len() ==> hash_at(cur, (#[trigger] target@[j]).0@) is Some
                || !existing@[j]) {
            assert forall|i: int| 0 <= i < cur.len() implies hash_at(tgt, (#[trigger] cur[i]).0)
                == Some(cur[i].1) by {
                assert(cur[i] == (current@[i].0@, current@[i].1@));
            }
            assert forall|j: int| 0 <= j < tgt.len() implies hash_at(cur, (#[trigger] tgt[j]).0)
                is Some || !existing@[j] by {
                assert(tgt[j] == (target@[j].0@, target@[j].1@));
            }
            law_untouched_files_not_checked(cur, tgt, options_view(working@), existing@);
        }
    }
    let ghost cur = tree_view(current@);
    let ghost tgt = tree_view(target@);
    let ghost wv = options_view(working@);
    let ghost cs = Seq::new(cur.len(), |i: int| current_conflict(tgt, cur[i], wv[i]));
    let ghost ts = Seq::new(tgt.len(), |j: int| target_conflict(cur, tgt[j], existing@[j]));
    let mut i: usize = 0;
    while i < current.len()
        invariant
            i <= current@.len(),
            cur == tree_view(current@),
            tgt == tree_view(target@),
            wv == options_view(working@),
            working@.len() == current@.len(),
            cs == Seq::new(cur.len(), |i: int| current_conflict(tgt, cur[i], wv[i])),
            first_some(cs.take(i as int)) is None,
        decreases current@.len() - i,
    {
        let path = &current[i].0;
        let current_hash = &current[i].1;
        proof {
            assert(cs.take(i + 1).drop_last() =~= cs.take(i as int));
            assert(cur[i as int] == (path@, current_hash@));
        }
        let found = find_path(target, path);
        let will_change = match found {
            Some(k) => target[k].1 != *current_hash,
            None => true,
        };
        if will_change {
            match &working[i] {
                Some(working_hash) => {
                    if *working_hash != *current_hash {
                        let mut msg = String::from_str("error: Your local changes to '");
                        msg.append(path.as_str());
                        msg.append(
                            "' would be overwritten by checkout.\nPlease commit your changes or stash them before you switch branches.",
                        );
                        proof {
                            lemma_first_some_prefix(cs, i + 1);
                        }
                        return Err(msg);
                    }
                },
                None => {
                    if found.is_some() {
                        let mut msg = String::from_str("error: Your local changes to '");
                        msg.append(path.as_str());
                        msg.append("' would be overwritten by checkout.");
                        proof {
                            lemma_first_some_prefix(cs, i + 1);
                        }
                        return Err(msg);
                    }
                },
            }
        }
        i = i + 1;
    }
    proof {
        assert(cs.take(i as int) =~= cs);
    }
    let mut j: usize = 0;
    while j < target.len()
        invariant
            j <= target@.len(),
            cur == tree_view(current@),
            tgt == tree_view(target@),
            existing@.len() == target@.len(),
            ts == Seq::new(tgt.len(), |j: int| target_conflict(cur, tgt[j], existing@[j])),
            first_some(ts.take(j as int)) is None,
            wv == options_view(working@),
            cs == Seq::new(cur.len(), |i: int| current_conflict(tgt, cur[i], wv[i])),
            first_some(cs) is None,
        decreases target@.len() - j,
    {
        let path = &target[j].0;
        proof {
            assert(ts.take(j + 1).drop_last() =~= ts.take(j as int));
            assert(tgt[j as int].0 == path@);
        }
        if find_path(current, path).is_none() && existing[j] {
            let mut msg = String::from_str(
                "error: The following untracked file would be overwritten by checkout:\n  ",
            );
            msg.append(path.as_str());
            proof {
                lemma_first_some_prefix(ts, j + 1);
            }
            return Err(msg);
        }
        j = j + 1;
    }
    proof {
        assert(ts.take(j as int) =~= ts);
    }
    Ok(())
}

/// A value present in a prefix is the first present overall.
proof fn lemma_first_some_prefix(s: Seq<Option<Seq<char>>>, k: int)
    requires
        0 <= k <= s.len(),
        first_some(s.take(k)) is Some,
    ensures
        first_some(s) == first_some(s.take(k)),
    decreases s.len() - k,
{
    if k < s.len() {
        assert(s.take(k + 1).drop_last() =~= s.take(k));
        lemma_first_some_prefix(s, k + 1);
    } else {
        assert(s.take(k) =~= s);
    }
}


/// The files of the current tree that the target lacks, in order: they are
/// deleted.
pub open spec fn deletions(current: Seq<(Seq<char>, Seq<char>)>, target: Seq<(Seq<char>, Seq<char>)>) -> Seq<
    Seq<char>,
>
    decreases current.len(),
{
    if current.len() == 0 {
        Seq::empty()
    } else {
        deletions(current.drop_last(), target) + if hash_at(target, current.last().0) is None {
            seq![current.last().0]
        } else {
            Seq::empty()
        }
    }
}

/// Whether a target file must be written: the current tree lacks it or has
/// another hash for it.
pub open spec fn needs_update(current: Seq<(Seq<char>, Seq<char>)>, e: (Seq<char>, Seq<char>)) -> bool {
    match hash_at(current, e.0) {
        Some(h) => h != e.1,
        None => true,
    }
}

/// The target files to write, in order.
pub open spec fn restorations(
    current: Seq<(Seq<char>, Seq<char>)>,
    target: Seq<(Seq<char>, Seq<char>)>,
) -> Seq<(Seq<char>, Seq<char>)>
    decreases target.len(),
{
    if target.len() == 0 {
        Seq::empty()
    } else {
        restorations(current, target.drop_last()) + if needs_update(current, target.last()) {
            seq![target.last()]
        } else {
            Seq::empty()
        }
    }
}

/// Strings as the text they hold.
pub open spec fn paths_view(v: Seq<String>) -> Seq<Seq<char>> {
    v.map_values(|s: String| s@)
}

/// What a checkout does to the working directory: the paths to delete
/// (first), and the files to write with the hash of their blob (then).
pub fn working_directory_plan(current: &Vec<(String, String)>, target: &Vec<(String, String)>) -> (r: (
    Vec<String>,
    Vec<(String, String)>,
))
    ensures
        paths_view(r.0@) == deletions(tree_view(current@), tree_view(target@)),
        tree_view(r.1@) == restorations(tree_view(current@), tree_view(target@)),
{
    let ghost cur = tree_view(current@);
    let ghost tgt = tree_view(target@);
    let mut deletes: Vec<String> = Vec::new();
    let mut i: usize = 0;
    while i < current.len()
        invariant
            i <= current@.len(),
            cur == tree_view(current@),
            tgt == tree_view(target@),
            paths_view(deletes@) == deletions(cur.take(i as int), tgt),
        decreases current@.len() - i,
    {
        proof {
            assert(cur.take(i + 1).drop_last() =~= cur.take(i as int));
            assert(cur.take(i + 1).last() == cur[i as int]);
        }
        let ghost before = paths_view(deletes@);
        if find_path(target, &current[i].0).is_none() {
            deletes.push(current[i].0.clone());
            proof {
                assert(paths_view(deletes@) =~= before.push(cur[i as int].0));
            }
        }
        proof {
            assert(paths_view(deletes@) =~= deletions(cur.take(i + 1), tgt));
        }
        i = i + 1;
    }
    proof {
        assert(cur.take(i as int) =~= cur);
    }
    let mut restores: Vec<(String, String)> = Vec::new();
    let mut j: usize = 0;
    while j < target.len()
        invariant
            j <= target@.len(),
            cur == tree_view(current@),
            tgt == tree_view(target@),
            tree_view(restores@) == restorations(cur, tgt.take(j as int)),
        decreases target@.len() - j,
    {
        proof {
            assert(tgt.take(j + 1).drop_last() =~= tgt.take(j as int));
            assert(tgt.take(j + 1).last() == tgt[j as int]);
        }
        let ghost before = tree_view(restores@);
        let update = match find_path(current, &target[j].0) {
            Some(k) => current[k].1 != target[j].1,
            None => true,
        };
        if update {
            restores.push((target[j].0.clone(), target[j].1.clone()));
            proof {
                assert(tree_view(restores@) =~= before.push(tgt[j as int]));
            }
        }
        proof {
            assert(tree_view(restores@) =~= restorations(cur, tgt.take(j + 1)));
        }
        j = j + 1;
    }
    proof {
        assert(tgt.take(j as int) =~= tgt);
    }
    (deletes, restores)
}

/// The index after a checkout: one entry per target file, with its hash,
/// marked `change` since the new current tree has every such path.
pub fn update_index(target_entries: &Vec<(String, String)>) -> (r: Index)
    ensures
        entries_view(r.entries@) == tree_view(target_entries@).map_values(
            |e: (Seq<char>, Seq<char>)| (e.0, e.1, "change"@),
        ),
{
    let ghost tgt = tree_view(target_entries@);
    let mut index = Index { entries: Vec::new() };
    let mut i: usize = 0;
    while i < target_entries.len()
        invariant
            i <= target_entries@.len(),
            tgt == tree_view(target_entries@),
            entries_view(index.entries@) == tgt.take(i as int).map_values(
                |e: (Seq<char>, Seq<char>)| (e.0, e.1, "change"@),
            ),
        decreases target_entries@.len() - i,
    {
        let ghost before = entries_view(index.entries@);
        let entry = IndexEntry::new(
            target_entries[i].0.as_str(),
            target_entries[i].1.as_str(),
            "change",
        );
        let ghost ev = crate::index::entry_view(entry);
        index.add(entry);
        proof {
            assert(ev == (tgt[i as int].0, tgt[i as int].1, "change"@));
            assert(entries_view(index.entries@) =~= before.push(ev));
            assert(entries_view(index.entries@) =~= tgt.take(i + 1).map_values(
                |e: (Seq<char>, Seq<char>)| (e.0, e.1, "change"@),
            ));
        }
        i = i + 1;
    }
    proof {
        assert(tgt.take(i as int) =~= tgt);
    }
    index
}

} // verus!
