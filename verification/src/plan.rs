//! The build planner's decisions: artifact file names, the pruning of stale
//! artifacts, the classification of scanned files, and the per-path
//! accumulation of structured configs, flat-text configs and opaque files.
//! Every decision is a pure function of the directory listings and the
//! resolved configuration; the walking, copying and deleting stay at the
//! caller's edge.

use vstd::prelude::*;

use crate::envsub::{env_view, pass_envs, subst_v, SubstOutcome};
use crate::errors::McError;
use crate::lock::{get_lock_entry, lock_lookup_v, Lock};
use crate::config::{plugins_view, Plugin, PluginV};
use crate::merge::{find_key, key_index, merge_v, merge_yamls};
use crate::node::{entries_view, lemma_nodes_view, node_view, nodes_view, Node, NodeV};
use crate::text::{chars_of, lemma_strings_view_at, range_eq_str, str_eq, strings_view};
use crate::yamlio::{emit_yaml, emitted_yaml, parse_yaml_docs, parsed_wf};

verus! {

broadcast use vstd::std_specs::vec::group_vec_axioms, vstd::seq::group_seq_axioms;

/// The cache key and file names of the core artifact.
pub fn core_filename(hash: &String) -> (r: String)
    ensures
        r@ == "core-"@ + hash@ + ".jar"@,
{
    let mut s = "core-".to_owned();
    s.append(hash.as_str());
    s.append(".jar");
    s
}

/// The target file name of one plugin artifact.
pub fn plugin_filename(name: &String, version: &String, hash: &String) -> (r: String)
    ensures
        r@ == name@ + "-"@ + version@ + "-"@ + hash@ + ".jar"@,
{
    let mut s = name.clone();
    s.append("-");
    s.append(version.as_str());
    s.append("-");
    s.append(hash.as_str());
    s.append(".jar");
    s
}

/// A path under a directory.
pub fn join_path(dir: &str, name: &str) -> (r: String)
    ensures
        r@ == dir@ + "/"@ + name@,
{
    let mut s = dir.to_owned();
    s.append("/");
    s.append(name);
    s
}

/// Whether a string ends in the given suffix.
pub fn str_has_suffix(s: &str, suffix: &str) -> (r: bool)
    ensures
        r == suffix@.is_suffix_of(s@),
{
    let cs = chars_of(s);
    let n = cs.len();
    let m = suffix.unicode_len();
    if m > n {
        return false;
    }
    let r = range_eq_str(&cs, n - m, n, suffix);
    proof {
        if r {
            assert(suffix@ =~= s@.subrange(n - m, n as int));
        }
    }
    r
}

/// Whether a string starts with the given prefix.
pub fn str_has_prefix(s: &str, prefix: &str) -> (r: bool)
    ensures
        r == prefix@.is_prefix_of(s@),
{
    let cs = chars_of(s);
    let n = cs.len();
    let m = prefix.unicode_len();
    if m > n {
        return false;
    }
    let r = range_eq_str(&cs, 0, m, prefix);
    proof {
        if r {
            assert(prefix@ =~= s@.subrange(0, m as int));
        }
    }
    r
}

/// Whether a list of strings holds this one.
pub fn list_contains(v: &Vec<String>, x: &str) -> (r: bool)
    ensures
        r == strings_view(v@).contains(x@),
{
    let mut i: usize = 0;
    while i < v.len()
        invariant
            i <= v@.len(),
            forall|l: int| 0 <= l < i ==> v@[l]@ != x@,
        decreases v@.len() - i,
    {
        if str_eq(v[i].as_str(), x) {
            proof {
                lemma_strings_view_at(v@, i as int);
            }
            return true;
        }
        i = i + 1;
    }
    proof {
        if strings_view(v@).contains(x@) {
            let j = choose|j: int| 0 <= j < strings_view(v@).len() && strings_view(v@)[j] == x@;
            lemma_strings_view_at(v@, j);
        }
    }
    false
}

/// A directory the scan must skip: the target, an include already scanned,
/// or version-control metadata recorded in the ignore list.
pub fn is_ignored_dir(dir: &String, ignore: &Vec<String>) -> (r: bool)
    ensures
        r == strings_view(ignore@).contains(dir@),
{
    list_contains(ignore, dir.as_str())
}

/// A stale plugin artifact: a `.jar` in the plugins directory whose name is
/// not among the expected plugin file names.
pub open spec fn stale_plugin_v(f: Seq<char>, keep: Seq<Seq<char>>) -> bool {
    ".jar"@.is_suffix_of(f) && !keep.contains(f)
}

/// The files pruning deletes from the plugins directory, in listing order.
pub open spec fn prune_plugins_v(existing: Seq<Seq<char>>, keep: Seq<Seq<char>>) -> Seq<Seq<char>>
    decreases existing,
{
    if existing.len() == 0 {
        Seq::empty()
    } else {
        (if stale_plugin_v(existing[0], keep) {
            seq![existing[0]]
        } else {
            Seq::empty()
        }) + prune_plugins_v(existing.drop_first(), keep)
    }
}

/// A stale core artifact: a `core-….jar` other than the locked one.
pub open spec fn stale_core_v(f: Seq<char>, core_file: Seq<char>) -> bool {
    ".jar"@.is_suffix_of(f) && "core-"@.is_prefix_of(f) && f != core_file
}

/// The files core staging deletes from the target directory, in listing
/// order.
pub open spec fn prune_core_v(existing: Seq<Seq<char>>, core_file: Seq<char>) -> Seq<Seq<char>>
    decreases existing,
{
    if existing.len() == 0 {
        Seq::empty()
    } else {
        (if stale_core_v(existing[0], core_file) {
            seq![existing[0]]
        } else {
            Seq::empty()
        }) + prune_core_v(existing.drop_first(), core_file)
    }
}

/// The deletions plugin staging performs, given the plugins directory
/// listing and the expected file names.
pub fn prune_plugins_plan(existing: &Vec<String>, keep: &Vec<String>) -> (r: Vec<String>)
    ensures
        strings_view(r@) == prune_plugins_v(strings_view(existing@), strings_view(keep@)),
{
    let ghost xv = strings_view(existing@);
    let ghost kv = strings_view(keep@);
    let mut out: Vec<String> = Vec::new();
    let mut i: usize = 0;
    proof {
        assert(xv.skip(0) =~= xv);
        assert(strings_view(out@) + prune_plugins_v(xv, kv) =~= prune_plugins_v(xv, kv));
    }
    while i < existing.len()
        invariant
            xv == strings_view(existing@),
            kv == strings_view(keep@),
            xv.len() == existing@.len(),
            forall|l: int| 0 <= l < existing@.len() ==> xv[l] == existing@[l]@,
            i <= existing@.len(),
            strings_view(out@) + prune_plugins_v(xv.skip(i as int), kv) == prune_plugins_v(xv, kv),
        decreases existing@.len() - i,
    {
        let ghost out0 = out@;
        proof {
            assert(xv.skip(i as int)[0] == xv[i as int]);
            assert(xv.skip(i as int).drop_first() =~= xv.skip(i + 1));
        }
        let f = &existing[i];
        if str_has_suffix(f.as_str(), ".jar") && !list_contains(keep, f.as_str()) {
            out.push(f.clone());
            proof {
                assert forall|l: int| 0 <= l < out@.len() implies strings_view(out@)[l]
                    == out@[l]@ by {
                    lemma_strings_view_at(out@, l);
                }
                assert(strings_view(out@) =~= strings_view(out0).push(xv[i as int]));
                assert(strings_view(out0) + (seq![xv[i as int]] + prune_plugins_v(
                    xv.skip(i + 1),
                    kv,
                )) =~= strings_view(out@) + prune_plugins_v(xv.skip(i + 1), kv));
            }
        } else {
            proof {
                assert(Seq::<Seq<char>>::empty() + prune_plugins_v(xv.skip(i + 1), kv)
                    =~= prune_plugins_v(xv.skip(i + 1), kv));
            }
        }
        i = i + 1;
    }
    proof {
        assert(xv.skip(existing@.len() as int) =~= Seq::<Seq<char>>::empty());
        assert(strings_view(out@) + Seq::<Seq<char>>::empty() =~= strings_view(out@));
    }
    out
}

/// The deletions core staging performs, given the target directory listing
/// and the locked core file name.
pub fn prune_core_plan(existing: &Vec<String>, core_file: &String) -> (r: Vec<String>)
    ensures
        strings_view(r@) == prune_core_v(strings_view(existing@), core_file@),
{
    let ghost xv = strings_view(existing@);
    let mut out: Vec<String> = Vec::new();
    let mut i: usize = 0;
    proof {
        assert(xv.skip(0) =~= xv);
        assert(strings_view(out@) + prune_core_v(xv, core_file@) =~= prune_core_v(xv, core_file@));
    }
    while i < existing.len()
        invariant
            xv == strings_view(existing@),
            xv.len() == existing@.len(),
            forall|l: int| 0 <= l < existing@.len() ==> xv[l] == existing@[l]@,
            i <= existing@.len(),
            strings_view(out@) + prune_core_v(xv.skip(i as int), core_file@) == prune_core_v(
                xv,
                core_file@,
            ),
        decreases existing@.len() - i,
    {
        let ghost out0 = out@;
        proof {
            assert(xv.skip(i as int)[0] == xv[i as int]);
            assert(xv.skip(i as int).drop_first() =~= xv.skip(i + 1));
        }
        let f = &existing[i];
        if str_has_suffix(f.as_str(), ".jar") && str_has_prefix(f.as_str(), "core-") && !str_eq(
            f.as_str(),
            core_file.as_str(),
        ) {
            out.push(f.clone());
            proof {
                assert forall|l: int| 0 <= l < out@.len() implies strings_view(out@)[l]
                    == out@[l]@ by {
                    lemma_strings_view_at(out@, l);
                }
                assert(strings_view(out@) =~= strings_view(out0).push(xv[i as int]));
                assert(strings_view(out0) + (seq![xv[i as int]] + prune_core_v(
                    xv.skip(i + 1),
                    core_file@,
                )) =~= strings_view(out@) + prune_core_v(xv.skip(i + 1), core_file@));
            }
        } else {
            proof {
                assert(Seq::<Seq<char>>::empty() + prune_core_v(xv.skip(i + 1), core_file@)
                    =~= prune_core_v(xv.skip(i + 1), core_file@));
            }
        }
        i = i + 1;
    }
    proof {
        assert(xv.skip(existing@.len() as int) =~= Seq::<Seq<char>>::empty());
        assert(strings_view(out@) + Seq::<Seq<char>>::empty() =~= strings_view(out@));
    }
    out
}

/// Pruning deletes exactly the stale files of the listing: every listed
/// stale file is in the plan, nothing else is.
pub proof fn lemma_prune_plugins_exact(existing: Seq<Seq<char>>, keep: Seq<Seq<char>>, f: Seq<char>)
    ensures
        prune_plugins_v(existing, keep).contains(f) <==> existing.contains(f) && stale_plugin_v(
            f,
            keep,
        ),
    decreases existing,
{
    if existing.len() > 0 {
        lemma_prune_plugins_exact(existing.drop_first(), keep, f);
        let head = if stale_plugin_v(existing[0], keep) {
            seq![existing[0]]
        } else {
            Seq::<Seq<char>>::empty()
        };
        let rest = prune_plugins_v(existing.drop_first(), keep);
        assert(prune_plugins_v(existing, keep) == head + rest);
        if existing.drop_first().contains(f) {
            let j = choose|j: int|
                0 <= j < existing.drop_first().len() && existing.drop_first()[j] == f;
            assert(existing[j + 1] == f);
        }
        if existing.contains(f) && stale_plugin_v(f, keep) {
            let j = choose|j: int| 0 <= j < existing.len() && existing[j] == f;
            if j > 0 {
                assert(existing.drop_first()[j - 1] == f);
                let l = choose|l: int| 0 <= l < rest.len() && rest[l] == f;
                assert((head + rest)[head.len() + l] == f);
            } else {
                assert((head + rest)[0] == f);
            }
        }
        if prune_plugins_v(existing, keep).contains(f) {
            let j = choose|j: int|
                0 <= j < prune_plugins_v(existing, keep).len() && prune_plugins_v(existing, keep)[j]
                    == f;
            if j >= head.len() {
                assert(rest[j - head.len()] == f);
            } else {
                assert(f == existing[0]);
                assert(existing[0int] == f);
            }
        }
    }
}

/// A plugins directory that holds exactly expected files is not touched:
/// re-running the staging prunes nothing.
pub proof fn lemma_prune_plugins_idempotent(existing: Seq<Seq<char>>, keep: Seq<Seq<char>>)
    requires
        forall|i: int| 0 <= i < existing.len() ==> keep.contains(existing[i]),
    ensures
        prune_plugins_v(existing, keep) == Seq::<Seq<char>>::empty(),
    decreases existing,
{
    if existing.len() > 0 {
        assert(keep.contains(existing[0]));
        assert forall|i: int| 0 <= i < existing.drop_first().len() implies keep.contains(
            existing.drop_first()[i],
        ) by {
            assert(existing.drop_first()[i] == existing[i + 1]);
        }
        lemma_prune_plugins_idempotent(existing.drop_first(), keep);
        assert(Seq::<Seq<char>>::empty() + Seq::<Seq<char>>::empty() =~= Seq::<Seq<char>>::empty());
    }
}

/// A target directory whose only core artifact is the locked one is not
/// touched: re-running the staging prunes nothing.
pub proof fn lemma_prune_core_idempotent(existing: Seq<Seq<char>>, core_file: Seq<char>)
    requires
        forall|i: int| 0 <= i < existing.len() ==> !stale_core_v(existing[i], core_file),
    ensures
        prune_core_v(existing, core_file) == Seq::<Seq<char>>::empty(),
    decreases existing,
{
    if existing.len() > 0 {
        assert forall|i: int| 0 <= i < existing.drop_first().len() implies !stale_core_v(
            existing.drop_first()[i],
            core_file,
        ) by {
            assert(existing.drop_first()[i] == existing[i + 1]);
        }
        lemma_prune_core_idempotent(existing.drop_first(), core_file);
        assert(Seq::<Seq<char>>::empty() + Seq::<Seq<char>>::empty() =~= Seq::<Seq<char>>::empty());
    }
}

/// The files staging copies from the cache: the expected ones not already
/// present, in expectation order.
pub open spec fn copy_missing_v(expected: Seq<Seq<char>>, present: Seq<Seq<char>>) -> Seq<Seq<char>>
    decreases expected,
{
    if expected.len() == 0 {
        Seq::empty()
    } else {
        (if !present.contains(expected[0]) {
            seq![expected[0]]
        } else {
            Seq::empty()
        }) + copy_missing_v(expected.drop_first(), present)
    }
}

/// The copies staging performs: expected files the target listing lacks.
pub fn copy_plan(expected: &Vec<String>, present: &Vec<String>) -> (r: Vec<String>)
    ensures
        strings_view(r@) == copy_missing_v(strings_view(expected@), strings_view(present@)),
{
    let ghost xv = strings_view(expected@);
    let ghost pv = strings_view(present@);
    let mut out: Vec<String> = Vec::new();
    let mut i: usize = 0;
    proof {
        assert(xv.skip(0) =~= xv);
        assert(strings_view(out@) + copy_missing_v(xv, pv) =~= copy_missing_v(xv, pv));
    }
    while i < expected.len()
        invariant
            xv == strings_view(expected@),
            pv == strings_view(present@),
            xv.len() == expected@.len(),
            forall|l: int| 0 <= l < expected@.len() ==> xv[l] == expected@[l]@,
            i <= expected@.len(),
            strings_view(out@) + copy_missing_v(xv.skip(i as int), pv) == copy_missing_v(xv, pv),
        decreases expected@.len() - i,
    {
        let ghost out0 = out@;
        proof {
            assert(xv.skip(i as int)[0] == xv[i as int]);
            assert(xv.skip(i as int).drop_first() =~= xv.skip(i + 1));
        }
        let f = &expected[i];
        if !list_contains(present, f.as_str()) {
            out.push(f.clone());
            proof {
                assert forall|l: int| 0 <= l < out@.len() implies strings_view(out@)[l]
                    == out@[l]@ by {
                    lemma_strings_view_at(out@, l);
                }
                assert(strings_view(out@) =~= strings_view(out0).push(xv[i as int]));
                assert(strings_view(out0) + (seq![xv[i as int]] + copy_missing_v(
                    xv.skip(i + 1),
                    pv,
                )) =~= strings_view(out@) + copy_missing_v(xv.skip(i + 1), pv));
            }
        } else {
            proof {
                assert(Seq::<Seq<char>>::empty() + copy_missing_v(xv.skip(i + 1), pv)
                    =~= copy_missing_v(xv.skip(i + 1), pv));
            }
        }
        i = i + 1;
    }
    proof {
        assert(xv.skip(expected@.len() as int) =~= Seq::<Seq<char>>::empty());
        assert(strings_view(out@) + Seq::<Seq<char>>::empty() =~= strings_view(out@));
    }
    out
}

/// Build idempotence for staging: a target that already holds every
/// expected file takes no copy — a second run performs zero redundant
/// cache reads or target writes.
pub proof fn lemma_copy_idempotent(expected: Seq<Seq<char>>, present: Seq<Seq<char>>)
    requires
        forall|i: int| 0 <= i < expected.len() ==> present.contains(expected[i]),
    ensures
        copy_missing_v(expected, present) == Seq::<Seq<char>>::empty(),
    decreases expected,
{
    if expected.len() > 0 {
        assert(present.contains(expected[0]));
        assert forall|i: int| 0 <= i < expected.drop_first().len() implies present.contains(
            expected.drop_first()[i],
        ) by {
            assert(expected.drop_first()[i] == expected[i + 1]);
        }
        lemma_copy_idempotent(expected.drop_first(), present);
        assert(Seq::<Seq<char>>::empty() + Seq::<Seq<char>>::empty() =~= Seq::<Seq<char>>::empty());
    }
}

/// What plugin staging expects in the plugins directory, or the first
/// configured plugin the lock does not pin.
pub enum PlanOutcome {
    Files(Seq<Seq<char>>),
    MissingName(Seq<char>),
}

/// The expected plugin file names, one per configured plugin in table order:
/// `name-version-digest.jar`.
pub open spec fn expected_plugin_files_v(
    plugins: Seq<(Seq<char>, PluginV)>,
    lock: Seq<(Seq<char>, Seq<char>)>,
) -> PlanOutcome
    decreases plugins,
{
    if plugins.len() == 0 {
        PlanOutcome::Files(Seq::empty())
    } else {
        match lock_lookup_v(lock, plugins[0].0) {
            None => PlanOutcome::MissingName(plugins[0].0),
            Some(h) => match expected_plugin_files_v(plugins.drop_first(), lock) {
                PlanOutcome::Files(rest) => PlanOutcome::Files(
                    seq![plugins[0].0 + "-"@ + plugins[0].1.version + "-"@ + h + ".jar"@] + rest,
                ),
                m => m,
            },
        }
    }
}

/// The expected plugin file names under the given lock; a plugin the lock
/// does not pin is the missing-lock-entry condition naming it, exactly then.
pub fn plugin_expected_files(plugins: &Vec<(String, Plugin)>, lock: &Lock) -> (r: Result<
    Vec<String>,
    McError,
>)
    ensures
        match r {
            Ok(v) => expected_plugin_files_v(plugins_view(plugins@), lock@) == PlanOutcome::Files(
                strings_view(v@),
            ),
            Err(e) => match e {
                McError::MissingLockEntry(n) => expected_plugin_files_v(
                    plugins_view(plugins@),
                    lock@,
                ) == PlanOutcome::MissingName(n@),
                _ => false,
            },
        },
{
    let ghost pv = plugins_view(plugins@);
    proof {
        assert forall|l: int| 0 <= l < plugins@.len() implies pv[l] == (
            plugins@[l].0@,
            plugins@[l].1@,
        ) by {
            assert(pv[l] == (plugins@[l].0@, plugins@[l].1@));
        }
    }
    let mut out: Vec<String> = Vec::new();
    let mut i: usize = 0;
    proof {
        assert(pv.skip(0) =~= pv);
        match expected_plugin_files_v(pv, lock@) {
            PlanOutcome::Files(rest) => {
                assert(strings_view(out@) + rest =~= rest);
            },
            _ => {},
        }
    }
    while i < plugins.len()
        invariant
            pv == plugins_view(plugins@),
            pv.len() == plugins@.len(),
            forall|l: int| 0 <= l < plugins@.len() ==> pv[l] == (plugins@[l].0@, plugins@[l].1@),
            i <= plugins@.len(),
            match expected_plugin_files_v(pv.skip(i as int), lock@) {
                PlanOutcome::Files(rest) => expected_plugin_files_v(pv, lock@)
                    == PlanOutcome::Files(strings_view(out@) + rest),
                m => expected_plugin_files_v(pv, lock@) == m,
            },
        decreases plugins@.len() - i,
    {
        let ghost out0 = out@;
        proof {
            assert(pv.skip(i as int)[0] == pv[i as int]);
            assert(pv.skip(i as int).drop_first() =~= pv.skip(i + 1));
        }
        let name = &plugins[i].0;
        let hash = get_lock_entry(name, lock)?;
        let file = plugin_filename(name, &plugins[i].1.version, &hash);
        out.push(file);
        proof {
            assert forall|l: int| 0 <= l < out@.len() implies strings_view(out@)[l] == out@[l]@ by {
                lemma_strings_view_at(out@, l);
            }
            assert(strings_view(out@) =~= strings_view(out0).push(
                pv[i as int].0 + "-"@ + pv[i as int].1.version + "-"@ + hash@ + ".jar"@,
            ));
            match expected_plugin_files_v(pv.skip(i + 1), lock@) {
                PlanOutcome::Files(rest) => {
                    assert(strings_view(out0) + (seq![
                        pv[i as int].0 + "-"@ + pv[i as int].1.version + "-"@ + hash@ + ".jar"@,
                    ] + rest) =~= strings_view(out@) + rest);
                },
                _ => {},
            }
        }
        i = i + 1;
    }
    proof {
        assert(pv.skip(plugins@.len() as int) =~= Seq::<(Seq<char>, crate::config::PluginV)>::empty());
        assert(strings_view(out@) + Seq::<Seq<char>>::empty() =~= strings_view(out@));
    }
    Ok(out)
}

/// Index of the last occurrence of a character, or -1.
pub open spec fn last_index(s: Seq<char>, c: char) -> int
    decreases s,
{
    if s.len() == 0 {
        -1
    } else if s[s.len() - 1] == c {
        s.len() - 1
    } else {
        last_index(s.drop_last(), c)
    }
}

/// The last occurrence of `c` is at `j`; then `last_index` returns `j`.
proof fn lemma_last_index_at(s: Seq<char>, c: char, j: int)
    requires
        0 <= j < s.len(),
        s[j] == c,
        forall|l: int| j < l < s.len() ==> s[l] != c,
    ensures
        last_index(s, c) == j,
    decreases s,
{
    if j < s.len() - 1 {
        assert(s.drop_last()[j] == s[j]);
        assert forall|l: int| j < l < s.drop_last().len() implies s.drop_last()[l] != c by {
            assert(s.drop_last()[l] == s[l]);
        }
        lemma_last_index_at(s.drop_last(), c, j);
    }
}

/// `c` occurs nowhere; then `last_index` returns -1.
proof fn lemma_last_index_none(s: Seq<char>, c: char)
    requires
        forall|l: int| 0 <= l < s.len() ==> s[l] != c,
    ensures
        last_index(s, c) == -1,
    decreases s,
{
    if s.len() > 0 {
        assert forall|l: int| 0 <= l < s.drop_last().len() implies s.drop_last()[l] != c by {
            assert(s.drop_last()[l] == s[l]);
        }
        lemma_last_index_none(s.drop_last(), c);
    }
}

/// The extension of a path: what follows the last dot of its final
/// component, unless that component has no dot past its first character.
pub open spec fn ext_of(p: Seq<char>) -> Option<Seq<char>> {
    let comp_start = last_index(p, '/') + 1;
    let d = last_index(p, '.');
    if d > comp_start {
        Some(p.subrange(d + 1, p.len() as int))
    } else {
        None
    }
}

/// The three kinds a scanned file is staged as.
#[derive(Debug, PartialEq, Eq, Structural, Clone, Copy)]
pub enum FileKind {
    /// Structured config: merged by relative path across all scanned roots.
    StructuredConfig,
    /// Flat text config: last scanned root wins, copied with substitution.
    FlatText,
    /// Anything else: copied byte for byte.
    Opaque,
}

/// The kind a path's extension assigns.
pub open spec fn spec_classify(p: Seq<char>) -> FileKind {
    match ext_of(p) {
        Some(e) => if e == "yml"@ || e == "yaml"@ {
            FileKind::StructuredConfig
        } else if e == "properties"@ || e == "conf"@ || e == "txt"@ || e == "json"@ || e
            == "toml"@ {
            FileKind::FlatText
        } else {
            FileKind::Opaque
        },
        None => FileKind::Opaque,
    }
}

/// The last position of a character in a character list.
fn last_char_at(cs: &Vec<char>, c: char) -> (r: Option<usize>)
    ensures
        match r {
            Some(j) => j < cs@.len() && last_index(cs@, c) == j as int,
            None => last_index(cs@, c) == -1,
        },
{
    let mut j: usize = cs.len();
    while j > 0
        invariant
            j <= cs@.len(),
            forall|l: int| j <= l < cs@.len() ==> cs@[l] != c,
        decreases j,
    {
        j = j - 1;
        if cs[j] == c {
            proof {
                lemma_last_index_at(cs@, c, j as int);
            }
            return Some(j);
        }
    }
    proof {
        lemma_last_index_none(cs@, c);
    }
    None
}

/// Classify one scanned file by its extension.
pub fn classify(path: &str) -> (r: FileKind)
    ensures
        r == spec_classify(path@),
{
    let cs = chars_of(path);
    let n = cs.len();
    let comp_start: usize = match last_char_at(&cs, '/') {
        Some(j) => j + 1,
        None => 0,
    };
    let d: usize = match last_char_at(&cs, '.') {
        Some(j) => j,
        None => {
            return FileKind::Opaque;
        },
    };
    if d <= comp_start {
        return FileKind::Opaque;
    }
    if range_eq_str(&cs, d + 1, n, "yml") || range_eq_str(&cs, d + 1, n, "yaml") {
        FileKind::StructuredConfig
    } else if range_eq_str(&cs, d + 1, n, "properties") || range_eq_str(&cs, d + 1, n, "conf")
        || range_eq_str(&cs, d + 1, n, "txt") || range_eq_str(&cs, d + 1, n, "json")
        || range_eq_str(&cs, d + 1, n, "toml") {
        FileKind::FlatText
    } else {
        FileKind::Opaque
    }
}

/// Image of a path table (relative path to source path).
pub open spec fn pairs_view(v: Seq<(String, String)>) -> Seq<(Seq<char>, Seq<char>)> {
    v.map(|i: int, e: (String, String)| (e.0@, e.1@))
}

/// Index of the first pair with the key, or -1.
pub open spec fn pair_index(es: Seq<(Seq<char>, Seq<char>)>, k: Seq<char>) -> int
    decreases es,
{
    if es.len() == 0 {
        -1
    } else if es[0].0 == k {
        0
    } else if pair_index(es.drop_first(), k) == -1 {
        -1
    } else {
        1 + pair_index(es.drop_first(), k)
    }
}

/// The first pair with key `k` is at `j`; then `pair_index` returns `j`.
proof fn lemma_pair_index_at(es: Seq<(Seq<char>, Seq<char>)>, k: Seq<char>, j: int)
    requires
        0 <= j < es.len(),
        es[j].0 == k,
        forall|l: int| 0 <= l < j ==> es[l].0 != k,
    ensures
        pair_index(es, k) == j,
    decreases es,
{
    if j > 0 {
        assert forall|l: int| 0 <= l < j - 1 implies es.drop_first()[l].0 != k by {
            assert(es.drop_first()[l] == es[l + 1]);
        }
        assert(es.drop_first()[j - 1] == es[j]);
        lemma_pair_index_at(es.drop_first(), k, j - 1);
    }
}

/// No pair has key `k`; then `pair_index` returns -1.
proof fn lemma_pair_index_none(es: Seq<(Seq<char>, Seq<char>)>, k: Seq<char>)
    requires
        forall|l: int| 0 <= l < es.len() ==> es[l].0 != k,
    ensures
        pair_index(es, k) == -1,
    decreases es,
{
    if es.len() > 0 {
        assert forall|l: int| 0 <= l < es.drop_first().len() implies es.drop_first()[l].0 != k by {
            assert(es.drop_first()[l] == es[l + 1]);
        }
        lemma_pair_index_none(es.drop_first(), k);
    }
}

/// `pairs_view` maps the table pointwise.
proof fn lemma_pairs_view_at(v: Seq<(String, String)>, i: int)
    requires
        0 <= i < v.len(),
    ensures
        pairs_view(v).len() == v.len(),
        pairs_view(v)[i] == (v[i].0@, v[i].1@),
{
    assert(pairs_view(v)[i] == (v[i].0@, v[i].1@));
}

/// Find the first pair with the key.
fn find_pair(es: &Vec<(String, String)>, k: &str) -> (r: Option<usize>)
    ensures
        match r {
            Some(j) => j < es@.len() && pair_index(pairs_view(es@), k@) == j as int,
            None => pair_index(pairs_view(es@), k@) == -1,
        },
{
    let mut j: usize = 0;
    while j < es.len()
        invariant
            j <= es@.len(),
            forall|l: int| 0 <= l < j ==> es@[l].0@ != k@,
        decreases es@.len() - j,
    {
        if str_eq(es[j].0.as_str(), k) {
            proof {
                lemma_pairs_view_at(es@, j as int);
                assert forall|l: int| 0 <= l < j implies pairs_view(es@)[l].0 != k@ by {
                    lemma_pairs_view_at(es@, l);
                }
                lemma_pair_index_at(pairs_view(es@), k@, j as int);
            }
            return Some(j);
        }
        j = j + 1;
    }
    proof {
        assert forall|l: int| 0 <= l < pairs_view(es@).len() implies pairs_view(es@)[l].0 != k@ by {
            lemma_pairs_view_at(es@, l);
        }
        lemma_pair_index_none(pairs_view(es@), k@);
    }
    None
}

/// Record a path in a last-wins table: an existing relative path keeps its
/// position and takes the new source path, a fresh one is appended.
fn upsert_path(table: &mut Vec<(String, String)>, k: &String, v: &String)
    ensures
        ({
            let es0 = pairs_view(old(table)@);
            let i = pair_index(es0, k@);
            if i == -1 {
                pairs_view(final(table)@) == es0.push((k@, v@))
            } else {
                pairs_view(final(table)@) == es0.update(i, (k@, v@))
            }
        }),
{
    let ghost es0 = pairs_view(table@);
    proof {
        if table@.len() > 0 {
            lemma_pairs_view_at(table@, 0);
        }
    }
    match find_pair(table, k.as_str()) {
        Some(j) => {
            let ghost t0 = table@;
            table.remove(j);
            table.insert(j, (k.clone(), v.clone()));
            proof {
                assert(table@ =~= t0.update(j as int, (table@[j as int].0, table@[j as int].1)));
                assert forall|l: int| 0 <= l < table@.len() implies pairs_view(table@)[l] == (
                    table@[l].0@,
                    table@[l].1@,
                ) by {
                    lemma_pairs_view_at(table@, l);
                }
                assert forall|l: int| 0 <= l < t0.len() implies pairs_view(t0)[l] == (
                    t0[l].0@,
                    t0[l].1@,
                ) by {
                    lemma_pairs_view_at(t0, l);
                }
                assert(pairs_view(table@) =~= es0.update(j as int, (k@, v@)));
            }
        },
        None => {
            let ghost t0 = table@;
            table.push((k.clone(), v.clone()));
            proof {
                assert forall|l: int| 0 <= l < table@.len() implies pairs_view(table@)[l] == (
                    table@[l].0@,
                    table@[l].1@,
                ) by {
                    lemma_pairs_view_at(table@, l);
                }
                assert forall|l: int| 0 <= l < t0.len() implies pairs_view(t0)[l] == (
                    t0[l].0@,
                    t0[l].1@,
                ) by {
                    lemma_pairs_view_at(t0, l);
                }
                assert(pairs_view(table@) =~= es0.push((k@, v@)));
            }
        },
    }
}

/// The per-path accumulators of one file-assembly pass, created fresh on
/// every build invocation by re-scanning and never persisted.
pub struct Assembly {
    /// Relative path to the structured document merged so far across roots.
    pub yml_configs: Vec<(String, Node)>,
    /// Relative path to the source path of the last flat-text config seen.
    pub etc_configs: Vec<(String, String)>,
    /// Relative path to the source path of the last opaque file seen.
    pub etc_files: Vec<(String, String)>,
}

impl Assembly {
    /// Empty accumulators.
    pub fn new() -> (r: Assembly)
        ensures
            entries_view(r.yml_configs@) == Seq::<(Seq<char>, NodeV)>::empty(),
            pairs_view(r.etc_configs@) == Seq::<(Seq<char>, Seq<char>)>::empty(),
            pairs_view(r.etc_files@) == Seq::<(Seq<char>, Seq<char>)>::empty(),
    {
        let r = Assembly { yml_configs: Vec::new(), etc_configs: Vec::new(), etc_files: Vec::new() };
        proof {
            assert(entries_view(r.yml_configs@) =~= Seq::<(Seq<char>, NodeV)>::empty());
            assert(pairs_view(r.etc_configs@) =~= Seq::<(Seq<char>, Seq<char>)>::empty());
            assert(pairs_view(r.etc_files@) =~= Seq::<(Seq<char>, Seq<char>)>::empty());
        }
        r
    }

    /// Track a flat-text config: the last scanned root wins.
    pub fn record_flat(&mut self, relpath: &String, src_path: &String)
        ensures
            ({
                let es0 = pairs_view(old(self).etc_configs@);
                let i = pair_index(es0, relpath@);
                &&& final(self).yml_configs == old(self).yml_configs
                &&& final(self).etc_files == old(self).etc_files
                &&& if i == -1 {
                    pairs_view(final(self).etc_configs@) == es0.push((relpath@, src_path@))
                } else {
                    pairs_view(final(self).etc_configs@) == es0.update(i, (relpath@, src_path@))
                }
            }),
    {
        upsert_path(&mut self.etc_configs, relpath, src_path);
    }

    /// Track an opaque file: the last scanned root wins.
    pub fn record_opaque(&mut self, relpath: &String, src_path: &String)
        ensures
            ({
                let es0 = pairs_view(old(self).etc_files@);
                let i = pair_index(es0, relpath@);
                &&& final(self).yml_configs == old(self).yml_configs
                &&& final(self).etc_configs == old(self).etc_configs
                &&& if i == -1 {
                    pairs_view(final(self).etc_files@) == es0.push((relpath@, src_path@))
                } else {
                    pairs_view(final(self).etc_files@) == es0.update(i, (relpath@, src_path@))
                }
            }),
    {
        upsert_path(&mut self.etc_files, relpath, src_path);
    }

    /// Accumulate one structured-config text under its relative path: an
    /// empty text is a null placeholder only when no root has produced
    /// content for the path; more than one document is refused; a second
    /// document for a path merges on top of the accumulated one, both sides
    /// maps.
    pub fn record_structured(&mut self, relpath: &String, text: &str) -> (r: Result<(), McError>)
        ensures
            final(self).etc_configs == old(self).etc_configs,
            final(self).etc_files == old(self).etc_files,
            ({
                let ev0 = entries_view(old(self).yml_configs@);
                let ev1 = entries_view(final(self).yml_configs@);
                let i = key_index(ev0, relpath@);
                match r {
                    Ok(u) => match parsed_wf(text@) {
                        Some(docs) => if docs.len() == 0 {
                            if i >= 0 {
                                ev1 == ev0
                            } else {
                                ev1 == ev0.push((relpath@, NodeV::Null))
                            }
                        } else {
                            docs.len() == 1 && if i == -1 {
                                ev1 == ev0.push((relpath@, docs[0]))
                            } else {
                                ev0[i].1 is Dict && docs[0] is Dict && ev1 == ev0.update(
                                    i,
                                    (relpath@, merge_v(ev0[i].1, docs[0])),
                                )
                            }
                        },
                        None => false,
                    },
                    Err(e) => ev1 == ev0 && match e {
                        McError::Parse(m) => parsed_wf(text@) is None,
                        McError::MultipleDocs(n) => n@ == relpath@ && match parsed_wf(text@) {
                            Some(docs) => docs.len() > 1,
                            None => false,
                        },
                        McError::NotMergeable => match parsed_wf(text@) {
                            Some(docs) => docs.len() == 1 && i >= 0 && !(ev0[i].1 is Dict
                                && docs[0] is Dict),
                            None => false,
                        },
                        _ => false,
                    },
                }
            }),
    {
        let ghost ev0 = entries_view(self.yml_configs@);
        let mut docs = parse_yaml_docs(text)?;
        proof {
            lemma_nodes_view(docs@);
            crate::node::lemma_entries_view(self.yml_configs@);
        }
        if docs.len() == 0 {
            match find_key(&self.yml_configs, relpath) {
                Some(_) => Ok(()),
                None => {
                    let ghost t0 = self.yml_configs@;
                    self.yml_configs.push((relpath.clone(), Node::Null));
                    proof {
                        crate::node::lemma_entries_view(self.yml_configs@);
                        assert(entries_view(self.yml_configs@) =~= ev0.push((relpath@, NodeV::Null)));
                    }
                    Ok(())
                },
            }
        } else if docs.len() > 1 {
            Err(McError::MultipleDocs(relpath.clone()))
        } else {
            let ghost dv = nodes_view(docs@)[0];
            match find_key(&self.yml_configs, relpath) {
                None => {
                    let d = docs.remove(0);
                    let ghost t0 = self.yml_configs@;
                    self.yml_configs.push((relpath.clone(), d));
                    proof {
                        crate::node::lemma_entries_view(self.yml_configs@);
                        assert(entries_view(self.yml_configs@) =~= ev0.push((relpath@, dv)));
                    }
                    Ok(())
                },
                Some(j) => {
                    let merged = match merge_yamls(&self.yml_configs[j].1, &docs[0]) {
                        Ok(m) => m,
                        Err(e) => {
                            return Err(e);
                        },
                    };
                    let ghost t0 = self.yml_configs@;
                    self.yml_configs.remove(j);
                    self.yml_configs.insert(j, (relpath.clone(), merged));
                    proof {
                        assert(self.yml_configs@ =~= t0.update(
                            j as int,
                            (self.yml_configs@[j as int].0, self.yml_configs@[j as int].1),
                        ));
                        crate::node::lemma_entries_view(self.yml_configs@);
                        crate::node::lemma_entries_view(t0);
                        assert(entries_view(self.yml_configs@) =~= ev0.update(
                            j as int,
                            (relpath@, merge_v(ev0[j as int].1, dv)),
                        ));
                    }
                    Ok(())
                },
            }
        }
    }
}

/// One structured output: the accumulated document serialized and
/// environment-substituted, ready to be written under the target.
pub fn render_structured(n: &Node, env: &Vec<(String, String)>) -> (r: Result<String, McError>)
    ensures
        match r {
            Ok(s) => subst_v(emitted_yaml(n@), env_view(env@)) == SubstOutcome::Done(s@),
            Err(e) => match e {
                McError::MissingEnvVar(nm) => subst_v(emitted_yaml(n@), env_view(env@))
                    == SubstOutcome::Missing(nm@),
                _ => false,
            },
        },
{
    let text = emit_yaml(n);
    pass_envs(text.as_str(), env)
}

} // verus!
