//! The structural merger: the single merge primitive of the system.
//! Merging document `b` into document `a` combines maps key by key
//! (recursively where both sides hold maps), concatenates arrays, and lets
//! `b` win outright everywhere else, the type-mismatch case included.

use vstd::prelude::*;

use crate::errors::McError;
use crate::node::{
    clone_entries, clone_node, clone_nodes, entries_view, lemma_entries_view, lemma_nodes_view,
    lemma_nodes_view_add, node_view, nodes_view, Node, NodeV,
};
use crate::text::str_eq;

verus! {

broadcast use vstd::std_specs::vec::group_vec_axioms, vstd::seq::group_seq_axioms;

/// Index of the first entry with key `k`, or -1 when no entry has it.
pub open spec fn key_index(es: Seq<(Seq<char>, NodeV)>, k: Seq<char>) -> int
    decreases es,
{
    if es.len() == 0 {
        -1
    } else if es[0].0 == k {
        0
    } else if key_index(es.drop_first(), k) == -1 {
        -1
    } else {
        1 + key_index(es.drop_first(), k)
    }
}

/// What one entry of `b` does to the accumulated entry list: a fresh key is
/// appended, an existing key keeps its position and has the values combined
/// by `merge_v`.
pub open spec fn upsert_v(
    es: Seq<(Seq<char>, NodeV)>,
    k: Seq<char>,
    v: NodeV,
) -> Seq<(Seq<char>, NodeV)>
    decreases v, 1int,
{
    let i = key_index(es, k);
    if i == -1 {
        es.push((k, v))
    } else {
        es.update(i, (k, merge_v(es[i].1, v)))
    }
}

/// `b`'s entries folded into `a`'s entries, left to right.
pub open spec fn merge_entries_v(
    ae: Seq<(Seq<char>, NodeV)>,
    be: Seq<(Seq<char>, NodeV)>,
) -> Seq<(Seq<char>, NodeV)>
    decreases be, 2int,
{
    if be.len() == 0 {
        ae
    } else {
        merge_entries_v(upsert_v(ae, be[0].0, be[0].1), be.drop_first())
    }
}

/// The merge of document `b` into document `a`: maps merge entry-wise,
/// arrays concatenate (`a`'s elements first), and in every other pairing,
/// the type-mismatch pairings included, `b`'s value wins outright.
pub open spec fn merge_v(a: NodeV, b: NodeV) -> NodeV
    decreases b, 0int,
{
    match (a, b) {
        (NodeV::Dict(ae), NodeV::Dict(be)) => NodeV::Dict(merge_entries_v(ae, be)),
        (NodeV::Arr(x), NodeV::Arr(y)) => NodeV::Arr(x + y),
        _ => b,
    }
}

/// `key_index` finds the first entry with the key, if any.
pub proof fn lemma_key_index(es: Seq<(Seq<char>, NodeV)>, k: Seq<char>)
    ensures
        -1 <= key_index(es, k) < es.len(),
        key_index(es, k) == -1 ==> forall|j: int| 0 <= j < es.len() ==> es[j].0 != k,
        key_index(es, k) >= 0 ==> es[key_index(es, k)].0 == k,
        key_index(es, k) >= 0 ==> forall|j: int| 0 <= j < key_index(es, k) ==> es[j].0 != k,
    decreases es,
{
    if es.len() > 0 && es[0].0 != k {
        lemma_key_index(es.drop_first(), k);
        assert forall|j: int| 1 <= j < es.len() implies es.drop_first()[j - 1] == es[j] by {}
    }
}

/// The first entry with key `k` is at `j`; then `key_index` returns `j`.
pub proof fn lemma_key_index_at(es: Seq<(Seq<char>, NodeV)>, k: Seq<char>, j: int)
    requires
        0 <= j < es.len(),
        es[j].0 == k,
        forall|l: int| 0 <= l < j ==> es[l].0 != k,
    ensures
        key_index(es, k) == j,
    decreases es,
{
    if j > 0 {
        assert forall|l: int| 0 <= l < j - 1 implies es.drop_first()[l].0 != k by {
            assert(es.drop_first()[l] == es[l + 1]);
        }
        assert(es.drop_first()[j - 1] == es[j]);
        lemma_key_index_at(es.drop_first(), k, j - 1);
    }
}

/// No entry has key `k`; then `key_index` returns -1.
pub proof fn lemma_key_index_none(es: Seq<(Seq<char>, NodeV)>, k: Seq<char>)
    requires
        forall|l: int| 0 <= l < es.len() ==> es[l].0 != k,
    ensures
        key_index(es, k) == -1,
{
    lemma_key_index(es, k);
}

/// Folding one more entry of `b` at the end applies one more upsert.
pub proof fn lemma_merge_entries_push(
    ae: Seq<(Seq<char>, NodeV)>,
    be: Seq<(Seq<char>, NodeV)>,
    e: (Seq<char>, NodeV),
)
    ensures
        merge_entries_v(ae, be.push(e)) == upsert_v(merge_entries_v(ae, be), e.0, e.1),
    decreases be,
{
    if be.len() == 0 {
        assert(be.push(e)[0] == e);
        assert(be.push(e).drop_first() =~= Seq::<(Seq<char>, NodeV)>::empty());
        assert(merge_entries_v(upsert_v(ae, e.0, e.1), Seq::empty()) == upsert_v(ae, e.0, e.1));
        assert(merge_entries_v(ae, Seq::empty()) == ae);
    } else {
        assert(be.push(e)[0] == be[0]);
        assert(be.push(e).drop_first() =~= be.drop_first().push(e));
        lemma_merge_entries_push(upsert_v(ae, be[0].0, be[0].1), be.drop_first(), e);
    }
}

/// The value at key `k` in an entry list (first occurrence), if any.
pub open spec fn get_v(es: Seq<(Seq<char>, NodeV)>, k: Seq<char>) -> Option<NodeV> {
    if key_index(es, k) >= 0 {
        Some(es[key_index(es, k)].1)
    } else {
        None
    }
}

/// The value at key `k` of a document, if the document is a map holding it.
pub open spec fn dict_get(d: NodeV, k: Seq<char>) -> Option<NodeV> {
    match d {
        NodeV::Dict(es) => get_v(es, k),
        _ => None,
    }
}

/// No two entries share a key.
pub open spec fn distinct_keys(es: Seq<(Seq<char>, NodeV)>) -> bool {
    forall|i: int, j: int| 0 <= i < j < es.len() ==> es[i].0 != es[j].0
}

/// `key_index` depends only on the keys of the entry list.
proof fn lemma_key_index_same_keys(
    s1: Seq<(Seq<char>, NodeV)>,
    s2: Seq<(Seq<char>, NodeV)>,
    k: Seq<char>,
)
    requires
        s1.len() == s2.len(),
        forall|i: int| 0 <= i < s1.len() ==> s1[i].0 == s2[i].0,
    ensures
        key_index(s1, k) == key_index(s2, k),
    decreases s1,
{
    if s1.len() > 0 && s1[0].0 != k {
        assert forall|i: int| 0 <= i < s1.drop_first().len() implies s1.drop_first()[i].0
            == s2.drop_first()[i].0 by {
            assert(s1.drop_first()[i] == s1[i + 1]);
            assert(s2.drop_first()[i] == s2[i + 1]);
        }
        lemma_key_index_same_keys(s1.drop_first(), s2.drop_first(), k);
    }
}

/// What one upsert does to every lookup: the upserted key now holds the
/// combined value, every other key is untouched.
pub proof fn lemma_upsert_get(es: Seq<(Seq<char>, NodeV)>, k0: Seq<char>, v0: NodeV, k: Seq<char>)
    ensures
        get_v(upsert_v(es, k0, v0), k) == if k == k0 {
            match get_v(es, k0) {
                Some(x) => Some(merge_v(x, v0)),
                None => Some(v0),
            }
        } else {
            get_v(es, k)
        },
{
    lemma_key_index(es, k0);
    lemma_key_index(es, k);
    let i = key_index(es, k0);
    if i == -1 {
        let u = es.push((k0, v0));
        if k == k0 {
            lemma_key_index_at(u, k, es.len() as int);
        } else {
            if key_index(es, k) >= 0 {
                lemma_key_index_at(u, k, key_index(es, k));
            } else {
                lemma_key_index_none(u, k);
            }
        }
    } else {
        let u = es.update(i, (k0, merge_v(es[i].1, v0)));
        assert forall|l: int| 0 <= l < u.len() implies u[l].0 == es[l].0 by {}
        lemma_key_index_same_keys(es, u, k);
        if k == k0 {
            // the first occurrence of k0 is still at i
        } else {
            // key_index(es, k) != i because es[i].0 == k0 != k
        }
    }
}

/// What a whole merge does to every lookup: a key of `b` wins, except that
/// a key present on both sides holds the recursive combination, and a key
/// only in `a` is kept. `b`'s keys must be distinct, as they are in any
/// decoded map.
pub proof fn lemma_merge_get(
    ae: Seq<(Seq<char>, NodeV)>,
    be: Seq<(Seq<char>, NodeV)>,
    k: Seq<char>,
)
    requires
        distinct_keys(be),
    ensures
        get_v(merge_entries_v(ae, be), k) == match (get_v(ae, k), get_v(be, k)) {
            (Some(x), Some(y)) => Some(merge_v(x, y)),
            (Some(x), None) => Some(x),
            (None, Some(y)) => Some(y),
            (None, None) => None,
        },
    decreases be,
{
    lemma_key_index(be, k);
    if be.len() == 0 {
    } else {
        let tail = be.drop_first();
        assert forall|i: int, j: int| 0 <= i < j < tail.len() implies tail[i].0 != tail[j].0 by {
            assert(tail[i] == be[i + 1]);
            assert(tail[j] == be[j + 1]);
        }
        let ae1 = upsert_v(ae, be[0].0, be[0].1);
        lemma_merge_get(ae1, tail, k);
        lemma_upsert_get(ae, be[0].0, be[0].1, k);
        lemma_key_index(tail, k);
        if k == be[0].0 {
            // k cannot recur in the tail, so the tail fold keeps ae1's value
            assert forall|l: int| 0 <= l < tail.len() implies tail[l].0 != k by {
                assert(tail[l] == be[l + 1]);
            }
            lemma_key_index_none(tail, k);
        } else {
            // get_v(be, k) is decided by the tail
            if key_index(be, k) >= 0 {
                let j = key_index(be, k);
                assert(be[j] == tail[j - 1]);
                assert forall|l: int| 0 <= l < j - 1 implies tail[l].0 != k by {
                    assert(tail[l] == be[l + 1]);
                }
                lemma_key_index_at(tail, k, j - 1);
            } else {
                assert forall|l: int| 0 <= l < tail.len() implies tail[l].0 != k by {
                    assert(tail[l] == be[l + 1]);
                }
                lemma_key_index_none(tail, k);
            }
        }
    }
}

/// The entry list of a map document (empty for any other document).
pub open spec fn entries_of(d: NodeV) -> Seq<(Seq<char>, NodeV)> {
    match d {
        NodeV::Dict(es) => es,
        _ => Seq::empty(),
    }
}

/// A sequence of documents merged into an accumulator, left to right:
/// the first document has the lowest priority.
pub open spec fn fold_merge_v(acc: NodeV, docs: Seq<NodeV>) -> NodeV
    decreases docs,
{
    if docs.len() == 0 {
        acc
    } else {
        fold_merge_v(merge_v(acc, docs[0]), docs.drop_first())
    }
}

/// Folding one more document merges it on top of the fold so far.
pub proof fn lemma_fold_merge_push(acc: NodeV, docs: Seq<NodeV>, d: NodeV)
    ensures
        fold_merge_v(acc, docs.push(d)) == merge_v(fold_merge_v(acc, docs), d),
    decreases docs,
{
    if docs.len() == 0 {
        assert(docs.push(d)[0] == d);
        assert(docs.push(d).drop_first() =~= Seq::<NodeV>::empty());
        assert(fold_merge_v(merge_v(acc, d), Seq::empty()) == merge_v(acc, d));
        assert(fold_merge_v(acc, Seq::empty()) == acc);
    } else {
        assert(docs.push(d)[0] == docs[0]);
        assert(docs.push(d).drop_first() =~= docs.drop_first().push(d));
        lemma_fold_merge_push(merge_v(acc, docs[0]), docs.drop_first(), d);
    }
}

/// Merging three documents pairwise, nested to the left, agrees with
/// folding them left to right.
pub proof fn lemma_fold_merge_agrees(a: NodeV, b: NodeV, c: NodeV)
    ensures
        fold_merge_v(a, seq![b, c]) == merge_v(merge_v(a, b), c),
{
    assert(seq![b, c] =~= Seq::<NodeV>::empty().push(b).push(c));
    lemma_fold_merge_push(a, Seq::<NodeV>::empty().push(b), c);
    lemma_fold_merge_push(a, Seq::<NodeV>::empty(), b);
}

/// A key that `b` binds to a scalar (neither map nor array) holds exactly
/// `b`'s value after the merge, whatever `a` holds at it: the override rule
/// that lets the last-merged configuration win.
pub proof fn lemma_merge_scalar_override(a: NodeV, b: NodeV, k: Seq<char>)
    requires
        a is Dict,
        b is Dict,
        distinct_keys(entries_of(b)),
        match dict_get(b, k) {
            Some(v) => !(v is Dict) && !(v is Arr),
            None => false,
        },
    ensures
        dict_get(merge_v(a, b), k) == dict_get(b, k),
{
    lemma_merge_get(entries_of(a), entries_of(b), k);
}

/// A lookup steps over a head entry with another key.
proof fn lemma_get_v_tail(es: Seq<(Seq<char>, NodeV)>, k: Seq<char>)
    requires
        es.len() > 0,
        es[0].0 != k,
    ensures
        get_v(es, k) == get_v(es.drop_first(), k),
{
    lemma_key_index(es, k);
    lemma_key_index(es.drop_first(), k);
    if key_index(es.drop_first(), k) >= 0 {
        assert(es.drop_first()[key_index(es.drop_first(), k)] == es[1 + key_index(
            es.drop_first(),
            k,
        )]);
    }
}

/// A lookup of the head entry's key takes the head's value.
proof fn lemma_get_v_head(es: Seq<(Seq<char>, NodeV)>, k: Seq<char>)
    requires
        es.len() > 0,
        es[0].0 == k,
    ensures
        get_v(es, k) == Some(es[0].1),
{
}

/// Appending an entry with another key changes no lookup of `k`.
proof fn lemma_get_v_push_other(es: Seq<(Seq<char>, NodeV)>, e: (Seq<char>, NodeV), k: Seq<char>)
    requires
        k != e.0,
    ensures
        get_v(es.push(e), k) == get_v(es, k),
{
    lemma_key_index(es, k);
    if key_index(es, k) >= 0 {
        lemma_key_index_at(es.push(e), k, key_index(es, k));
    } else {
        lemma_key_index_none(es.push(e), k);
    }
}

/// An upsert keeps the keys distinct.
proof fn lemma_upsert_distinct(es: Seq<(Seq<char>, NodeV)>, k: Seq<char>, v: NodeV)
    requires
        distinct_keys(es),
    ensures
        distinct_keys(upsert_v(es, k, v)),
{
    lemma_key_index(es, k);
    let i = key_index(es, k);
    if i == -1 {
        let u = es.push((k, v));
        assert forall|x: int, y: int| 0 <= x < y < u.len() implies u[x].0 != u[y].0 by {
            if y == es.len() {
                assert(u[x] == es[x]);
            }
        }
    } else {
        let u = es.update(i, (k, merge_v(es[i].1, v)));
        assert forall|x: int, y: int| 0 <= x < y < u.len() implies u[x].0 != u[y].0 by {
            assert(u[x].0 == es[x].0);
            assert(u[y].0 == es[y].0);
        }
    }
}

/// A merge of a distinct-keyed entry list keeps the keys distinct.
proof fn lemma_merge_entries_distinct(
    ae: Seq<(Seq<char>, NodeV)>,
    be: Seq<(Seq<char>, NodeV)>,
)
    requires
        distinct_keys(ae),
    ensures
        distinct_keys(merge_entries_v(ae, be)),
    decreases be,
{
    if be.len() > 0 {
        lemma_upsert_distinct(ae, be[0].0, be[0].1);
        lemma_merge_entries_distinct(upsert_v(ae, be[0].0, be[0].1), be.drop_first());
    }
}

/// What an existing value becomes under what `b` holds at its key.
pub open spec fn combine_opt(x: NodeV, o: Option<NodeV>) -> NodeV {
    match o {
        Some(y) => merge_v(x, y),
        None => x,
    }
}

/// `a`'s entries, each combined with what `b` holds at the same key.
pub open spec fn map_with(
    ae: Seq<(Seq<char>, NodeV)>,
    be: Seq<(Seq<char>, NodeV)>,
) -> Seq<(Seq<char>, NodeV)> {
    Seq::new(ae.len(), |i: int| (ae[i].0, combine_opt(ae[i].1, get_v(be, ae[i].0))))
}

/// `b`'s entries whose keys `a` does not hold, in order, values untouched.
pub open spec fn fresh_of(
    be: Seq<(Seq<char>, NodeV)>,
    ae: Seq<(Seq<char>, NodeV)>,
) -> Seq<(Seq<char>, NodeV)>
    decreases be,
{
    if be.len() == 0 {
        Seq::empty()
    } else {
        (if get_v(ae, be[0].0) is None {
            seq![be[0]]
        } else {
            Seq::empty()
        }) + fresh_of(be.drop_first(), ae)
    }
}

/// Which entries of `b` are fresh depends only on `a`'s keys.
proof fn lemma_fresh_same_keys(
    be: Seq<(Seq<char>, NodeV)>,
    a1: Seq<(Seq<char>, NodeV)>,
    a2: Seq<(Seq<char>, NodeV)>,
)
    requires
        a1.len() == a2.len(),
        forall|i: int| 0 <= i < a1.len() ==> a1[i].0 == a2[i].0,
    ensures
        fresh_of(be, a1) == fresh_of(be, a2),
    decreases be,
{
    if be.len() > 0 {
        lemma_key_index_same_keys(a1, a2, be[0].0);
        lemma_fresh_same_keys(be.drop_first(), a1, a2);
    }
}

/// Appending an entry whose key `b` never uses changes nothing fresh.
proof fn lemma_fresh_push_other(
    be: Seq<(Seq<char>, NodeV)>,
    ae: Seq<(Seq<char>, NodeV)>,
    e: (Seq<char>, NodeV),
)
    requires
        forall|i: int| 0 <= i < be.len() ==> be[i].0 != e.0,
    ensures
        fresh_of(be, ae.push(e)) == fresh_of(be, ae),
    decreases be,
{
    if be.len() > 0 {
        lemma_get_v_push_other(ae, e, be[0].0);
        assert forall|i: int| 0 <= i < be.drop_first().len() implies be.drop_first()[i].0
            != e.0 by {
            assert(be.drop_first()[i] == be[i + 1]);
        }
        lemma_fresh_push_other(be.drop_first(), ae, e);
    }
}

/// The closed form of an entry-wise merge: `a`'s entries in place, each
/// combined with `b`'s value at its key, then `b`'s fresh entries in order.
pub proof fn lemma_merge_entries_form(ae: Seq<(Seq<char>, NodeV)>, be: Seq<(Seq<char>, NodeV)>)
    requires
        distinct_keys(ae),
        distinct_keys(be),
    ensures
        merge_entries_v(ae, be) == map_with(ae, be) + fresh_of(be, ae),
    decreases be,
{
    if be.len() == 0 {
        assert forall|j: int| 0 <= j < ae.len() implies map_with(ae, be)[j] == ae[j] by {
            assert(get_v(be, ae[j].0) is None);
        }
        assert(map_with(ae, be) + fresh_of(be, ae) =~= ae);
    } else {
        let k0 = be[0].0;
        let v0 = be[0].1;
        let be1 = be.drop_first();
        let ae1 = upsert_v(ae, k0, v0);
        lemma_key_index(ae, k0);
        lemma_upsert_distinct(ae, k0, v0);
        assert forall|x: int, y: int| 0 <= x < y < be1.len() implies be1[x].0 != be1[y].0 by {
            assert(be1[x] == be[x + 1]);
            assert(be1[y] == be[y + 1]);
        }
        assert forall|l: int| 0 <= l < be1.len() implies be1[l].0 != k0 by {
            assert(be1[l] == be[l + 1]);
        }
        lemma_merge_entries_form(ae1, be1);
        lemma_key_index_none(be1, k0);
        let i = key_index(ae, k0);
        if i >= 0 {
            assert forall|l: int| 0 <= l < ae1.len() implies ae1[l].0 == ae[l].0 by {}
            lemma_fresh_same_keys(be1, ae1, ae);
            assert forall|j: int| 0 <= j < ae.len() implies map_with(ae1, be1)[j] == map_with(
                ae,
                be,
            )[j] by {
                if j == i {
                    lemma_get_v_head(be, k0);
                } else {
                    assert(ae[j].0 != k0);
                    lemma_get_v_tail(be, ae[j].0);
                }
            }
            assert(map_with(ae1, be1) =~= map_with(ae, be));
            assert(fresh_of(be, ae) == Seq::<(Seq<char>, NodeV)>::empty() + fresh_of(be1, ae));
            assert(Seq::<(Seq<char>, NodeV)>::empty() + fresh_of(be1, ae) =~= fresh_of(be1, ae));
        } else {
            let e0 = (k0, v0);
            lemma_fresh_push_other(be1, ae, e0);
            assert forall|j: int| 0 <= j < ae.len() implies map_with(ae1, be1)[j] == map_with(
                ae,
                be,
            )[j] by {
                assert(ae[j].0 != k0);
                lemma_get_v_tail(be, ae[j].0);
            }
            assert(map_with(ae1, be1)[ae.len() as int] == (k0, v0));
            assert(map_with(ae1, be1) =~= map_with(ae, be).push(be[0]));
            assert(fresh_of(be, ae) == seq![be[0]] + fresh_of(be1, ae));
            assert((map_with(ae, be).push(be[0])) + fresh_of(be1, ae) =~= map_with(ae, be) + (seq![
                be[0],
            ] + fresh_of(be1, ae)));
        }
    }
}

/// A document of maps alone: a map with distinct keys whose every value is
/// again such a document.
pub open spec fn map_pure(n: NodeV) -> bool
    decreases n,
{
    match n {
        NodeV::Dict(es) => distinct_keys(es) && map_pure_entries(es),
        _ => false,
    }
}

/// Map-purity of every value of an entry list.
pub open spec fn map_pure_entries(es: Seq<(Seq<char>, NodeV)>) -> bool
    decreases es,
{
    es.len() == 0 || (map_pure(es[0].1) && map_pure_entries(es.drop_first()))
}

/// Each value of a map-pure entry list is map-pure.
proof fn lemma_map_pure_entries_at(es: Seq<(Seq<char>, NodeV)>, i: int)
    requires
        map_pure_entries(es),
        0 <= i < es.len(),
    ensures
        map_pure(es[i].1),
    decreases i,
{
    if i > 0 {
        assert(es.drop_first()[i - 1] == es[i]);
        lemma_map_pure_entries_at(es.drop_first(), i - 1);
    }
}

/// A value looked up in a map-pure entry list is map-pure.
proof fn lemma_get_v_map_pure(es: Seq<(Seq<char>, NodeV)>, k: Seq<char>)
    requires
        map_pure_entries(es),
    ensures
        match get_v(es, k) {
            Some(v) => map_pure(v),
            None => true,
        },
{
    lemma_key_index(es, k);
    if key_index(es, k) >= 0 {
        lemma_map_pure_entries_at(es, key_index(es, k));
    }
}

/// `map_with` distributes over concatenation of the mapped list.
proof fn lemma_map_with_add(
    x: Seq<(Seq<char>, NodeV)>,
    y: Seq<(Seq<char>, NodeV)>,
    be: Seq<(Seq<char>, NodeV)>,
)
    ensures
        map_with(x + y, be) == map_with(x, be) + map_with(y, be),
{
    assert forall|i: int| 0 <= i < x.len() + y.len() implies map_with(x + y, be)[i] == (map_with(
        x,
        be,
    ) + map_with(y, be))[i] by {
        if i < x.len() {
            assert((x + y)[i] == x[i]);
        } else {
            assert((x + y)[i] == y[i - x.len()]);
        }
    }
    assert(map_with(x + y, be) =~= map_with(x, be) + map_with(y, be));
}

/// `fresh_of` distributes over concatenation of `b`'s entries.
proof fn lemma_fresh_add(
    x: Seq<(Seq<char>, NodeV)>,
    y: Seq<(Seq<char>, NodeV)>,
    ae: Seq<(Seq<char>, NodeV)>,
)
    ensures
        fresh_of(x + y, ae) == fresh_of(x, ae) + fresh_of(y, ae),
    decreases x,
{
    if x.len() == 0 {
        assert(x + y =~= y);
        assert(fresh_of(x, ae) + fresh_of(y, ae) =~= fresh_of(y, ae));
    } else {
        assert((x + y)[0] == x[0]);
        assert((x + y).drop_first() =~= x.drop_first() + y);
        lemma_fresh_add(x.drop_first(), y, ae);
        let h = if get_v(ae, x[0].0) is None {
            seq![x[0]]
        } else {
            Seq::<(Seq<char>, NodeV)>::empty()
        };
        assert((h + fresh_of(x.drop_first(), ae)) + fresh_of(y, ae) =~= h + (fresh_of(
            x.drop_first(),
            ae,
        ) + fresh_of(y, ae)));
    }
}

/// Filtering `c`'s entries against a merge filters them against both sides.
proof fn lemma_fresh_merged(
    ce: Seq<(Seq<char>, NodeV)>,
    ae: Seq<(Seq<char>, NodeV)>,
    be: Seq<(Seq<char>, NodeV)>,
)
    requires
        distinct_keys(be),
    ensures
        fresh_of(ce, merge_entries_v(ae, be)) == fresh_of(fresh_of(ce, be), ae),
    decreases ce,
{
    if ce.len() > 0 {
        let kc = ce[0].0;
        lemma_merge_get(ae, be, kc);
        lemma_fresh_merged(ce.drop_first(), ae, be);
        let h = if get_v(be, kc) is None {
            seq![ce[0]]
        } else {
            Seq::<(Seq<char>, NodeV)>::empty()
        };
        lemma_fresh_add(h, fresh_of(ce.drop_first(), be), ae);
        if get_v(be, kc) is None {
            assert(h.drop_first() =~= Seq::<(Seq<char>, NodeV)>::empty());
            assert(fresh_of(h, ae) == (if get_v(ae, kc) is None {
                seq![ce[0]]
            } else {
                Seq::<(Seq<char>, NodeV)>::empty()
            }) + fresh_of(h.drop_first(), ae));
        }
        let hh = if get_v(merge_entries_v(ae, be), kc) is None {
            seq![ce[0]]
        } else {
            Seq::<(Seq<char>, NodeV)>::empty()
        };
        if get_v(be, kc) is None {
            assert(h[0] == ce[0]);
            assert(fresh_of(h.drop_first(), ae) == Seq::<(Seq<char>, NodeV)>::empty());
            if get_v(ae, kc) is None {
                assert(fresh_of(h, ae) =~= hh);
            } else {
                assert(get_v(merge_entries_v(ae, be), kc) is Some);
                assert(fresh_of(h, ae) =~= hh);
            }
        } else {
            assert(h.len() == 0);
            assert(fresh_of(h, ae) == Seq::<(Seq<char>, NodeV)>::empty());
            assert(get_v(merge_entries_v(ae, be), kc) is Some);
            assert(fresh_of(h, ae) =~= hh);
        }
        assert(fresh_of(fresh_of(ce, be), ae) == fresh_of(h, ae) + fresh_of(
            fresh_of(ce.drop_first(), be),
            ae,
        ));
        assert(fresh_of(ce, merge_entries_v(ae, be)) == hh + fresh_of(
            ce.drop_first(),
            merge_entries_v(ae, be),
        ));
        assert(fresh_of(h, ae) + fresh_of(fresh_of(ce.drop_first(), be), ae) =~= hh + fresh_of(
            fresh_of(ce.drop_first(), be),
            ae,
        ));
    }
}

/// Combining `b`'s entries with `c` commutes with keeping the ones fresh
/// against `a`: the combination never changes a key.
proof fn lemma_fresh_map_with(
    be: Seq<(Seq<char>, NodeV)>,
    ce: Seq<(Seq<char>, NodeV)>,
    ae: Seq<(Seq<char>, NodeV)>,
)
    ensures
        fresh_of(map_with(be, ce), ae) == map_with(fresh_of(be, ae), ce),
    decreases be,
{
    if be.len() == 0 {
        assert(fresh_of(map_with(be, ce), ae) =~= Seq::<(Seq<char>, NodeV)>::empty());
        assert(map_with(fresh_of(be, ae), ce) =~= Seq::<(Seq<char>, NodeV)>::empty());
    } else {
        let b0 = seq![be[0]];
        let bt = be.drop_first();
        assert(be =~= b0 + bt);
        lemma_map_with_add(b0, bt, ce);
        lemma_fresh_add(map_with(b0, ce), map_with(bt, ce), ae);
        lemma_fresh_map_with(bt, ce, ae);
        let m0 = map_with(b0, ce);
        assert(m0[0] == (be[0].0, combine_opt(be[0].1, get_v(ce, be[0].0))));
        assert(m0.drop_first() =~= Seq::<(Seq<char>, NodeV)>::empty());
        let h = if get_v(ae, be[0].0) is None {
            seq![be[0]]
        } else {
            Seq::<(Seq<char>, NodeV)>::empty()
        };
        lemma_map_with_add(h, fresh_of(bt, ae), ce);
        assert(fresh_of(m0, ae) == (if get_v(ae, m0[0].0) is None {
            seq![m0[0]]
        } else {
            Seq::<(Seq<char>, NodeV)>::empty()
        }) + fresh_of(m0.drop_first(), ae));
        assert(fresh_of(m0.drop_first(), ae) == Seq::<(Seq<char>, NodeV)>::empty());
        if get_v(ae, be[0].0) is None {
            assert(h[0] == be[0]);
            assert(map_with(h, ce)[0] == (h[0].0, combine_opt(h[0].1, get_v(ce, h[0].0))));
            assert(fresh_of(m0, ae) =~= map_with(h, ce));
        } else {
            assert(h.len() == 0);
            assert(fresh_of(m0, ae) =~= map_with(h, ce));
        }
        assert(fresh_of(be, ae) == h + fresh_of(bt, ae));
        assert(fresh_of(map_with(be, ce), ae) =~= map_with(fresh_of(be, ae), ce));
    }
}

/// Merging map-pure documents is associative: with every node a map of
/// distinct keys, nesting the merges to the left and to the right produces
/// the same document, entry order included. (With scalars or arrays in play
/// a type mismatch can be resolved differently by the two nestings, so the
/// law is stated of maps, as its name says.)
pub proof fn lemma_merge_assoc(a: NodeV, b: NodeV, c: NodeV)
    requires
        map_pure(a),
        map_pure(b),
        map_pure(c),
    ensures
        merge_v(merge_v(a, b), c) == merge_v(a, merge_v(b, c)),
    decreases a,
{
    let ae = entries_of(a);
    let be = entries_of(b);
    let ce = entries_of(c);
    let abe = merge_entries_v(ae, be);
    let bce = merge_entries_v(be, ce);
    lemma_merge_entries_distinct(ae, be);
    lemma_merge_entries_distinct(be, ce);
    lemma_merge_entries_form(ae, be);
    lemma_merge_entries_form(be, ce);
    lemma_merge_entries_form(abe, ce);
    lemma_merge_entries_form(ae, bce);
    lemma_map_with_add(map_with(ae, be), fresh_of(be, ae), ce);
    lemma_fresh_add(map_with(be, ce), fresh_of(ce, be), ae);
    lemma_fresh_map_with(be, ce, ae);
    lemma_fresh_merged(ce, ae, be);
    assert forall|j: int| 0 <= j < ae.len() implies map_with(map_with(ae, be), ce)[j] == map_with(
        ae,
        bce,
    )[j] by {
        let k = ae[j].0;
        let x = ae[j].1;
        lemma_merge_get(be, ce, k);
        match (get_v(be, k), get_v(ce, k)) {
            (Some(y), Some(z)) => {
                lemma_map_pure_entries_at(ae, j);
                lemma_get_v_map_pure(be, k);
                lemma_get_v_map_pure(ce, k);
                lemma_merge_assoc(x, y, z);
            },
            _ => {},
        }
    }
    assert(map_with(map_with(ae, be), ce) =~= map_with(ae, bce));
    assert(merge_entries_v(abe, ce) =~= merge_entries_v(ae, bce));
}

/// The root configuration always wins: however the include documents were
/// folded into the accumulator, and in whatever order, a key the root binds
/// to a scalar holds exactly the root's value once the root is merged last.
pub proof fn lemma_root_scalar_wins(acc: NodeV, incs: Seq<NodeV>, root: NodeV, k: Seq<char>)
    requires
        fold_merge_v(acc, incs) is Dict,
        root is Dict,
        distinct_keys(entries_of(root)),
        match dict_get(root, k) {
            Some(v) => !(v is Dict) && !(v is Arr),
            None => false,
        },
    ensures
        dict_get(merge_v(fold_merge_v(acc, incs), root), k) == dict_get(root, k),
{
    lemma_merge_scalar_override(fold_merge_v(acc, incs), root, k);
}

/// Every map of the tree has distinct keys: the shape every decoded
/// document and every merge of two such documents has.
pub open spec fn wf_node_v(n: NodeV) -> bool
    decreases n,
{
    match n {
        NodeV::Arr(s) => wf_nodes_v(s),
        NodeV::Dict(es) => distinct_keys(es) && wf_entry_vals_v(es),
        _ => true,
    }
}

/// Well-formedness of an array's element list.
pub open spec fn wf_nodes_v(s: Seq<NodeV>) -> bool
    decreases s,
{
    s.len() == 0 || (wf_node_v(s[0]) && wf_nodes_v(s.drop_first()))
}

/// Well-formedness of every value of a map's entry list.
pub open spec fn wf_entry_vals_v(es: Seq<(Seq<char>, NodeV)>) -> bool
    decreases es,
{
    es.len() == 0 || (wf_node_v(es[0].1) && wf_entry_vals_v(es.drop_first()))
}

/// Whether an entry list's keys are pairwise distinct.
fn distinct_keys_check(es: &Vec<(String, Node)>) -> (r: bool)
    ensures
        r == distinct_keys(entries_view(es@)),
{
    proof {
        lemma_entries_view(es@);
    }
    let ghost ev = entries_view(es@);
    let mut i: usize = 0;
    while i < es.len()
        invariant
            ev == entries_view(es@),
            ev.len() == es@.len(),
            forall|l: int| 0 <= l < es@.len() ==> ev[l] == (es@[l].0@, node_view(es@[l].1)),
            i <= es@.len(),
            forall|x: int, y: int| 0 <= x < y < i ==> ev[x].0 != ev[y].0,
        decreases es@.len() - i,
    {
        let mut j: usize = 0;
        while j < i
            invariant
                ev == entries_view(es@),
                ev.len() == es@.len(),
                forall|l: int| 0 <= l < es@.len() ==> ev[l] == (es@[l].0@, node_view(es@[l].1)),
                j <= i <= es@.len(),
                i < es@.len(),
                forall|x: int| 0 <= x < j ==> ev[x].0 != ev[i as int].0,
                forall|x: int, y: int| 0 <= x < y < i ==> ev[x].0 != ev[y].0,
            decreases i - j,
        {
            if str_eq(es[j].0.as_str(), es[i].0.as_str()) {
                proof {
                    assert(ev[j as int].0 == ev[i as int].0);
                    assert(!distinct_keys(ev));
                }
                return false;
            }
            j = j + 1;
        }
        i = i + 1;
    }
    true
}

/// Whether a document is well-formed: every map of the tree has pairwise
/// distinct keys.
pub fn wf_check(n: &Node) -> (r: bool)
    ensures
        r == wf_node_v(n@),
    decreases n,
{
    match n {
        Node::Arr(v) => wf_check_nodes(v),
        Node::Dict(es) => {
            if !distinct_keys_check(es) {
                return false;
            }
            wf_check_entries(es)
        },
        _ => true,
    }
}

/// Well-formedness of every element of an array.
pub fn wf_check_nodes(v: &Vec<Node>) -> (r: bool)
    ensures
        r == wf_nodes_v(nodes_view(v@)),
    decreases v,
{
    let ghost nv = nodes_view(v@);
    proof {
        lemma_nodes_view(v@);
        assert(nv.skip(0) =~= nv);
    }
    let mut i: usize = 0;
    while i < v.len()
        invariant
            nv == nodes_view(v@),
            nv.len() == v@.len(),
            forall|l: int| 0 <= l < v@.len() ==> nv[l] == node_view(v@[l]),
            i <= v@.len(),
            wf_nodes_v(nv) == wf_nodes_v(nv.skip(i as int)),
        decreases v@.len() - i,
    {
        proof {
            assert(nv.skip(i as int)[0] == nv[i as int]);
            assert(nv.skip(i as int).drop_first() =~= nv.skip(i + 1));
        }
        if !wf_check(&v[i]) {
            return false;
        }
        i = i + 1;
    }
    proof {
        assert(nv.skip(v@.len() as int) =~= Seq::<NodeV>::empty());
    }
    true
}

/// Well-formedness of every value of an entry list.
fn wf_check_entries(es: &Vec<(String, Node)>) -> (r: bool)
    ensures
        r == wf_entry_vals_v(entries_view(es@)),
    decreases es,
{
    let ghost ev = entries_view(es@);
    proof {
        lemma_entries_view(es@);
        assert(ev.skip(0) =~= ev);
    }
    let mut i: usize = 0;
    while i < es.len()
        invariant
            ev == entries_view(es@),
            ev.len() == es@.len(),
            forall|l: int| 0 <= l < es@.len() ==> ev[l] == (es@[l].0@, node_view(es@[l].1)),
            i <= es@.len(),
            wf_entry_vals_v(ev) == wf_entry_vals_v(ev.skip(i as int)),
        decreases es@.len() - i,
    {
        proof {
            assert(ev.skip(i as int)[0] == ev[i as int]);
            assert(ev.skip(i as int).drop_first() =~= ev.skip(i + 1));
        }
        if !wf_check(&es[i].1) {
            return false;
        }
        i = i + 1;
    }
    proof {
        assert(ev.skip(es@.len() as int) =~= Seq::<(Seq<char>, NodeV)>::empty());
    }
    true
}

/// Index of the first entry whose key equals `k`, tied to `key_index`.
pub(crate) fn find_key(es: &Vec<(String, Node)>, k: &String) -> (r: Option<usize>)
    ensures
        match r {
            Some(j) => j < es@.len() && key_index(entries_view(es@), k@) == j as int,
            None => key_index(entries_view(es@), k@) == -1,
        },
{
    proof {
        lemma_entries_view(es@);
    }
    let mut i: usize = 0;
    while i < es.len()
        invariant
            i <= es@.len(),
            forall|j: int| 0 <= j < i ==> es@[j].0@ != k@,
            forall|j: int| 0 <= j < es@.len() ==> entries_view(es@)[j] == (
                es@[j].0@,
                node_view(es@[j].1),
            ),
            entries_view(es@).len() == es@.len(),
        decreases es@.len() - i,
    {
        if es[i].0 == *k {
            proof {
                lemma_key_index_at(entries_view(es@), k@, i as int);
            }
            return Some(i);
        }
        i = i + 1;
    }
    proof {
        lemma_key_index_none(entries_view(es@), k@);
    }
    None
}

/// Entry-wise merge of two maps' entry lists.
fn merge_dicts(a: &Vec<(String, Node)>, b: &Vec<(String, Node)>) -> (r: Vec<(String, Node)>)
    ensures
        entries_view(r@) == merge_entries_v(entries_view(a@), entries_view(b@)),
    decreases b, 1int,
{
    let mut c = clone_entries(a);
    let mut k: usize = 0;
    proof {
        assert(entries_view(b@).take(0) =~= Seq::<(Seq<char>, NodeV)>::empty());
    }
    while k < b.len()
        invariant
            k <= b@.len(),
            entries_view(c@) == merge_entries_v(entries_view(a@), entries_view(b@).take(k as int)),
        decreases b@.len() - k,
    {
        let ghost ev0 = entries_view(c@);
        let ghost bkey = b@[k as int].0@;
        let ghost bval = node_view(b@[k as int].1);
        proof {
            lemma_entries_view(c@);
            lemma_entries_view(b@);
        }
        let found = find_key(&c, &b[k].0);
        match found {
            Some(j) => {
                let merged = merge_nodes(&c[j].1, &b[k].1);
                let newkey = b[k].0.clone();
                let ghost c0 = c@;
                c.remove(j);
                c.insert(j, (newkey, merged));
                proof {
                    assert(c@ =~= c0.update(j as int, (b@[k as int].0, c@[j as int].1)));
                    lemma_entries_view(c@);
                    lemma_entries_view(c0);
                    assert(entries_view(c@) =~= upsert_v(ev0, bkey, bval));
                }
            },
            None => {
                let newkey = b[k].0.clone();
                let newval = clone_node(&b[k].1);
                let ghost c0 = c@;
                c.push((newkey, newval));
                proof {
                    lemma_entries_view(c@);
                    lemma_entries_view(c0);
                    assert(entries_view(c@) =~= upsert_v(ev0, bkey, bval));
                }
            },
        }
        proof {
            assert(entries_view(b@).take(k + 1) =~= entries_view(b@).take(k as int).push(
                (bkey, bval),
            ));
            lemma_merge_entries_push(
                entries_view(a@),
                entries_view(b@).take(k as int),
                (bkey, bval),
            );
        }
        k = k + 1;
    }
    proof {
        lemma_entries_view(b@);
        assert(entries_view(b@).take(b@.len() as int) =~= entries_view(b@));
    }
    c
}

/// The merge of document `b` into document `a`, total over all pairings.
fn merge_nodes(a: &Node, b: &Node) -> (r: Node)
    ensures
        r@ == merge_v(a@, b@),
    decreases b, 0int,
{
    match (a, b) {
        (Node::Dict(ae), Node::Dict(be)) => Node::Dict(merge_dicts(ae, be)),
        (Node::Arr(x), Node::Arr(y)) => {
            let mut out = clone_nodes(x);
            let mut tail = clone_nodes(y);
            let ghost cx = out@;
            let ghost cy = tail@;
            out.append(&mut tail);
            proof {
                lemma_nodes_view_add(cx, cy);
            }
            Node::Arr(out)
        },
        _ => clone_node(b),
    }
}

/// The merge primitive as callers use it: both inputs must be maps;
/// any other shape is not a mergeable document and is reported, never
/// silently discarded.
pub fn merge_yamls(a: &Node, b: &Node) -> (r: Result<Node, McError>)
    ensures
        match r {
            Ok(c) => a@ is Dict && b@ is Dict && c@ == merge_v(a@, b@),
            Err(e) => !(a@ is Dict && b@ is Dict) && e == McError::NotMergeable,
        },
{
    match (a, b) {
        (Node::Dict(_), Node::Dict(_)) => Ok(merge_nodes(a, b)),
        _ => Err(McError::NotMergeable),
    }
}

} // verus!
