//! The lock table: the durable name-to-digest mapping that pins what
//! content must be present. It is consulted on every build; a missing entry
//! is a hard error, never a silent re-resolution.

use vstd::prelude::*;

use crate::errors::McError;
use crate::node::{entries_view, lemma_nodes_view, node_view, Node, NodeV};
use crate::text::str_eq;
use crate::yamlio::{emit_yaml, emitted_yaml, parse_yaml_docs, parsed_wf};

verus! {

broadcast use vstd::std_specs::vec::group_vec_axioms, vstd::seq::group_seq_axioms;

/// The name-to-digest table, in file order, names unique as a map's keys.
#[derive(Debug, PartialEq, Eq)]
pub struct Lock {
    pub entries: Vec<(String, String)>,
}

/// Image of the lock table.
pub open spec fn lock_view(entries: Seq<(String, String)>) -> Seq<(Seq<char>, Seq<char>)> {
    entries.map(|i: int, e: (String, String)| (e.0@, e.1@))
}

impl View for Lock {
    type V = Seq<(Seq<char>, Seq<char>)>;

    open spec fn view(&self) -> Seq<(Seq<char>, Seq<char>)> {
        lock_view(self.entries@)
    }
}

/// The digest the table pins a name to, if any (first match).
pub open spec fn lock_lookup_v(entries: Seq<(Seq<char>, Seq<char>)>, name: Seq<char>) -> Option<
    Seq<char>,
>
    decreases entries,
{
    if entries.len() == 0 {
        None
    } else if entries[0].0 == name {
        Some(entries[0].1)
    } else {
        lock_lookup_v(entries.drop_first(), name)
    }
}

/// `lock_view` maps the table pointwise.
proof fn lemma_lock_view_at(entries: Seq<(String, String)>, i: int)
    requires
        0 <= i < entries.len(),
    ensures
        lock_view(entries).len() == entries.len(),
        lock_view(entries)[i] == (entries[i].0@, entries[i].1@),
{
    assert(lock_view(entries)[i] == (entries[i].0@, entries[i].1@));
}

/// The first binding of a name fixes `lock_lookup_v`.
proof fn lemma_lock_lookup_at(entries: Seq<(Seq<char>, Seq<char>)>, name: Seq<char>, j: int)
    requires
        0 <= j < entries.len(),
        entries[j].0 == name,
        forall|l: int| 0 <= l < j ==> entries[l].0 != name,
    ensures
        lock_lookup_v(entries, name) == Some(entries[j].1),
    decreases j,
{
    if j > 0 {
        assert forall|l: int| 0 <= l < j - 1 implies entries.drop_first()[l].0 != name by {
            assert(entries.drop_first()[l] == entries[l + 1]);
        }
        assert(entries.drop_first()[j - 1] == entries[j]);
        lemma_lock_lookup_at(entries.drop_first(), name, j - 1);
    }
}

/// A name bound nowhere has no lookup result.
proof fn lemma_lock_lookup_none(entries: Seq<(Seq<char>, Seq<char>)>, name: Seq<char>)
    requires
        forall|l: int| 0 <= l < entries.len() ==> entries[l].0 != name,
    ensures
        lock_lookup_v(entries, name) is None,
    decreases entries,
{
    if entries.len() > 0 {
        assert forall|l: int| 0 <= l < entries.drop_first().len() implies entries.drop_first()[l].0
            != name by {
            assert(entries.drop_first()[l] == entries[l + 1]);
        }
        lemma_lock_lookup_none(entries.drop_first(), name);
    }
}

/// The digest the lock pins `name` to; an absent name is a missing-lock-entry
/// condition naming it, exactly then — callers never fall back to
/// re-downloading on a miss.
pub fn get_lock_entry(name: &String, lock: &Lock) -> (r: Result<String, McError>)
    ensures
        match r {
            Ok(h) => lock_lookup_v(lock@, name@) == Some(h@),
            Err(e) => lock_lookup_v(lock@, name@) is None && match e {
                McError::MissingLockEntry(n) => n@ == name@,
                _ => false,
            },
        },
{
    let entries = &lock.entries;
    let mut j: usize = 0;
    while j < entries.len()
        invariant
            entries@ == lock.entries@,
            j <= entries@.len(),
            forall|l: int| 0 <= l < j ==> entries@[l].0@ != name@,
        decreases entries@.len() - j,
    {
        if str_eq(entries[j].0.as_str(), name.as_str()) {
            proof {
                lemma_lock_view_at(entries@, j as int);
                assert forall|l: int| 0 <= l < j implies lock_view(entries@)[l].0 != name@ by {
                    lemma_lock_view_at(entries@, l);
                }
                lemma_lock_lookup_at(lock_view(entries@), name@, j as int);
            }
            return Ok(entries[j].1.clone());
        }
        j = j + 1;
    }
    proof {
        assert forall|l: int| 0 <= l < lock_view(entries@).len() implies lock_view(entries@)[l].0
            != name@ by {
            lemma_lock_view_at(entries@, l);
        }
        lemma_lock_lookup_none(lock_view(entries@), name@);
    }
    Err(McError::MissingLockEntry(name.clone()))
}

/// The lock table a flat name-to-digest document holds: every value a string.
pub open spec fn spec_lock_entries(es: Seq<(Seq<char>, NodeV)>) -> Option<
    Seq<(Seq<char>, Seq<char>)>,
>
    decreases es,
{
    if es.len() == 0 {
        Some(Seq::empty())
    } else {
        match (es[0].1, spec_lock_entries(es.drop_first())) {
            (NodeV::Str(h), Some(rest)) => Some(seq![(es[0].0, h)] + rest),
            _ => None,
        }
    }
}

/// The lock table a text holds: one document, a flat string-to-string map.
pub open spec fn spec_lock(t: Seq<char>) -> Option<Seq<(Seq<char>, Seq<char>)>> {
    match parsed_wf(t) {
        Some(docs) => if docs.len() == 1 {
            match docs[0] {
                NodeV::Dict(es) => spec_lock_entries(es),
                _ => None,
            }
        } else {
            None
        },
        None => None,
    }
}

/// Decode the lock table from its file text.
pub fn lock_from_text(text: &str) -> (r: Result<Lock, McError>)
    ensures
        match r {
            Ok(lock) => spec_lock(text@) == Some(lock@),
            Err(e) => spec_lock(text@) is None && e is Parse,
        },
{
    let docs = parse_yaml_docs(text)?;
    proof {
        lemma_nodes_view(docs@);
    }
    if docs.len() != 1 {
        return Err(McError::Parse("a lock file holds one document".to_owned()));
    }
    let es = match &docs[0] {
        Node::Dict(es) => es,
        _ => {
            return Err(McError::Parse("a lock file holds a flat map".to_owned()));
        },
    };
    let ghost ev = entries_view(es@);
    proof {
        crate::node::lemma_entries_view(es@);
    }
    let mut out: Vec<(String, String)> = Vec::new();
    let mut i: usize = 0;
    proof {
        assert(ev.skip(0) =~= ev);
        match spec_lock_entries(ev) {
            Some(rest) => {
                assert(lock_view(out@) + rest =~= rest);
            },
            None => {},
        }
    }
    while i < es.len()
        invariant
            ev == entries_view(es@),
            ev.len() == es@.len(),
            spec_lock(text@) == spec_lock_entries(ev),
            forall|l: int| 0 <= l < es@.len() ==> ev[l] == (es@[l].0@, node_view(es@[l].1)),
            i <= es@.len(),
            match spec_lock_entries(ev.skip(i as int)) {
                Some(rest) => spec_lock_entries(ev) == Some(lock_view(out@) + rest),
                None => spec_lock_entries(ev) is None,
            },
        decreases es@.len() - i,
    {
        let ghost out0 = out@;
        proof {
            assert(ev.skip(i as int)[0] == ev[i as int]);
            assert(ev.skip(i as int).drop_first() =~= ev.skip(i + 1));
        }
        match &es[i].1 {
            Node::Str(h) => {
                let key = es[i].0.clone();
                let digest = h.clone();
                out.push((key, digest));
                proof {
                    assert forall|l: int| 0 <= l < out@.len() implies lock_view(out@)[l] == (
                        out@[l].0@,
                        out@[l].1@,
                    ) by {
                        lemma_lock_view_at(out@, l);
                    }
                    assert(lock_view(out@) =~= lock_view(out0).push((es@[i as int].0@, h@)));
                    match spec_lock_entries(ev.skip(i + 1)) {
                        Some(rest) => {
                            assert(lock_view(out0) + (seq![(es@[i as int].0@, h@)] + rest)
                                =~= lock_view(out@) + rest);
                        },
                        None => {},
                    }
                }
            },
            _ => {
                return Err(McError::Parse("a lock entry holds a digest string".to_owned()));
            },
        }
        i = i + 1;
    }
    proof {
        assert(ev.skip(es@.len() as int) =~= Seq::<(Seq<char>, NodeV)>::empty());
        assert(lock_view(out@) + Seq::<(Seq<char>, Seq<char>)>::empty() =~= lock_view(out@));
    }
    Ok(Lock { entries: out })
}

/// The document form of a lock table.
pub open spec fn lock_doc_v(entries: Seq<(Seq<char>, Seq<char>)>) -> Seq<(Seq<char>, NodeV)>
    decreases entries,
{
    if entries.len() == 0 {
        Seq::empty()
    } else {
        seq![(entries[0].0, NodeV::Str(entries[0].1))] + lock_doc_v(entries.drop_first())
    }
}

/// Serialize the whole lock table to its file text; the text replaces any
/// prior table, it is never additive.
pub fn lock_to_text(lock: &Lock) -> (r: String)
    ensures
        r@ == emitted_yaml(NodeV::Dict(lock_doc_v(lock@))),
{
    let entries = &lock.entries;
    let mut es: Vec<(String, Node)> = Vec::new();
    let mut i: usize = 0;
    proof {
        assert(lock_view(entries@).skip(0) =~= lock_view(entries@));
        assert(entries_view(es@) + lock_doc_v(lock_view(entries@)) =~= lock_doc_v(
            lock_view(entries@),
        ));
    }
    while i < entries.len()
        invariant
            entries@ == lock.entries@,
            i <= entries@.len(),
            lock_view(entries@).len() == entries@.len(),
            forall|l: int| 0 <= l < entries@.len() ==> lock_view(entries@)[l] == (
                entries@[l].0@,
                entries@[l].1@,
            ),
            entries_view(es@) + lock_doc_v(lock_view(entries@).skip(i as int)) == lock_doc_v(
                lock_view(entries@),
            ),
        decreases entries@.len() - i,
    {
        let ghost es0 = es@;
        let ghost lv = lock_view(entries@);
        proof {
            assert(lv.skip(i as int)[0] == lv[i as int]);
            assert(lv.skip(i as int).drop_first() =~= lv.skip(i + 1));
        }
        let key = entries[i].0.clone();
        let digest = entries[i].1.clone();
        es.push((key, Node::Str(digest)));
        proof {
            crate::node::lemma_entries_view(es@);
            crate::node::lemma_entries_view(es0);
            assert(entries_view(es@) =~= entries_view(es0).push(
                (entries@[i as int].0@, NodeV::Str(entries@[i as int].1@)),
            ));
            assert(entries_view(es0) + (seq![(lv[i as int].0, NodeV::Str(lv[i as int].1))]
                + lock_doc_v(lv.skip(i + 1))) =~= entries_view(es@) + lock_doc_v(lv.skip(i + 1)));
        }
        i = i + 1;
    }
    proof {
        assert(lock_view(entries@).skip(entries@.len() as int) =~= Seq::<
            (Seq<char>, Seq<char>),
        >::empty());
        assert(entries_view(es@) + Seq::<(Seq<char>, NodeV)>::empty() =~= entries_view(es@));
    }
    let doc = Node::Dict(es);
    emit_yaml(&doc)
}

} // verus!
