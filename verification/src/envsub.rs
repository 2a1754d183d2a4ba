//! The environment substitutor: expands `${NAME}` placeholders (`NAME` over
//! upper-case letters, digits and underscores) in a text against an explicit
//! environment, failing closed on the first placeholder the environment does
//! not bind. A pure function of the text and the environment.

use vstd::prelude::*;

use crate::errors::McError;
use crate::text::{chars_of, push_range, range_eq_str, string_from_chars};

verus! {

broadcast use vstd::seq::group_seq_axioms;

/// A character a placeholder name may hold.
pub open spec fn env_char(c: char) -> bool {
    ('A' <= c && c <= 'Z') || ('0' <= c && c <= '9') || c == '_'
}

/// Length of the maximal run of name characters starting at `i`.
pub open spec fn run_len(s: Seq<char>, i: int) -> int
    decreases s.len() - i,
{
    if i < 0 || i >= s.len() || !env_char(s[i]) {
        0
    } else {
        1 + run_len(s, i + 1)
    }
}

/// A full `${NAME}` placeholder starts at position `i`.
pub open spec fn placeholder_at(s: Seq<char>, i: int) -> bool {
    &&& 0 <= i
    &&& i + 1 < s.len()
    &&& s[i] == '$'
    &&& s[i + 1] == '{'
    &&& run_len(s, i + 2) >= 1
    &&& i + 2 + run_len(s, i + 2) < s.len()
    &&& s[i + 2 + run_len(s, i + 2)] == '}'
}

/// The image of an environment: name-value pairs, earlier pairs shadowing
/// later ones.
pub open spec fn env_view(env: Seq<(String, String)>) -> Seq<(Seq<char>, Seq<char>)> {
    env.map(|i: int, e: (String, String)| (e.0@, e.1@))
}

/// The value the environment binds a name to, if any (first match).
pub open spec fn env_lookup_v(env: Seq<(Seq<char>, Seq<char>)>, name: Seq<char>) -> Option<
    Seq<char>,
>
    decreases env,
{
    if env.len() == 0 {
        None
    } else if env[0].0 == name {
        Some(env[0].1)
    } else {
        env_lookup_v(env.drop_first(), name)
    }
}

/// What substitution yields: the expanded text, or the name of the first
/// placeholder the environment does not bind.
pub enum SubstOutcome {
    Done(Seq<char>),
    Missing(Seq<char>),
}

/// Substitution of the text from position `i` on: a placeholder is replaced
/// by its value (the value is not rescanned), any other character is copied.
pub open spec fn subst_from(s: Seq<char>, i: int, env: Seq<(Seq<char>, Seq<char>)>) -> SubstOutcome
    decreases s.len() - i,
{
    if i < 0 || i >= s.len() {
        SubstOutcome::Done(Seq::empty())
    } else if placeholder_at(s, i) {
        let k = run_len(s, i + 2);
        let name = s.subrange(i + 2, i + 2 + k);
        match env_lookup_v(env, name) {
            Some(v) => match subst_from(s, i + 3 + k, env) {
                SubstOutcome::Done(rest) => SubstOutcome::Done(v + rest),
                m => m,
            },
            None => SubstOutcome::Missing(name),
        }
    } else {
        match subst_from(s, i + 1, env) {
            SubstOutcome::Done(rest) => SubstOutcome::Done(seq![s[i]] + rest),
            m => m,
        }
    }
}

/// Substitution of a whole text.
pub open spec fn subst_v(s: Seq<char>, env: Seq<(Seq<char>, Seq<char>)>) -> SubstOutcome {
    subst_from(s, 0, env)
}

/// Text already produced, prepended to what substitution still yields.
pub open spec fn subst_prepend(prefix: Seq<char>, o: SubstOutcome) -> SubstOutcome {
    match o {
        SubstOutcome::Done(rest) => SubstOutcome::Done(prefix + rest),
        m => m,
    }
}

/// Prepending twice is prepending the concatenation.
proof fn lemma_subst_prepend_assoc(p1: Seq<char>, p2: Seq<char>, o: SubstOutcome)
    ensures
        subst_prepend(p1, subst_prepend(p2, o)) == subst_prepend(p1 + p2, o),
{
    match o {
        SubstOutcome::Done(rest) => {
            assert(p1 + (p2 + rest) =~= (p1 + p2) + rest);
        },
        _ => {},
    }
}

/// A maximal run of `k` name characters at `start` fixes `run_len`.
proof fn lemma_run_len_is(s: Seq<char>, start: int, k: int)
    requires
        0 <= start,
        start + k <= s.len(),
        k >= 0,
        forall|l: int| start <= l < start + k ==> env_char(s[l]),
        start + k == s.len() || !env_char(s[start + k]),
    ensures
        run_len(s, start) == k,
    decreases k,
{
    if k == 0 {
    } else {
        lemma_run_len_is(s, start + 1, k - 1);
    }
}

/// `env_view` maps the environment pointwise.
proof fn lemma_env_view_at(env: Seq<(String, String)>, i: int)
    requires
        0 <= i < env.len(),
    ensures
        env_view(env).len() == env.len(),
        env_view(env)[i] == (env[i].0@, env[i].1@),
{
    assert(env_view(env)[i] == (env[i].0@, env[i].1@));
}

/// The environment's first binding of a name fixes `env_lookup_v`.
proof fn lemma_env_lookup_at(env: Seq<(Seq<char>, Seq<char>)>, name: Seq<char>, j: int)
    requires
        0 <= j < env.len(),
        env[j].0 == name,
        forall|l: int| 0 <= l < j ==> env[l].0 != name,
    ensures
        env_lookup_v(env, name) == Some(env[j].1),
    decreases j,
{
    if j > 0 {
        assert forall|l: int| 0 <= l < j - 1 implies env.drop_first()[l].0 != name by {
            assert(env.drop_first()[l] == env[l + 1]);
        }
        assert(env.drop_first()[j - 1] == env[j]);
        lemma_env_lookup_at(env.drop_first(), name, j - 1);
    }
}

/// A name the environment binds nowhere has no lookup result.
proof fn lemma_env_lookup_none(env: Seq<(Seq<char>, Seq<char>)>, name: Seq<char>)
    requires
        forall|l: int| 0 <= l < env.len() ==> env[l].0 != name,
    ensures
        env_lookup_v(env, name) is None,
    decreases env,
{
    if env.len() > 0 {
        assert forall|l: int| 0 <= l < env.drop_first().len() implies env.drop_first()[l].0
            != name by {
            assert(env.drop_first()[l] == env[l + 1]);
        }
        lemma_env_lookup_none(env.drop_first(), name);
    }
}

/// Find the first binding of the name spelled by `cs[from..to]`.
fn lookup_env(env: &Vec<(String, String)>, cs: &Vec<char>, from: usize, to: usize) -> (r: Option<
    usize,
>)
    requires
        from <= to <= cs@.len(),
    ensures
        match r {
            Some(j) => j < env@.len() && env_lookup_v(
                env_view(env@),
                cs@.subrange(from as int, to as int),
            ) == Some(env@[j as int].1@),
            None => env_lookup_v(env_view(env@), cs@.subrange(from as int, to as int)) is None,
        },
{
    let ghost name = cs@.subrange(from as int, to as int);
    let mut j: usize = 0;
    while j < env.len()
        invariant
            from <= to <= cs@.len(),
            name == cs@.subrange(from as int, to as int),
            j <= env@.len(),
            forall|l: int| 0 <= l < j ==> env@[l].0@ != name,
        decreases env@.len() - j,
    {
        let key = &env[j].0;
        if range_eq_str(cs, from, to, key.as_str()) {
            proof {
                lemma_env_view_at(env@, j as int);
                assert(env_view(env@)[j as int].0 == name);
                assert forall|l: int| 0 <= l < j implies env_view(env@)[l].0 != name by {
                    lemma_env_view_at(env@, l);
                }
                lemma_env_lookup_at(env_view(env@), name, j as int);
            }
            return Some(j);
        }
        j = j + 1;
    }
    proof {
        if env.len() > 0 {
            lemma_env_view_at(env@, 0);
        }
        assert forall|l: int| 0 <= l < env_view(env@).len() implies env_view(env@)[l].0 != name by {
            lemma_env_view_at(env@, l);
        }
        lemma_env_lookup_none(env_view(env@), name);
    }
    None
}

/// Expand every `${NAME}` placeholder of `data` against `env`, failing on
/// the first name `env` does not bind — never substituting silently empty.
pub fn pass_envs(data: &str, env: &Vec<(String, String)>) -> (r: Result<String, McError>)
    ensures
        match r {
            Ok(out) => subst_v(data@, env_view(env@)) == SubstOutcome::Done(out@),
            Err(e) => match e {
                McError::MissingEnvVar(n) => subst_v(data@, env_view(env@))
                    == SubstOutcome::Missing(n@),
                _ => false,
            },
        },
{
    let cs = chars_of(data);
    let n = cs.len();
    let ghost s = data@;
    let ghost ev = env_view(env@);
    let mut out: Vec<char> = Vec::new();
    let mut i: usize = 0;
    proof {
        match subst_from(s, 0, ev) {
            SubstOutcome::Done(rest) => {
                assert(Seq::<char>::empty() + rest =~= rest);
            },
            _ => {},
        }
    }
    while i < n
        invariant
            n == s.len(),
            s == data@,
            cs@ == s,
            ev == env_view(env@),
            i <= n,
            subst_prepend(out@, subst_from(s, i as int, ev)) == subst_v(s, ev),
        decreases n - i,
    {
        let ghost out0 = out@;
        if cs[i] == '$' && i + 1 < n && cs[i + 1] == '{' {
            // measure the name run after `${`
            let mut k: usize = 0;
            while i + 2 + k < n && is_env_char(cs[i + 2 + k])
                invariant
                    i + 2 <= n,
                    i + 2 + k <= n,
                    cs@ == s,
                    n == s.len(),
                    forall|l: int| i + 2 <= l < i + 2 + k ==> env_char(s[l]),
                decreases n - (i + 2 + k),
            {
                k = k + 1;
            }
            proof {
                lemma_run_len_is(s, i + 2 as int, k as int);
            }
            if k >= 1 && i + 2 + k < n && cs[i + 2 + k] == '}' {
                // a placeholder: substitute or fail
                let found = lookup_env(env, &cs, i + 2, i + 2 + k);
                match found {
                    Some(j) => {
                        let mut vchars = chars_of(env[j].1.as_str());
                        let ghost v = vchars@;
                        out.append(&mut vchars);
                        proof {
                            lemma_subst_prepend_assoc(out0, v, subst_from(s, i + 3 + k, ev));
                        }
                        i = i + 3 + k;
                    },
                    None => {
                        let mut name: Vec<char> = Vec::new();
                        push_range(&mut name, &cs, i + 2, i + 2 + k);
                        let name_str = string_from_chars(&name);
                        proof {
                            assert(name@ =~= cs@.subrange(i + 2 as int, (i + 2 + k) as int));
                            assert(placeholder_at(s, i as int));
                            assert(subst_from(s, i as int, ev) == SubstOutcome::Missing(
                                s.subrange(i + 2 as int, (i + 2 + k) as int),
                            ));
                        }
                        return Err(McError::MissingEnvVar(name_str));
                    },
                }
            } else {
                // `${` without a well-formed name and closer: plain text
                out.push(cs[i]);
                proof {
                    assert(out@ =~= out0 + seq![s[i as int]]);
                    lemma_subst_prepend_assoc(out0, seq![s[i as int]], subst_from(s, i + 1, ev));
                }
                i = i + 1;
            }
        } else {
            out.push(cs[i]);
            proof {
                assert(!placeholder_at(s, i as int));
                assert(out@ =~= out0 + seq![s[i as int]]);
                lemma_subst_prepend_assoc(out0, seq![s[i as int]], subst_from(s, i + 1, ev));
            }
            i = i + 1;
        }
    }
    proof {
        match subst_from(s, n as int, ev) {
            SubstOutcome::Done(rest) => {
                assert(out@ + rest =~= out@);
            },
            _ => {},
        }
    }
    Ok(string_from_chars(&out))
}

/// Whether a character may stand in a placeholder name.
fn is_env_char(c: char) -> (r: bool)
    ensures
        r == env_char(c),
{
    ('A' <= c && c <= 'Z') || ('0' <= c && c <= '9') || c == '_'
}

} // verus!
