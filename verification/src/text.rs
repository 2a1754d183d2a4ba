//! Character-level text utilities: every scan and comparison the pipeline
//! needs is done over `Vec<char>`, whose view lines up with the `Seq<char>`
//! view of the strings it came from.

use vstd::prelude::*;
use vstd::string::StrSliceExecFns;

verus! {

/// The characters of a string, in order.
pub fn chars_of(s: &str) -> (r: Vec<char>)
    ensures
        r@ == s@,
{
    let n = s.unicode_len();
    let mut out: Vec<char> = Vec::new();
    let mut i: usize = 0;
    while i < n
        invariant
            n == s@.len(),
            i <= n,
            out@.len() == i,
            forall|j: int| 0 <= j < i ==> out@[j] == s@[j],
        decreases n - i,
    {
        out.push(s.get_char(i));
        i = i + 1;
    }
    proof {
        assert(out@ =~= s@);
    }
    out
}

/// Relies on `String: FromIterator<char>` through `Iterator::collect`: the
/// string holding exactly the given characters in order.
#[verifier::external_body]
pub(crate) fn string_from_chars(cs: &Vec<char>) -> (r: String)
    ensures
        r@ == cs@,
{
    cs.iter().collect()
}

/// Push every character of `src` from `from` (inclusive) to `to` (exclusive)
/// onto `out`.
pub fn push_range(out: &mut Vec<char>, src: &Vec<char>, from: usize, to: usize)
    requires
        from <= to <= src@.len(),
    ensures
        final(out)@ == old(out)@ + src@.subrange(from as int, to as int),
{
    let mut i: usize = from;
    while i < to
        invariant
            from <= i <= to <= src@.len(),
            out@ == old(out)@ + src@.subrange(from as int, i as int),
        decreases to - i,
    {
        let ghost before = out@;
        out.push(src[i]);
        proof {
            assert(before.push(src@[i as int]) =~= old(out)@ + src@.subrange(
                from as int,
                i + 1 as int,
            ));
        }
        i = i + 1;
    }
}

/// Whether the characters of `s` from `from` (inclusive) to `to` (exclusive)
/// spell exactly the string `p`.
pub fn range_eq_str(s: &Vec<char>, from: usize, to: usize, p: &str) -> (r: bool)
    requires
        from <= to <= s@.len(),
    ensures
        r == (s@.subrange(from as int, to as int) == p@),
{
    let n = p.unicode_len();
    if n != to - from {
        proof {
            assert(s@.subrange(from as int, to as int).len() == to - from);
        }
        return false;
    }
    let mut i: usize = 0;
    while i < n
        invariant
            n == p@.len(),
            i <= n,
            n == to - from,
            from <= to <= s@.len(),
            forall|j: int| 0 <= j < i ==> s@[from + j] == p@[j],
        decreases n - i,
    {
        if s[from + i] != p.get_char(i) {
            proof {
                assert(s@.subrange(from as int, to as int)[i as int] == s@[from + i]);
            }
            return false;
        }
        i = i + 1;
    }
    proof {
        assert(s@.subrange(from as int, to as int) =~= p@);
    }
    true
}

/// Whether two strings spell the same characters.
pub fn str_eq(a: &str, b: &str) -> (r: bool)
    ensures
        r == (a@ == b@),
{
    let n = a.unicode_len();
    if n != b.unicode_len() {
        return false;
    }
    let mut i: usize = 0;
    while i < n
        invariant
            n == a@.len(),
            n == b@.len(),
            i <= n,
            forall|j: int| 0 <= j < i ==> a@[j] == b@[j],
        decreases n - i,
    {
        if a.get_char(i) != b.get_char(i) {
            return false;
        }
        i = i + 1;
    }
    proof {
        assert(a@ =~= b@);
    }
    true
}

/// The image of a list of strings.
pub open spec fn strings_view(v: Seq<String>) -> Seq<Seq<char>> {
    v.map(|i: int, s: String| s@)
}

/// `strings_view` maps the list pointwise.
pub proof fn lemma_strings_view_at(v: Seq<String>, i: int)
    requires
        0 <= i < v.len(),
    ensures
        strings_view(v).len() == v.len(),
        strings_view(v)[i] == v[i]@,
{
    assert(strings_view(v)[i] == v[i]@);
}

/// Replacement of every occurrence of `pat` in `s` from position `i` on,
/// left to right and without overlap; what `str::replace` does for a
/// non-empty pattern.
pub open spec fn replaced_from(s: Seq<char>, i: int, pat: Seq<char>, rep: Seq<char>) -> Seq<char>
    decreases s.len() - i,
{
    if i < 0 || i >= s.len() || pat.len() == 0 {
        Seq::empty()
    } else if i + pat.len() <= s.len() && s.subrange(i, i + pat.len()) == pat {
        rep + replaced_from(s, i + pat.len(), pat, rep)
    } else {
        seq![s[i]] + replaced_from(s, i + 1, pat, rep)
    }
}

/// Replacement of every occurrence of a non-empty `pat` in `s` by `rep`.
pub open spec fn replaced(s: Seq<char>, pat: Seq<char>, rep: Seq<char>) -> Seq<char> {
    replaced_from(s, 0, pat, rep)
}

/// Replace every occurrence of `pat` in `s` by `rep`, left to right,
/// without rescanning what was substituted.
pub fn replace_all(s: &str, pat: &str, rep: &str) -> (r: String)
    requires
        pat@.len() >= 1,
    ensures
        r@ == replaced(s@, pat@, rep@),
{
    let cs = chars_of(s);
    let n = cs.len();
    let plen = pat.unicode_len();
    let rep_chars = chars_of(rep);
    let mut out: Vec<char> = Vec::new();
    let mut i: usize = 0;
    proof {
        assert(Seq::<char>::empty() + replaced_from(s@, 0, pat@, rep@) =~= replaced_from(
            s@,
            0,
            pat@,
            rep@,
        ));
    }
    while i < n
        invariant
            n == s@.len(),
            cs@ == s@,
            plen == pat@.len(),
            plen >= 1,
            rep_chars@ == rep@,
            i <= n,
            out@ + replaced_from(s@, i as int, pat@, rep@) == replaced(s@, pat@, rep@),
        decreases n - i,
    {
        let ghost out0 = out@;
        if plen <= n - i && range_eq_str(&cs, i, i + plen, pat) {
            let mut chunk = rep_chars.clone();
            out.append(&mut chunk);
            proof {
                assert(out@ + replaced_from(s@, i + plen, pat@, rep@) =~= out0 + (rep@
                    + replaced_from(s@, i + plen, pat@, rep@)));
            }
            i = i + plen;
        } else {
            out.push(cs[i]);
            proof {
                assert(out@ + replaced_from(s@, i + 1, pat@, rep@) =~= out0 + (seq![s@[i as int]]
                    + replaced_from(s@, i + 1, pat@, rep@)));
            }
            i = i + 1;
        }
    }
    proof {
        assert(out@ + replaced_from(s@, n as int, pat@, rep@) =~= out@);
    }
    string_from_chars(&out)
}

} // verus!
