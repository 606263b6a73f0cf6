//! Path text: conversions, trimming, segment splitting and substring replacement.

use vstd::prelude::*;

verus! {

/// Whether `c` has the Unicode White_Space property.
pub open spec fn is_white(c: char) -> bool {
    ||| ('\u{9}' <= c && c <= '\u{d}')
    ||| c == ' '
    ||| c == '\u{85}'
    ||| c == '\u{a0}'
    ||| c == '\u{1680}'
    ||| ('\u{2000}' <= c && c <= '\u{200a}')
    ||| c == '\u{2028}'
    ||| c == '\u{2029}'
    ||| c == '\u{202f}'
    ||| c == '\u{205f}'
    ||| c == '\u{3000}'
}

/// `s` without its leading white space.
pub open spec fn trim_start(s: Seq<char>) -> Seq<char>
    decreases s.len(),
{
    if s.len() > 0 && is_white(s[0]) {
        trim_start(s.drop_first())
    } else {
        s
    }
}

/// `s` without its trailing white space.
pub open spec fn trim_end(s: Seq<char>) -> Seq<char>
    decreases s.len(),
{
    if s.len() > 0 && is_white(s.last()) {
        trim_end(s.drop_last())
    } else {
        s
    }
}

/// `s` without white space at either end.
pub open spec fn trim(s: Seq<char>) -> Seq<char> {
    trim_end(trim_start(s))
}

/// A request path as the router sees it: trimmed, and without a trailing `/`
/// unless the whole path is `/`.
pub open spec fn normalize(s: Seq<char>) -> Seq<char> {
    let t = trim(s);
    if t.len() > 1 && t.last() == '/' {
        t.drop_last()
    } else {
        t
    }
}

/// The segments that remain of `p` after the partial segment `cur`: maximal
/// runs of characters other than `/`, empty runs dropped.
pub open spec fn split_from(p: Seq<char>, cur: Seq<char>) -> Seq<Seq<char>>
    decreases p.len(),
{
    if p.len() == 0 {
        if cur.len() == 0 {
            seq![]
        } else {
            seq![cur]
        }
    } else if p[0] == '/' {
        (if cur.len() == 0 {
            seq![]
        } else {
            seq![cur]
        }) + split_from(p.drop_first(), seq![])
    } else {
        split_from(p.drop_first(), cur.push(p[0]))
    }
}

/// The non-empty segments of `p` between `/` separators, in order.
pub open spec fn segments(p: Seq<char>) -> Seq<Seq<char>> {
    split_from(p, seq![])
}

/// `s` with every occurrence of `pat`, scanned left to right without overlap,
/// replaced by `rep`. An empty pattern leaves `s` as it is.
pub open spec fn replace_all(s: Seq<char>, pat: Seq<char>, rep: Seq<char>) -> Seq<char>
    decreases s.len(),
{
    if s.len() == 0 || pat.len() == 0 {
        s
    } else if pat.is_prefix_of(s) {
        rep + replace_all(s.skip(pat.len() as int), pat, rep)
    } else {
        seq![s[0]] + replace_all(s.drop_first(), pat, rep)
    }
}

/// `s` with its first occurrence of `pat` removed (unchanged if there is none,
/// or if `pat` is empty).
pub open spec fn remove_first(s: Seq<char>, pat: Seq<char>) -> Seq<char>
    decreases s.len(),
{
    if s.len() == 0 || pat.len() == 0 {
        s
    } else if pat.is_prefix_of(s) {
        s.skip(pat.len() as int)
    } else {
        seq![s[0]] + remove_first(s.drop_first(), pat)
    }
}

/// The views of a sequence of strings.
pub open spec fn views(v: Seq<String>) -> Seq<Seq<char>> {
    v.map_values(|s: String| s@)
}

/// The characters of `s`, in order.
pub fn chars_of(s: &str) -> (r: Vec<char>)
    ensures
        r@ == s@,
{
    let mut r: Vec<char> = Vec::new();
    for c in it: s.chars()
        invariant
            r@ == it.seq().take(it.index() as int),
    {
        r.push(c);
    }
    r
}

/// Relies on `String::from_iter` over `&char`: the string made of the characters of `v`, in order.
#[verifier::external_body]
pub(crate) fn string_of(v: &[char]) -> (r: String)
    ensures
        r@ == v@,
{
    String::from_iter(v.iter())
}

/// Whether `c` is white space, as `char::is_whitespace` defines it.
pub fn is_whitespace(c: char) -> (r: bool)
    ensures
        r == is_white(c),
{
    ('\u{9}' <= c && c <= '\u{d}') || c == ' ' || c == '\u{85}' || c == '\u{a0}' || c
        == '\u{1680}' || ('\u{2000}' <= c && c <= '\u{200a}') || c == '\u{2028}' || c
        == '\u{2029}' || c == '\u{202f}' || c == '\u{205f}' || c == '\u{3000}'
}

proof fn lemma_trim_start_skip(s: Seq<char>, i: int)
    requires
        0 <= i <= s.len(),
        forall|j: int| 0 <= j < i ==> is_white(#[trigger] s[j]),
    ensures
        trim_start(s) == trim_start(s.skip(i)),
    decreases i,
{
    if i > 0 {
        assert(s.skip(1) =~= s.drop_first());
        lemma_trim_start_skip(s.drop_first(), i - 1);
        assert(s.drop_first().skip(i - 1) =~= s.skip(i));
    } else {
        assert(s.skip(0) =~= s);
    }
}

proof fn lemma_trim_end_take(s: Seq<char>, j: int)
    requires
        0 <= j <= s.len(),
        forall|k: int| j <= k < s.len() ==> is_white(#[trigger] s[k]),
    ensures
        trim_end(s) == trim_end(s.take(j)),
    decreases s.len() - j,
{
    if j < s.len() {
        assert(s.take(s.len() - 1) =~= s.drop_last());
        lemma_trim_end_take(s.drop_last(), j);
        assert(s.drop_last().take(j) =~= s.take(j));
    } else {
        assert(s.take(j) =~= s);
    }
}

/// `s` without white space at either end, as `str::trim` gives it.
pub fn trim_chars(s: &Vec<char>) -> (r: Vec<char>)
    ensures
        r@ == trim(s@),
{
    let n = s.len();
    let mut i: usize = 0;
    while i < n && is_whitespace(s[i])
        invariant
            i <= n == s@.len(),
            forall|j: int| 0 <= j < i ==> is_white(#[trigger] s@[j]),
        decreases n - i,
    {
        i += 1;
    }
    proof {
        lemma_trim_start_skip(s@, i as int);
    }
    let mut j: usize = n;
    while j > i && is_whitespace(s[j - 1])
        invariant
            i <= j <= n == s@.len(),
            forall|k: int| j <= k < n ==> is_white(#[trigger] s@[k]),
        decreases j,
    {
        j -= 1;
    }
    let ghost t = s@.skip(i as int);
    proof {
        assert(i == n || !is_white(t[0]));
        assert(trim_start(t) == t);
        assert forall|k: int| j - i <= k < t.len() implies is_white(#[trigger] t[k]) by {
            assert(t[k] == s@[k + i]);
        }
        lemma_trim_end_take(t, j - i);
    }
    let mut r: Vec<char> = Vec::new();
    let mut k: usize = i;
    while k < j
        invariant
            i <= k <= j <= n == s@.len(),
            r@ =~= s@.subrange(i as int, k as int),
        decreases j - k,
    {
        r.push(s[k]);
        k += 1;
    }
    proof {
        assert(t.take(j - i) =~= s@.subrange(i as int, j as int));
        assert(j == i || !is_white(t.take(j - i).last()));
    }
    r
}

/// The path that lookup works on: trimmed, and with one trailing `/` dropped
/// unless the path is exactly `/`.
pub fn normalize_path(path: &str) -> (r: Vec<char>)
    ensures
        r@ == normalize(path@),
{
    let cs = chars_of(path);
    let mut t = trim_chars(&cs);
    if t.len() > 1 && t[t.len() - 1] == '/' {
        t.pop();
        proof {
            assert(t@ =~= trim(path@).drop_last());
        }
    }
    t
}

/// The segments of `p`, in order.
pub fn split_segments(p: &Vec<char>) -> (r: Vec<String>)
    ensures
        views(r@) == segments(p@),
{
    let mut out: Vec<String> = Vec::new();
    let mut cur: Vec<char> = Vec::new();
    let mut i: usize = 0;
    assert(p@.skip(0) =~= p@);
    assert(views(out@) + segments(p@) =~= segments(p@));
    while i < p.len()
        invariant
            i <= p@.len(),
            views(out@) + split_from(p@.skip(i as int), cur@) == segments(p@),
        decreases p@.len() - i,
    {
        let ghost rest = p@.skip(i as int);
        assert(rest.drop_first() =~= p@.skip(i + 1));
        if p[i] == '/' {
            if cur.len() > 0 {
                let s = string_of(cur.as_slice());
                proof {
                    assert(views(out@.push(s)) =~= views(out@) + seq![cur@]);
                    assert(views(out@.push(s)) + split_from(p@.skip(i + 1), seq![]) =~= views(
                        out@,
                    ) + split_from(rest, cur@));
                }
                out.push(s);
                cur = Vec::new();
            } else {
                assert(split_from(rest, cur@) =~= split_from(p@.skip(i + 1), seq![]));
                cur = Vec::new();
            }
        } else {
            cur.push(p[i]);
        }
        i += 1;
    }
    assert(p@.skip(i as int) =~= Seq::<char>::empty());
    if cur.len() > 0 {
        let s = string_of(cur.as_slice());
        proof {
            assert(views(out@.push(s)) =~= views(out@) + seq![cur@]);
        }
        out.push(s);
    } else {
        assert(views(out@) + Seq::<Seq<char>>::empty() =~= views(out@));
    }
    out
}

/// Whether `pat` occurs in `s` at position `i`.
fn occurs_at(s: &Vec<char>, i: usize, pat: &Vec<char>) -> (r: bool)
    requires
        i <= s@.len(),
    ensures
        r == pat@.is_prefix_of(s@.skip(i as int)),
{
    if pat.len() > s.len() - i {
        return false;
    }
    let sl = s.len();
    let mut k: usize = 0;
    while k < pat.len()
        invariant
            k <= pat@.len(),
            sl == s@.len(),
            i + pat@.len() <= s@.len(),
            forall|m: int| 0 <= m < k ==> pat@[m] == s@[i + m],
        decreases pat@.len() - k,
    {
        if pat[k] != s[i + k] {
            return false;
        }
        k += 1;
    }
    true
}

/// `s` with every occurrence of `pat` replaced by `rep`, left to right.
pub fn replace_all_chars(s: &Vec<char>, pat: &Vec<char>, rep: &Vec<char>) -> (r: Vec<char>)
    ensures
        r@ == replace_all(s@, pat@, rep@),
{
    if pat.len() == 0 {
        let mut r: Vec<char> = Vec::new();
        let mut k: usize = 0;
        while k < s.len()
            invariant
                k <= s@.len(),
                r@ =~= s@.take(k as int),
            decreases s@.len() - k,
        {
            r.push(s[k]);
            k += 1;
        }
        assert(s@.take(k as int) =~= s@);
        return r;
    }
    let mut out: Vec<char> = Vec::new();
    let mut i: usize = 0;
    assert(s@.skip(0) =~= s@);
    assert(out@ + replace_all(s@, pat@, rep@) =~= replace_all(s@, pat@, rep@));
    while i < s.len()
        invariant
            i <= s@.len(),
            pat@.len() > 0,
            out@ + replace_all(s@.skip(i as int), pat@, rep@) == replace_all(s@, pat@, rep@),
        decreases s@.len() - i,
    {
        let ghost rest = s@.skip(i as int);
        if occurs_at(s, i, pat) {
            let mut k: usize = 0;
            let ghost out0 = out@;
            while k < rep.len()
                invariant
                    k <= rep@.len(),
                    out@ =~= out0 + rep@.take(k as int),
                decreases rep@.len() - k,
            {
                out.push(rep[k]);
                k += 1;
            }
            assert(rest.skip(pat@.len() as int) =~= s@.skip(i + pat@.len()));
            assert(rep@.take(k as int) =~= rep@);
            assert(out@ + replace_all(s@.skip(i + pat@.len()), pat@, rep@) =~= out0
                + replace_all(rest, pat@, rep@));
            i += pat.len();
        } else {
            assert(rest.drop_first() =~= s@.skip(i + 1));
            assert(out@.push(s@[i as int]) + replace_all(s@.skip(i + 1), pat@, rep@) =~= out@
                + replace_all(rest, pat@, rep@));
            out.push(s[i]);
            i += 1;
        }
    }
    assert(s@.skip(i as int) =~= Seq::<char>::empty());
    assert(out@ + Seq::<char>::empty() =~= out@);
    out
}

/// `s` with its first occurrence of `pat` removed.
pub fn remove_first_chars(s: &Vec<char>, pat: &Vec<char>) -> (r: Vec<char>)
    ensures
        r@ == remove_first(s@, pat@),
{
    let mut out: Vec<char> = Vec::new();
    let mut i: usize = 0;
    let mut found: bool = pat.len() == 0;
    assert(s@.skip(0) =~= s@);
    assert(out@ + remove_first(s@, pat@) =~= remove_first(s@, pat@));
    assert(out@ + s@ =~= s@);
    while i < s.len()
        invariant
            i <= s@.len(),
            found ==> out@ + s@.skip(i as int) == remove_first(s@, pat@),
            !found ==> pat@.len() > 0 && out@ + remove_first(s@.skip(i as int), pat@)
                == remove_first(s@, pat@),
        decreases s@.len() - i,
    {
        let ghost rest = s@.skip(i as int);
        if !found && occurs_at(s, i, pat) {
            assert(rest.skip(pat@.len() as int) =~= s@.skip(i + pat@.len()));
            found = true;
            i += pat.len();
        } else {
            assert(rest.drop_first() =~= s@.skip(i + 1));
            if found {
                assert(out@.push(s@[i as int]) + s@.skip(i + 1) =~= out@ + rest);
            } else {
                assert(out@.push(s@[i as int]) + remove_first(s@.skip(i + 1), pat@) =~= out@
                    + remove_first(rest, pat@));
            }
            out.push(s[i]);
            i += 1;
        }
    }
    assert(s@.skip(i as int) =~= Seq::<char>::empty());
    assert(out@ + Seq::<char>::empty() =~= out@);
    proof {
        if pat@.len() == 0 {
            assert(s@.skip(0) =~= s@);
        }
    }
    out
}

} // verus!
