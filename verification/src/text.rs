//! Character-level helpers shared by the template grammar, the command file
//! format and the picker screens.

use vstd::prelude::*;

verus! {

/// Unicode `White_Space`: the characters matched by `\s` in a Unicode regex
/// and removed by `str::trim`.
pub open spec fn is_space(c: char) -> bool {
    ||| ('\u{9}' <= c && c <= '\u{d}')
    ||| c == ' '
    ||| c == '\u{85}'
    ||| c == '\u{a0}'
    ||| c == '\u{1680}'
    ||| ('\u{2000}' <= c && c <= '\u{200a}')
    ||| c == '\u{2028}'
    ||| c == '\u{2029}'
    ||| c == '\u{202f}'
    ||| c == '\u{205f}'
    ||| c == '\u{3000}'
}

/// Executable test for `is_space`.
pub fn char_is_space(c: char) -> (r: bool)
    ensures
        r == is_space(c),
{
    ('\u{9}' <= c && c <= '\u{d}') || c == ' ' || c == '\u{85}' || c == '\u{a0}' || c
        == '\u{1680}' || ('\u{2000}' <= c && c <= '\u{200a}') || c == '\u{2028}' || c
        == '\u{2029}' || c == '\u{202f}' || c == '\u{205f}' || c == '\u{3000}'
}

/// The characters of `s`, in order.
pub fn chars_of(s: &str) -> (v: Vec<char>)
    ensures
        v@ == s@,
{
    let mut v: Vec<char> = Vec::new();
    for c in it: s.chars()
        invariant
            it.seq() == s@,
            v@ == it.seq().take(it.index() as int),
    {
        v.push(c);
    }
    v
}

/// The first index in `[a, b)` that holds no white space, or `b`.
pub open spec fn trim_start(s: Seq<char>, a: int, b: int) -> int
    decreases b - a,
{
    if a < b && is_space(s[a]) {
        trim_start(s, a + 1, b)
    } else {
        a
    }
}

/// One past the last index in `[a, b)` that holds no white space, or `a`.
pub open spec fn trim_end(s: Seq<char>, a: int, b: int) -> int
    decreases b - a,
{
    if a < b && is_space(s[b - 1]) {
        trim_end(s, a, b - 1)
    } else {
        b
    }
}

/// `t` with leading and trailing white space removed, as `str::trim` does.
pub open spec fn trimmed(t: Seq<char>) -> Seq<char> {
    let lo = trim_start(t, 0, t.len() as int);
    t.subrange(lo, trim_end(t, lo, t.len() as int))
}

pub proof fn lemma_trim_bounds(s: Seq<char>, a: int, b: int)
    requires
        0 <= a <= b <= s.len(),
    ensures
        a <= trim_start(s, a, b) <= b,
        a <= trim_end(s, a, b) <= b,
    decreases b - a,
{
    if a < b && is_space(s[a]) {
        lemma_trim_bounds(s, a + 1, b);
    }
    if a < b && is_space(s[b - 1]) {
        lemma_trim_bounds(s, a, b - 1);
    }
}

pub proof fn lemma_trim_ends(s: Seq<char>, a: int, b: int)
    requires
        0 <= a <= b <= s.len(),
    ensures
        trim_start(s, a, b) < b ==> !is_space(s[trim_start(s, a, b)]),
        trim_end(s, a, b) > a ==> !is_space(s[trim_end(s, a, b) - 1]),
    decreases b - a,
{
    if a < b && is_space(s[a]) {
        lemma_trim_ends(s, a + 1, b);
    }
    if a < b && is_space(s[b - 1]) {
        lemma_trim_ends(s, a, b - 1);
    }
}

/// Trimming keeps the part of the text between its leading and trailing
/// white space: white space only before and after it, and neither end of
/// the kept part is white space.
pub proof fn law_trimmed(t: Seq<char>)
    ensures
        exists|lo: int|
            #![trigger t.subrange(lo, lo + trimmed(t).len())]
            {
                &&& 0 <= lo && lo + trimmed(t).len() <= t.len()
                &&& trimmed(t) == t.subrange(lo, lo + trimmed(t).len())
                &&& forall|j: int| 0 <= j < lo ==> is_space(#[trigger] t[j])
                &&& forall|j: int| lo + trimmed(t).len() <= j < t.len() ==> is_space(#[trigger] t[j])
                &&& trimmed(t).len() > 0 ==> !is_space(trimmed(t)[0]) && !is_space(trimmed(t).last())
            },
{
    let n = t.len() as int;
    let lo = trim_start(t, 0, n);
    lemma_trim_bounds(t, 0, n);
    lemma_trim_ends(t, 0, n);
    lemma_trim_bounds(t, lo, n);
    lemma_trim_ends(t, lo, n);
    lemma_trim_spaces(t, 0, n);
    lemma_trim_spaces(t, lo, n);
    let hi = trim_end(t, lo, n);
    assert(trimmed(t).len() == hi - lo);
    assert(t.subrange(lo, lo + trimmed(t).len()) == trimmed(t));
    if hi > lo {
        assert(trimmed(t)[0] == t[lo]);
        assert(trimmed(t).last() == t[hi - 1]);
    }
}

proof fn lemma_trim_spaces(s: Seq<char>, a: int, b: int)
    requires
        0 <= a <= b <= s.len(),
    ensures
        forall|j: int| a <= j < trim_start(s, a, b) ==> is_space(#[trigger] s[j]),
        forall|j: int| trim_end(s, a, b) <= j < b ==> is_space(#[trigger] s[j]),
    decreases b - a,
{
    if a < b && is_space(s[a]) {
        lemma_trim_spaces(s, a + 1, b);
    }
    if a < b && is_space(s[b - 1]) {
        lemma_trim_spaces(s, a, b - 1);
    }
}

/// Trimming twice trims no more than trimming once.
pub proof fn lemma_trimmed_idempotent(t: Seq<char>)
    ensures
        trimmed(trimmed(t)) == trimmed(t),
{
    let n = t.len() as int;
    let lo = trim_start(t, 0, n);
    lemma_trim_bounds(t, 0, n);
    lemma_trim_ends(t, 0, n);
    lemma_trim_bounds(t, lo, n);
    lemma_trim_ends(t, lo, n);
    let hi = trim_end(t, lo, n);
    let u = t.subrange(lo, hi);
    if u.len() > 0 {
        assert(u[0] == t[lo]);
        assert(u[u.len() - 1] == t[hi - 1]);
        assert(trim_start(u, 0, u.len() as int) == 0);
        assert(trim_end(u, 0, u.len() as int) == u.len());
        assert(trimmed(u) =~= u);
    } else {
        assert(trimmed(u) =~= u);
    }
}

/// `s` with leading and trailing white space removed.
pub fn trim(s: &str) -> (r: &str)
    ensures
        r@ == trimmed(s@),
{
    let cs = chars_of(s);
    let n = cs.len();
    let mut lo: usize = 0;
    while lo < n && char_is_space(cs[lo])
        invariant
            lo <= n == cs.len(),
            cs@ == s@,
            trim_start(cs@, 0, n as int) == trim_start(cs@, lo as int, n as int),
        decreases n - lo,
    {
        lo += 1;
    }
    let mut hi = n;
    while lo < hi && char_is_space(cs[hi - 1])
        invariant
            lo <= hi <= n == cs.len(),
            cs@ == s@,
            trim_end(cs@, lo as int, n as int) == trim_end(cs@, lo as int, hi as int),
        decreases hi - lo,
    {
        hi -= 1;
    }
    s.substring_char(lo, hi)
}

/// Appends `c` to `s`.
///
/// Calls `String::push`, which appends the character to the end of the string.
#[verifier::external_body]
pub(crate) fn push_char(s: &mut String, c: char)
    ensures
        final(s)@ == old(s)@.push(c),
{
    s.push(c)
}

/// Removes the last character of `s`, if any, and returns it.
///
/// Calls `String::pop`, which removes the last character and returns it, or
/// returns `None` and leaves the string as it is when it is empty.
#[verifier::external_body]
pub(crate) fn pop_char(s: &mut String) -> (r: Option<char>)
    ensures
        old(s)@.len() == 0 ==> r is None && final(s)@ == old(s)@,
        old(s)@.len() > 0 ==> r == Some(old(s)@.last()) && final(s)@ == old(s)@.drop_last(),
{
    s.pop()
}

/// `h` with every occurrence of `p` from index `i` on replaced by `r`,
/// occurrences taken from left to right without overlap. An empty `p` occurs
/// before every character and at the end.
pub open spec fn replace_from(h: Seq<char>, p: Seq<char>, r: Seq<char>, i: int) -> Seq<char>
    decreases h.len() - i, p.len(),
{
    if i < 0 || i > h.len() {
        seq![]
    } else if p.len() == 0 {
        if i == h.len() {
            r
        } else {
            r + seq![h[i]] + replace_from(h, p, r, i + 1)
        }
    } else if i == h.len() {
        seq![]
    } else if i + p.len() <= h.len() && h.subrange(i, i + p.len()) == p {
        r + replace_from(h, p, r, i + p.len())
    } else {
        seq![h[i]] + replace_from(h, p, r, i + 1)
    }
}

/// `h` with every occurrence of `p` replaced by `r`, as `str::replace` does.
pub open spec fn replace_all(h: Seq<char>, p: Seq<char>, r: Seq<char>) -> Seq<char> {
    replace_from(h, p, r, 0)
}

proof fn lemma_replace_prefix(x: Seq<char>, p: Seq<char>, r: Seq<char>, i: int, a: int)
    requires
        p.len() > 0,
        0 <= i <= a <= x.len(),
        forall|k: int| i <= k < a && k + p.len() <= x.len() ==> #[trigger] x.subrange(k, k + p.len()) != p,
    ensures
        replace_from(x, p, r, i) == x.subrange(i, a) + replace_from(x, p, r, a),
    decreases a - i,
{
    if i < a {
        lemma_replace_prefix(x, p, r, i + 1, a);
        assert(seq![x[i]] + (x.subrange(i + 1, a) + replace_from(x, p, r, a)) =~= x.subrange(i, a)
            + replace_from(x, p, r, a));
    } else {
        assert(x.subrange(i, a) + replace_from(x, p, r, a) =~= replace_from(x, p, r, a));
    }
}

proof fn lemma_replace_suffix(w: Seq<char>, y: Seq<char>, p: Seq<char>, r: Seq<char>, j: int)
    requires
        p.len() > 0,
        0 <= j <= y.len(),
    ensures
        replace_from(w + y, p, r, w.len() + j) == replace_from(y, p, r, j),
    decreases y.len() - j,
{
    let x = w + y;
    let i = w.len() + j;
    if j < y.len() {
        assert(x[i] == y[j]);
        if j + p.len() <= y.len() {
            assert(x.subrange(i, i + p.len()) =~= y.subrange(j, j + p.len()));
            if y.subrange(j, j + p.len()) == p {
                lemma_replace_suffix(w, y, p, r, j + p.len());
            } else {
                lemma_replace_suffix(w, y, p, r, j + 1);
            }
        } else {
            lemma_replace_suffix(w, y, p, r, j + 1);
        }
    }
}

/// Replacing puts the whole value in place of an occurrence: in `a + p + b`,
/// where no occurrence of `p` begins within `a`, the result is `a`, then `r`,
/// then `b` with its occurrences replaced.
pub proof fn law_replace_concat(a: Seq<char>, p: Seq<char>, r: Seq<char>, b: Seq<char>)
    requires
        p.len() > 0,
        forall|k: int| 0 <= k < a.len() ==> #[trigger] (a + p + b).subrange(k, k + p.len()) != p,
    ensures
        replace_all(a + p + b, p, r) == a + r + replace_all(b, p, r),
{
    let x = a + p + b;
    let n = a.len() as int;
    lemma_replace_prefix(x, p, r, 0, n);
    assert(x.subrange(n, n + p.len()) =~= p);
    assert(x =~= (a + p) + b);
    lemma_replace_suffix(a + p, b, p, r, 0);
    assert(x.subrange(0, n) =~= a);
    assert(replace_from(x, p, r, n) == r + replace_from(x, p, r, n + p.len()));
    assert(a + (r + replace_all(b, p, r)) =~= a + r + replace_all(b, p, r));
}

/// A text in which `p` does not occur is left as it is.
pub proof fn law_replace_absent(h: Seq<char>, p: Seq<char>, r: Seq<char>)
    requires
        p.len() > 0,
        forall|k: int| 0 <= k && k + p.len() <= h.len() ==> #[trigger] h.subrange(k, k + p.len()) != p,
    ensures
        replace_all(h, p, r) == h,
{
    lemma_replace_prefix(h, p, r, 0, h.len() as int);
    assert(h.subrange(0, h.len() as int) + replace_from(h, p, r, h.len() as int) =~= h);
}

/// The text of a placeholder, replaced by a value, is the value.
pub proof fn law_replace_whole(p: Seq<char>, r: Seq<char>)
    requires
        p.len() > 0,
    ensures
        replace_all(p, p, r) == r,
{
    let e = Seq::<char>::empty();
    assert(e + p + e =~= p);
    law_replace_concat(e, p, r, e);
    law_replace_absent(e, p, r);
    assert(e + r + e =~= r);
}

/// Whether `ps` occurs in `hs` at index `i`.
fn occurs_at(hs: &Vec<char>, ps: &Vec<char>, i: usize) -> (b: bool)
    requires
        i <= hs.len(),
    ensures
        b == (i + ps.len() <= hs.len() && hs@.subrange(i as int, i + ps.len()) == ps@),
{
    if hs.len() - i < ps.len() {
        return false;
    }
    let mut j: usize = 0;
    while j < ps.len()
        invariant
            j <= ps.len(),
            i + ps.len() <= hs.len(),
            forall|k: int| 0 <= k < j ==> hs@[i + k] == ps@[k],
        decreases ps.len() - j,
    {
        if hs[i + j] != ps[j] {
            assert(hs@.subrange(i as int, i + ps.len())[j as int] != ps@[j as int]);
            return false;
        }
        j += 1;
    }
    assert(hs@.subrange(i as int, i + ps.len()) =~= ps@);
    true
}

/// `h` with every occurrence of `p` replaced by `r`.
pub fn replace(h: &str, p: &str, r: &str) -> (out: String)
    ensures
        out@ == replace_all(h@, p@, r@),
{
    let hs = chars_of(h);
    let ps = chars_of(p);
    let n = hs.len();
    let mut out = String::new();
    if ps.len() == 0 {
        let mut i: usize = 0;
        while i < n
            invariant
                i <= n == hs.len(),
                hs@ == h@,
                ps@ == p@,
                ps.len() == 0,
                replace_all(h@, p@, r@) == out@ + replace_from(h@, p@, r@, i as int),
            decreases n - i,
        {
            let ghost before = out@;
            out.append(r);
            out.append(h.substring_char(i, i + 1));
            assert(before + replace_from(h@, p@, r@, i as int) =~= out@ + replace_from(
                h@,
                p@,
                r@,
                i + 1,
            ));
            i += 1;
        }
        out.append(r);
        return out;
    }
    let mut run: usize = 0;
    let mut i: usize = 0;
    while i < n
        invariant
            run <= i <= n == hs.len(),
            hs@ == h@,
            ps@ == p@,
            ps.len() > 0,
            replace_all(h@, p@, r@) == out@ + h@.subrange(run as int, i as int) + replace_from(
                h@,
                p@,
                r@,
                i as int,
            ),
        decreases n - i,
    {
        let ghost before = out@;
        if occurs_at(&hs, &ps, i) {
            out.append(h.substring_char(run, i));
            out.append(r);
            assert(before + h@.subrange(run as int, i as int) + replace_from(h@, p@, r@, i as int)
                =~= out@ + h@.subrange(i + ps.len(), i + ps.len()) + replace_from(
                h@,
                p@,
                r@,
                i + ps.len(),
            ));
            i = i + ps.len();
            run = i;
        } else {
            assert(before + h@.subrange(run as int, i as int) + replace_from(h@, p@, r@, i as int)
                =~= out@ + h@.subrange(run as int, i + 1) + replace_from(h@, p@, r@, i + 1));
            i += 1;
        }
    }
    out.append(h.substring_char(run, n));
    assert(out@ =~= out@ + replace_from(h@, p@, r@, n as int));
    out
}

} // verus!
