//! Byte-level text primitives shared by the parser, the mutation engine and
//! the diff generator: character classes, trimming, substring search, and the
//! decomposition of a document into newline-separated line spans.

use vstd::prelude::*;

verus! {

broadcast use vstd::slice::axiom_spec_len;

/// ASCII whitespace, as the line classifier understands it.
pub open spec fn is_ws(b: u8) -> bool {
    b == 32 || (9 <= b && b <= 13)
}

/// ASCII decimal digit.
pub open spec fn is_digit(b: u8) -> bool {
    48 <= b && b <= 57
}

/// First index at or after `i` where `p` stops holding (or `s.len()`).
pub open spec fn run_end(s: Seq<u8>, i: int, p: spec_fn(u8) -> bool) -> int
    decreases s.len() - i
    when 0 <= i
{
    if i >= s.len() {
        s.len() as int
    } else if p(s[i]) {
        run_end(s, i + 1, p)
    } else {
        i
    }
}

pub proof fn lemma_run_end(s: Seq<u8>, i: int, p: spec_fn(u8) -> bool)
    requires
        0 <= i <= s.len(),
    ensures
        i <= run_end(s, i, p) <= s.len(),
        forall|j: int| i <= j < run_end(s, i, p) ==> p(#[trigger] s[j]),
        run_end(s, i, p) < s.len() ==> !p(s[run_end(s, i, p)]),
    decreases s.len() - i,
{
    if i < s.len() && p(s[i]) {
        lemma_run_end(s, i + 1, p);
    }
}

/// A scan that stops exactly at `e` pins `run_end` down.
pub proof fn lemma_run_end_unique(s: Seq<u8>, i: int, p: spec_fn(u8) -> bool, e: int)
    requires
        0 <= i <= e <= s.len(),
        forall|j: int| i <= j < e ==> p(#[trigger] s[j]),
        e < s.len() ==> !p(s[e]),
    ensures
        run_end(s, i, p) == e,
    decreases s.len() - i,
{
    if i < s.len() && p(s[i]) {
        lemma_run_end_unique(s, i + 1, p, e);
    }
}

/// The input with its leading whitespace removed.
pub open spec fn trim_front(s: Seq<u8>) -> Seq<u8>
    decreases s.len(),
{
    if s.len() > 0 && is_ws(s[0]) {
        trim_front(s.drop_first())
    } else {
        s
    }
}

/// The input with its trailing whitespace removed.
pub open spec fn trim_back(s: Seq<u8>) -> Seq<u8>
    decreases s.len(),
{
    if s.len() > 0 && is_ws(s.last()) {
        trim_back(s.drop_last())
    } else {
        s
    }
}

/// The input with whitespace removed from both ends.
pub open spec fn trim(s: Seq<u8>) -> Seq<u8> {
    trim_back(trim_front(s))
}

/// Every byte is whitespace; equivalently, the trimmed form is empty.
pub open spec fn is_blank(s: Seq<u8>) -> bool {
    forall|i: int| 0 <= i < s.len() ==> is_ws(#[trigger] s[i])
}

pub proof fn lemma_trim_front_skip(s: Seq<u8>, k: int)
    requires
        0 <= k <= s.len(),
        forall|i: int| 0 <= i < k ==> is_ws(#[trigger] s[i]),
        k == s.len() || !is_ws(s[k]),
    ensures
        trim_front(s) == s.subrange(k, s.len() as int),
    decreases k,
{
    if k == 0 {
        assert(s.subrange(0, s.len() as int) =~= s);
    } else {
        assert(is_ws(s[0]));
        lemma_trim_front_skip(s.drop_first(), k - 1);
        assert(s.drop_first().subrange(k - 1, s.len() - 1) =~= s.subrange(k, s.len() as int));
    }
}

pub proof fn lemma_trim_back_take(s: Seq<u8>, k: int)
    requires
        0 <= k <= s.len(),
        forall|i: int| k <= i < s.len() ==> is_ws(#[trigger] s[i]),
        k == 0 || !is_ws(s[k - 1]),
    ensures
        trim_back(s) == s.subrange(0, k),
    decreases s.len(),
{
    if k == s.len() {
        if s.len() > 0 && is_ws(s.last()) {
            assert(false);
        }
        assert(s.subrange(0, s.len() as int) =~= s);
    } else {
        assert(is_ws(s.last()));
        lemma_trim_back_take(s.drop_last(), k);
        assert(s.drop_last().subrange(0, k) =~= s.subrange(0, k));
    }
}

/// `trim` of a slice whose non-whitespace content sits exactly in `[ts, te)`.
pub proof fn lemma_trim_bounds(s: Seq<u8>, ts: int, te: int)
    requires
        0 <= ts <= te <= s.len(),
        forall|i: int| 0 <= i < ts ==> is_ws(#[trigger] s[i]),
        forall|i: int| te <= i < s.len() ==> is_ws(#[trigger] s[i]),
        ts < te ==> !is_ws(s[ts]) && !is_ws(s[te - 1]),
        ts == te ==> ts == s.len(),
    ensures
        trim(s) == s.subrange(ts, te),
{
    lemma_trim_front_skip(s, ts);
    let u = s.subrange(ts, s.len() as int);
    lemma_trim_back_take(u, te - ts);
    assert(u.subrange(0, te - ts) =~= s.subrange(ts, te));
}

/// The needle occurs in the haystack starting at position `i`.
pub open spec fn contains_at(hay: Seq<u8>, nee: Seq<u8>, i: int) -> bool {
    0 <= i && i + nee.len() <= hay.len() && nee =~= hay.subrange(i, i + nee.len())
}

/// The needle occurs somewhere in the haystack.
pub open spec fn contains_seq(hay: Seq<u8>, nee: Seq<u8>) -> bool {
    exists|i: int| contains_at(hay, nee, i)
}

/// Some byte of `s` equals `b`.
pub open spec fn contains_byte(s: Seq<u8>, b: u8) -> bool {
    exists|i: int| 0 <= i < s.len() && s[i] == b
}

/// `p` is an initial segment of `s`.
pub open spec fn has_prefix(s: Seq<u8>, p: Seq<u8>) -> bool {
    p.len() <= s.len() && p =~= s.subrange(0, p.len() as int)
}

/// Index of the first newline at or after `i`, or `s.len()` if none remains.
pub open spec fn next_nl(s: Seq<u8>, i: int) -> int {
    run_end(s, i, |b: u8| b != 10)
}

/// The half-open byte spans of the lines of `s`, in order.  A final newline
/// terminates the last line rather than opening an empty one.
pub open spec fn line_spans_from(s: Seq<u8>, i: int) -> Seq<(int, int)>
    decreases s.len() - i
    when 0 <= i
    via line_spans_from_dec
{
    if i >= s.len() {
        Seq::empty()
    } else {
        let e = next_nl(s, i);
        if e >= s.len() {
            seq![(i, s.len() as int)]
        } else {
            seq![(i, e)] + line_spans_from(s, e + 1)
        }
    }
}

#[via_fn]
proof fn line_spans_from_dec(s: Seq<u8>, i: int) {
    if 0 <= i && i < s.len() {
        lemma_run_end(s, i, |b: u8| b != 10);
    }
}

pub open spec fn line_spans(s: Seq<u8>) -> Seq<(int, int)> {
    line_spans_from(s, 0)
}

/// Number of lines of `s`.
pub open spec fn n_lines(s: Seq<u8>) -> int {
    line_spans(s).len() as int
}

/// Start offset of line `k` of `s`.
pub open spec fn lstart(s: Seq<u8>, k: int) -> int {
    line_spans(s)[k].0
}

/// End offset (exclusive, newline not included) of line `k` of `s`.
pub open spec fn lend(s: Seq<u8>, k: int) -> int {
    line_spans(s)[k].1
}

/// Content of line `k` of `s`.
pub open spec fn line_at(s: Seq<u8>, k: int) -> Seq<u8> {
    s.subrange(lstart(s, k), lend(s, k))
}

pub proof fn lemma_line_spans_from_props(s: Seq<u8>, i: int)
    requires
        0 <= i <= s.len(),
    ensures
        ({
            let sp = line_spans_from(s, i);
            &&& sp.len() <= s.len() - i
            &&& (sp.len() == 0 <==> i == s.len())
            &&& sp.len() > 0 ==> sp[0].0 == i
            &&& forall|k: int|
                0 <= k < sp.len() ==> i <= (#[trigger] sp[k]).0 <= sp[k].1 <= s.len()
            &&& forall|k: int|
                0 <= k < sp.len() - 1 ==> (#[trigger] sp[k]).1 < s.len() && s[sp[k].1] == 10
                    && sp[k + 1].0 == sp[k].1 + 1
            &&& sp.len() > 0 ==> (sp[sp.len() - 1].1 == s.len() || (sp[sp.len() - 1].1 == s.len()
                - 1 && s[s.len() - 1] == 10))
            &&& forall|k: int, j: int|
                0 <= k < sp.len() && (#[trigger] sp[k]).0 <= j < sp[k].1 ==> #[trigger] s[j] != 10
            &&& forall|k1: int, k2: int|
                0 <= k1 <= k2 < sp.len() ==> (#[trigger] sp[k1]).1 <= (#[trigger] sp[k2]).1
                    && sp[k1].0 <= sp[k2].0
        }),
    decreases s.len() - i,
{
    if i < s.len() {
        let e = next_nl(s, i);
        lemma_run_end(s, i, |b: u8| b != 10);
        assert(forall|j: int| i <= j < e ==> s[j] != 10);
        if e < s.len() {
            lemma_line_spans_from_props(s, e + 1);
        }
    }
}

pub proof fn lemma_line_spans_props(s: Seq<u8>)
    ensures
        ({
            let sp = line_spans(s);
            &&& sp.len() <= s.len()
            &&& (sp.len() == 0 <==> s.len() == 0)
            &&& sp.len() > 0 ==> sp[0].0 == 0
            &&& forall|k: int| 0 <= k < sp.len() ==> 0 <= (#[trigger] sp[k]).0 <= sp[k].1 <= s.len()
            &&& forall|k: int|
                0 <= k < sp.len() - 1 ==> (#[trigger] sp[k]).1 < s.len() && s[sp[k].1] == 10
                    && sp[k + 1].0 == sp[k].1 + 1
            &&& sp.len() > 0 ==> (sp[sp.len() - 1].1 == s.len() || (sp[sp.len() - 1].1 == s.len()
                - 1 && s[s.len() - 1] == 10))
            &&& forall|k: int, j: int|
                0 <= k < sp.len() && (#[trigger] sp[k]).0 <= j < sp[k].1 ==> #[trigger] s[j] != 10
            &&& forall|k1: int, k2: int|
                0 <= k1 <= k2 < sp.len() ==> (#[trigger] sp[k1]).1 <= (#[trigger] sp[k2]).1
                    && sp[k1].0 <= sp[k2].0
        }),
{
    lemma_line_spans_from_props(s, 0);
}

/// The executable span table agrees with `line_spans`.
pub open spec fn spans_ok(s: Seq<u8>, sp: Seq<(usize, usize)>) -> bool {
    &&& sp.len() == line_spans(s).len()
    &&& forall|k: int|
        0 <= k < sp.len() ==> (#[trigger] sp[k]).0 == lstart(s, k) && sp[k].1 == lend(s, k)
}

/// Split a document into the byte spans of its lines.
pub fn split_lines(text: &[u8]) -> (r: Vec<(usize, usize)>)
    ensures
        spans_ok(text@, r@),
{
    let s = Ghost(text@);
    let mut r: Vec<(usize, usize)> = Vec::new();
    let mut i: usize = 0;
    proof {
        assert(line_spans(s@) =~= Seq::<(int, int)>::empty() + line_spans_from(s@, 0));
    }
    loop
        invariant
            0 <= i <= s@.len(),
            text@ == s@,
            line_spans(s@) =~= Seq::new(r@.len() as nat, |k: int| (r@[k].0 as int, r@[k].1 as int))
                + line_spans_from(s@, i as int),
        ensures
            line_spans(s@) == Seq::new(r@.len() as nat, |k: int| (r@[k].0 as int, r@[k].1 as int)),
        decreases s@.len() - i,
    {
        if i >= text.len() {
            proof {
                assert(i == s@.len());
                assert(line_spans_from(s@, i as int) =~= Seq::<(int, int)>::empty());
                assert(line_spans(s@) =~= Seq::new(
                    r@.len() as nat,
                    |k: int| (r@[k].0 as int, r@[k].1 as int),
                ));
            }
            break ;
        }
        let mut j: usize = i;
        while j < text.len() && *vstd::slice::slice_index_get(text, j) != 10
            invariant
                i <= j <= s@.len(),
                text@ == s@,
                forall|k: int| i <= k < j ==> s@[k] != 10,
            decreases s@.len() - j,
        {
            j += 1;
        }
        proof {
            lemma_run_end_unique(s@, i as int, |b: u8| b != 10, j as int);
        }
        let ghost prevmap = Seq::new(r@.len() as nat, |k: int| (r@[k].0 as int, r@[k].1 as int));
        r.push((i, j));
        let ghost nowmap = Seq::new(r@.len() as nat, |k: int| (r@[k].0 as int, r@[k].1 as int));
        proof {
            assert(nowmap =~= prevmap.push((i as int, j as int)));
        }
        if j >= text.len() {
            proof {
                assert(j == s@.len());
                assert(next_nl(s@, i as int) == j);
                assert(line_spans_from(s@, i as int) =~= seq![(i as int, s@.len() as int)]);
                assert(line_spans(s@) =~= nowmap);
                assert(line_spans(s@) =~= Seq::new(
                    r@.len() as nat,
                    |k: int| (r@[k].0 as int, r@[k].1 as int),
                ));
            }
            i = j;
            break ;
        }
        proof {
            assert(next_nl(s@, i as int) == j);
            assert(line_spans_from(s@, i as int) =~= seq![(i as int, j as int)] + line_spans_from(
                s@,
                j + 1,
            ));
            assert(line_spans(s@) =~= nowmap + line_spans_from(s@, j + 1));
        }
        i = j + 1;
    }
    proof {
        assert(forall|k: int|
            0 <= k < r@.len() ==> ((#[trigger] r@[k]).0 as int, r@[k].1 as int) == line_spans(
                s@,
            )[k]);
    }
    r
}

/// Copy the byte range `[i, j)` of `text` into a fresh vector.
pub fn subrange_vec(text: &[u8], i: usize, j: usize) -> (r: Vec<u8>)
    requires
        i <= j <= text@.len(),
    ensures
        r@ == text@.subrange(i as int, j as int),
{
    let sub = vstd::slice::slice_subrange(text, i, j);
    vstd::slice::slice_to_vec(sub)
}

/// Byte-wise equality of two slices.
pub fn bytes_eq(a: &[u8], b: &[u8]) -> (r: bool)
    ensures
        r == (a@ == b@),
{
    if a.len() != b.len() {
        return false;
    }
    let mut i: usize = 0;
    while i < a.len()
        invariant
            a@.len() == b@.len(),
            0 <= i <= a@.len(),
            forall|k: int| 0 <= k < i ==> a@[k] == b@[k],
        decreases a@.len() - i,
    {
        if *vstd::slice::slice_index_get(a, i) != *vstd::slice::slice_index_get(b, i) {
            return false;
        }
        i += 1;
    }
    proof {
        assert(a@ =~= b@);
    }
    true
}

/// Whether `pat` occurs anywhere in the byte range `[from, to)` of `text`,
/// by naive scan.
pub fn find_sub(text: &[u8], from: usize, to: usize, pat: &[u8]) -> (r: bool)
    requires
        from <= to <= text@.len(),
    ensures
        r == contains_seq(text@.subrange(from as int, to as int), pat@),
{
    let ghost hay = text@.subrange(from as int, to as int);
    let n = to - from;
    let m = pat.len();
    if m > n {
        proof {
            assert(forall|i: int| !contains_at(hay, pat@, i));
        }
        return false;
    }
    let mut i: usize = 0;
    while i <= n - m
        invariant
            from + n == to <= text@.len(),
            from + n <= usize::MAX,
            m == pat@.len(),
            m <= n,
            hay == text@.subrange(from as int, to as int),
            0 <= i <= n - m + 1,
            forall|k: int| 0 <= k < i ==> !contains_at(hay, pat@, k),
        decreases n - m + 1 - i,
    {
        let mut j: usize = 0;
        while j < m && *vstd::slice::slice_index_get(text, from + i + j)
            == *vstd::slice::slice_index_get(pat, j)
            invariant
                from + n == to <= text@.len(),
                from + n <= usize::MAX,
                m == pat@.len(),
                i + m <= n,
                hay == text@.subrange(from as int, to as int),
                0 <= j <= m,
                forall|k: int| 0 <= k < j ==> hay[i + k] == pat@[k],
            decreases m - j,
        {
            j += 1;
        }
        if j == m {
            proof {
                assert(pat@ =~= hay.subrange(i as int, i + pat@.len()));
                assert(contains_at(hay, pat@, i as int));
            }
            return true;
        }
        proof {
            assert(!contains_at(hay, pat@, i as int));
        }
        i += 1;
    }
    proof {
        assert(forall|k: int| contains_at(hay, pat@, k) ==> 0 <= k <= hay.len() - pat@.len());
    }
    false
}

/// First index in `[a, b)` holding a non-whitespace byte, or `b`.
fn scan_ws_forward(text: &[u8], a: usize, b: usize) -> (r: usize)
    requires
        a <= b <= text@.len(),
    ensures
        a <= r <= b,
        forall|k: int| a <= k < r ==> is_ws(#[trigger] text@[k]),
        r < b ==> !is_ws(text@[r as int]),
{
    let mut ts: usize = a;
    while ts < b
        invariant
            a <= ts <= b <= text@.len(),
            forall|k: int| a <= k < ts ==> is_ws(#[trigger] text@[k]),
        decreases b - ts,
    {
        let c = *vstd::slice::slice_index_get(text, ts);
        if !(c == 32 || (9 <= c && c <= 13)) {
            return ts;
        }
        ts += 1;
    }
    b
}

/// One past the last non-whitespace byte in `[a, b)`, or `a` if all blank.
fn scan_ws_backward(text: &[u8], a: usize, b: usize) -> (r: usize)
    requires
        a <= b <= text@.len(),
    ensures
        a <= r <= b,
        forall|k: int| r <= k < b ==> is_ws(#[trigger] text@[k]),
        r > a ==> !is_ws(text@[r - 1]),
{
    let mut te: usize = b;
    while te > a
        invariant
            a <= te <= b <= text@.len(),
            forall|k: int| te <= k < b ==> is_ws(#[trigger] text@[k]),
        decreases te,
    {
        let c = *vstd::slice::slice_index_get(text, te - 1);
        if !(c == 32 || (9 <= c && c <= 13)) {
            return te;
        }
        te -= 1;
    }
    a
}

/// Trim bounds of the byte range `[a, b)` of `text`: the subrange `[r.0, r.1)`
/// carries exactly `trim` of the range's content.
pub fn trim_in(text: &[u8], a: usize, b: usize) -> (r: (usize, usize))
    requires
        a <= b <= text@.len(),
    ensures
        a <= r.0 <= r.1 <= b,
        text@.subrange(r.0 as int, r.1 as int) == trim(text@.subrange(a as int, b as int)),
        (r.0 == r.1) == (trim(text@.subrange(a as int, b as int)).len() == 0),
        (r.0 == r.1) == is_blank(text@.subrange(a as int, b as int)),
{
    let ghost l = text@.subrange(a as int, b as int);
    let ts = scan_ws_forward(text, a, b);
    if ts == b {
        proof {
            lemma_trim_bounds(l, b - a, b - a);
            assert(text@.subrange(b as int, b as int) =~= l.subrange(b - a, b - a));
            assert(forall|k: int| 0 <= k < l.len() ==> is_ws(#[trigger] l[k]));
        }
        return (b, b);
    }
    let te = scan_ws_backward(text, ts, b);
    proof {
        assert(te > ts);
        assert(!is_ws(text@[te - 1]));
        assert(forall|k: int| 0 <= k < l.len() ==> l[k] == text@[a + k]);
        lemma_trim_bounds(l, ts - a, te - a);
        assert(text@.subrange(ts as int, te as int) =~= l.subrange(ts - a, te - a));
        assert(!is_ws(l[ts - a]));
    }
    (ts, te)
}

/// Whether the byte range `[a, b)` of `text` is blank.
pub fn blank_in(text: &[u8], a: usize, b: usize) -> (r: bool)
    requires
        a <= b <= text@.len(),
    ensures
        r == is_blank(text@.subrange(a as int, b as int)),
{
    let ghost l = text@.subrange(a as int, b as int);
    let mut i: usize = a;
    while i < b
        invariant
            a <= i <= b <= text@.len(),
            l == text@.subrange(a as int, b as int),
            forall|k: int| a <= k < i ==> is_ws(#[trigger] text@[k]),
        decreases b - i,
    {
        let c = *vstd::slice::slice_index_get(text, i);
        if !(c == 32 || (9 <= c && c <= 13)) {
            proof {
                assert(l[i - a] == text@[i as int]);
                assert(!is_blank(l));
            }
            return false;
        }
        i += 1;
    }
    proof {
        assert(forall|k: int| 0 <= k < l.len() ==> is_ws(#[trigger] l[k]));
    }
    true
}

/// Whether some byte of the range `[a, b)` of `text` equals `c`.
pub fn byte_in(text: &[u8], a: usize, b: usize, c: u8) -> (r: bool)
    requires
        a <= b <= text@.len(),
    ensures
        r == contains_byte(text@.subrange(a as int, b as int), c),
{
    let ghost l = text@.subrange(a as int, b as int);
    let mut i: usize = a;
    while i < b
        invariant
            a <= i <= b <= text@.len(),
            l == text@.subrange(a as int, b as int),
            forall|k: int| a <= k < i ==> text@[k] != c,
        decreases b - i,
    {
        if *vstd::slice::slice_index_get(text, i) == c {
            proof {
                assert(l[i - a] == c);
            }
            return true;
        }
        i += 1;
    }
    proof {
        assert(forall|k: int| 0 <= k < l.len() ==> l[k] == text@[a + k]);
    }
    false
}

/// Whether the byte range `[a, b)` of `text` starts with `pat`.
pub fn prefix_in(text: &[u8], a: usize, b: usize, pat: &[u8]) -> (r: bool)
    requires
        a <= b <= text@.len(),
    ensures
        r == has_prefix(text@.subrange(a as int, b as int), pat@),
{
    let ghost l = text@.subrange(a as int, b as int);
    if pat.len() > b - a {
        return false;
    }
    let mut i: usize = 0;
    while i < pat.len()
        invariant
            a <= b <= text@.len(),
            pat@.len() <= b - a,
            l == text@.subrange(a as int, b as int),
            0 <= i <= pat@.len(),
            forall|k: int| 0 <= k < i ==> text@[a + k] == pat@[k],
        decreases pat@.len() - i,
    {
        if *vstd::slice::slice_index_get(text, a + i) != *vstd::slice::slice_index_get(pat, i) {
            proof {
                assert(l[i as int] == text@[a + i]);
            }
            return false;
        }
        i += 1;
    }
    proof {
        assert(pat@ =~= l.subrange(0, pat@.len() as int));
    }
    true
}

} // verus!
