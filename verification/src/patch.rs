//! The mutation engine: applies one append/replace/delete operation to a
//! document snapshot under safety gating (fingerprint match, force flag,
//! idempotency short-circuit), and renders a line-level diff of the change.

use vstd::prelude::*;

use crate::error::{PatchError, PatchErrorModel};
use crate::text::{contains_seq, find_sub, subrange_vec};

verus! {

/// The three mutation kinds.
#[derive(Clone, Copy, Debug)]
pub enum Operation {
    Append,
    Replace,
    Delete,
}

/// One edit request: which file, which section, which block, what to do.
#[derive(Debug)]
pub struct PatchOperation {
    pub file: Vec<u8>,
    pub heading_path: Vec<Vec<u8>>,
    pub block_index: usize,
    pub operation: Operation,
    pub content: Option<Vec<u8>>,
    pub fingerprint: Option<Vec<u8>>,
}

/// The outcome of one operation: applied text plus diff, or a dry-run diff.
/// `is_noop` says the requested change was already present, so the diff is
/// empty and nothing should be written.
#[derive(Debug)]
pub enum PatchResult {
    Applied { new_content: Vec<u8>, diff: Vec<u8>, is_noop: bool },
    DryRun { diff: Vec<u8>, is_noop: bool },
}

impl From<crate::config::OperationType> for Operation {
    fn from(op: crate::config::OperationType) -> (r: Self) {
        match op {
            crate::config::OperationType::Append => Operation::Append,
            crate::config::OperationType::Replace => Operation::Replace,
            crate::config::OperationType::Delete => Operation::Delete,
        }
    }
}

impl vstd::std_specs::convert::FromSpecImpl<crate::config::OperationType> for Operation {
    open spec fn obeys_from_spec() -> bool {
        true
    }

    open spec fn from_spec(op: crate::config::OperationType) -> Operation {
        match op {
            crate::config::OperationType::Append => Operation::Append,
            crate::config::OperationType::Replace => Operation::Replace,
            crate::config::OperationType::Delete => Operation::Delete,
        }
    }
}

// ------------------------------------------------------------------
// The fingerprint check, through the regex crate
// ------------------------------------------------------------------

/// Whether a fingerprint pattern is valid: UTF-8 that compiles as a regular
/// expression within the default size limit.
pub uninterp spec fn regex_pattern_ok(pat: Seq<u8>) -> bool;

/// Whether a valid pattern matches anywhere in a haystack.
pub uninterp spec fn regex_match(pat: Seq<u8>, text: Seq<u8>) -> bool;

/// Relies on regex::bytes::Regex::new and Regex::is_match: `new` succeeds or
/// fails on the pattern string alone, and `is_match` is a deterministic
/// function of the compiled pattern and the haystack.
#[verifier::external_body]
fn regex_is_match(pattern: &[u8], haystack: &[u8]) -> (r: Option<bool>)
    ensures
        r is Some <==> regex_pattern_ok(pattern@),
        r matches Some(b) ==> b == regex_match(pattern@, haystack@),
{
    match core::str::from_utf8(pattern) {
        Ok(p) => regex::bytes::Regex::new(p).ok().map(|re| re.is_match(haystack)),
        Err(_) => None,
    }
}

// ------------------------------------------------------------------
// The three mutations
// ------------------------------------------------------------------

/// The appended document: the inserted content framed by one newline on
/// each side, spliced in right after `end`.
pub open spec fn append_insert(t: Seq<u8>, end: int, c: Seq<u8>) -> Seq<u8> {
    t.subrange(0, end) + seq![10u8] + c + seq![10u8] + t.subrange(end, t.len() as int)
}

/// Append is a no-op exactly when the content already occurs anywhere from
/// the block's start onward.
pub open spec fn append_is_noop(t: Seq<u8>, start: int, c: Seq<u8>) -> bool {
    contains_seq(t.subrange(start, t.len() as int), c)
}

/// The replaced document: the content spliced over `[start, end)`.
pub open spec fn replace_spec(t: Seq<u8>, start: int, end: int, c: Seq<u8>) -> Seq<u8> {
    t.subrange(0, start) + c + t.subrange(end, t.len() as int)
}

/// `s` from `i` on with every run of three or more newlines shrunk to two;
/// `run` counts the newlines just emitted, saturating at two.
pub open spec fn collapse_from(s: Seq<u8>, i: int, run: int) -> Seq<u8>
    decreases s.len() - i
    when 0 <= i
{
    if i >= s.len() {
        Seq::empty()
    } else if s[i] == 10 && run >= 2 {
        collapse_from(s, i + 1, run)
    } else if s[i] == 10 {
        seq![10u8] + collapse_from(s, i + 1, run + 1)
    } else {
        seq![s[i]] + collapse_from(s, i + 1, 0)
    }
}

/// The whole sequence, newline runs collapsed.
pub open spec fn collapse_nl(s: Seq<u8>) -> Seq<u8> {
    collapse_from(s, 0, 0)
}

/// The deleted document: the byte range removed, then newline runs of three
/// or more collapsed to exactly two.
pub open spec fn delete_spec(t: Seq<u8>, start: int, end: int) -> Seq<u8> {
    collapse_nl(t.subrange(0, start) + t.subrange(end, t.len() as int))
}

/// No three consecutive newlines anywhere.
pub open spec fn no_triple_newline(r: Seq<u8>) -> bool {
    forall|j: int|
        0 <= j && j + 2 < r.len() ==> !(#[trigger] r[j] == 10 && r[j + 1] == 10 && r[j + 2] == 10)
}

/// A run of at most two newlines.
pub open spec fn nl_run(run: int) -> Seq<u8> {
    if run == 1 {
        seq![10u8]
    } else if run == 2 {
        seq![10u8, 10u8]
    } else {
        Seq::empty()
    }
}

/// What `collapse_from` emits never closes a run of three newlines, however
/// it is entered.
pub proof fn lemma_collapse_no_triple(s: Seq<u8>, i: int, run: int)
    requires
        0 <= i <= s.len(),
        0 <= run <= 2,
    ensures
        no_triple_newline(nl_run(run) + collapse_from(s, i, run)),
    decreases s.len() - i,
{
    let whole = nl_run(run) + collapse_from(s, i, run);
    if i >= s.len() {
        assert(whole.len() <= 2);
    } else if s[i] == 10 && run >= 2 {
        lemma_collapse_no_triple(s, i + 1, run);
        assert(whole =~= nl_run(run) + collapse_from(s, i + 1, run));
    } else if s[i] == 10 {
        lemma_collapse_no_triple(s, i + 1, run + 1);
        assert(whole =~= nl_run(run + 1) + collapse_from(s, i + 1, run + 1));
    } else {
        lemma_collapse_no_triple(s, i + 1, 0);
        let tail = collapse_from(s, i + 1, 0);
        assert(whole =~= nl_run(run) + seq![s[i]] + tail);
        assert forall|j: int|
            0 <= j && j + 2 < whole.len() implies !(#[trigger] whole[j] == 10 && whole[j + 1] == 10
            && whole[j + 2] == 10) by {
            let p = nl_run(run).len() as int;
            if j + 2 < p {
            } else if j <= p {
                assert(whole[p] == s[i]);
                assert(s[i] != 10);
            } else {
                assert(whole[j] == tail[j - p - 1]);
                assert(whole[j + 1] == tail[j - p]);
                assert(whole[j + 2] == tail[j - p + 1]);
                assert(no_triple_newline(nl_run(0) + tail));
                assert(nl_run(0) + tail =~= tail);
            }
        }
    }
}

/// The collapsed form of any sequence has no three consecutive newlines.
pub proof fn lemma_collapse_nl_no_triple(s: Seq<u8>)
    ensures
        no_triple_newline(collapse_nl(s)),
{
    lemma_collapse_no_triple(s, 0, 0);
    assert(nl_run(0) + collapse_from(s, 0, 0) =~= collapse_nl(s));
}

/// Append `content` after the block, framed by newlines; when the content
/// already occurs at or after the block's start, hand the document back
/// unchanged — append is safely re-runnable.
pub fn apply_append(content: &[u8], block: &crate::parser::Block, new_content: &Option<Vec<u8>>)
    -> (r: Result<Vec<u8>, PatchError>)
    requires
        block@.start <= block@.end <= content@.len(),
    ensures
        ({
            match (r, new_content) {
                (Result::Ok(out), Option::Some(c)) => out@ == (if append_is_noop(
                    content@,
                    block@.start,
                    c@,
                ) {
                    content@
                } else {
                    append_insert(content@, block@.end, c@)
                }),
                (Result::Err(e), Option::None) => e@ == PatchErrorModel::MissingContent,
                (Result::Err(_), Option::Some(_)) => false,
                (Result::Ok(_), Option::None) => false,
            }
        }),
{
    let c = match new_content {
        Option::Some(c) => c,
        Option::None => {
            return Result::Err(PatchError::MissingContent);
        },
    };
    if find_sub(content, block.start, content.len(), c.as_slice()) {
        let out = subrange_vec(content, 0, content.len());
        proof {
            assert(content@.subrange(0, content@.len() as int) =~= content@);
        }
        return Result::Ok(out);
    }
    let mut out = subrange_vec(content, 0, block.end);
    out.push(10);
    out.extend_from_slice(c.as_slice());
    out.push(10);
    let tail = vstd::slice::slice_subrange(content, block.end, content.len());
    out.extend_from_slice(tail);
    proof {
        assert(out@ =~= append_insert(content@, block@.end, c@));
    }
    Result::Ok(out)
}

/// Replace the block's byte range with `content`, verbatim: everything
/// before the block's start and after its end is byte-identical to the
/// original, and the spliced range carries exactly the new content.
pub fn apply_replace(content: &[u8], block: &crate::parser::Block, new_content: &Option<Vec<u8>>)
    -> (r: Result<Vec<u8>, PatchError>)
    requires
        block@.start <= block@.end <= content@.len(),
    ensures
        ({
            match (r, new_content) {
                (Result::Ok(out), Option::Some(c)) => {
                    &&& out@ == replace_spec(content@, block@.start, block@.end, c@)
                    &&& out@.len() == content@.len() - (block@.end - block@.start) + c@.len()
                    &&& out@.subrange(0, block@.start) == content@.subrange(0, block@.start)
                    &&& out@.subrange(block@.start, block@.start + c@.len()) == c@
                    &&& out@.subrange(block@.start + c@.len(), out@.len() as int)
                        == content@.subrange(block@.end, content@.len() as int)
                },
                (Result::Err(e), Option::None) => e@ == PatchErrorModel::MissingContent,
                (Result::Err(_), Option::Some(_)) => false,
                (Result::Ok(_), Option::None) => false,
            }
        }),
{
    let c = match new_content {
        Option::Some(c) => c,
        Option::None => {
            return Result::Err(PatchError::MissingContent);
        },
    };
    let mut out = subrange_vec(content, 0, block.start);
    out.extend_from_slice(c.as_slice());
    let tail = vstd::slice::slice_subrange(content, block.end, content.len());
    out.extend_from_slice(tail);
    proof {
        assert(out@ =~= replace_spec(content@, block@.start, block@.end, c@));
        assert(out@.subrange(0, block@.start) =~= content@.subrange(0, block@.start));
        assert(out@.subrange(block@.start, block@.start + c@.len()) =~= c@);
        assert(out@.subrange(block@.start + c@.len(), out@.len() as int) =~= content@.subrange(
            block@.end,
            content@.len() as int,
        ));
    }
    Result::Ok(out)
}

/// Delete the block's byte range, then collapse any run of three or more
/// newlines left behind down to exactly two; the result never holds three
/// consecutive newlines.
pub fn apply_delete(content: &[u8], block: &crate::parser::Block) -> (r: Result<
    Vec<u8>,
    PatchError,
>)
    requires
        block@.start <= block@.end <= content@.len(),
    ensures
        ({
            match r {
                Result::Ok(out) => out@ == delete_spec(content@, block@.start, block@.end)
                    && no_triple_newline(out@),
                Result::Err(_) => false,
            }
        }),
{
    let mut joined = subrange_vec(content, 0, block.start);
    let tail = vstd::slice::slice_subrange(content, block.end, content.len());
    joined.extend_from_slice(tail);
    let ghost js = joined@;
    let n = joined.len();
    let mut out: Vec<u8> = Vec::new();
    let mut run: u8 = 0;
    let mut i: usize = 0;
    proof {
        assert(collapse_nl(js) =~= Seq::<u8>::empty() + collapse_from(js, 0, 0));
    }
    while i < n
        invariant
            n == js.len(),
            joined@ == js,
            0 <= i <= n,
            0 <= run <= 2,
            collapse_nl(js) == out@ + collapse_from(js, i as int, run as int),
        decreases n - i,
    {
        let b = joined[i];
        if b == 10 {
            if run < 2 {
                out.push(10);
                proof {
                    assert(collapse_from(js, i as int, run as int) =~= seq![10u8] + collapse_from(
                        js,
                        i as int + 1,
                        run as int + 1,
                    ));
                    assert(out@ + collapse_from(js, i as int + 1, run as int + 1)
                        =~= collapse_nl(js));
                }
                run = run + 1;
            } else {
                proof {
                    assert(collapse_from(js, i as int, run as int) == collapse_from(
                        js,
                        i as int + 1,
                        run as int,
                    ));
                }
            }
        } else {
            out.push(b);
            proof {
                assert(collapse_from(js, i as int, run as int) =~= seq![js[i as int]]
                    + collapse_from(js, i as int + 1, 0));
                assert(out@ + collapse_from(js, i as int + 1, 0) =~= collapse_nl(js));
            }
            run = 0;
        }
        i += 1;
    }
    proof {
        assert(collapse_from(js, n as int, run as int) =~= Seq::<u8>::empty());
        assert(collapse_nl(js) =~= out@);
        assert(js =~= content@.subrange(0, block@.start) + content@.subrange(
            block@.end,
            content@.len() as int,
        ));
        lemma_collapse_nl_no_triple(js);
    }
    Result::Ok(out)
}

// ------------------------------------------------------------------
// Longest common subsequence of two line sequences
// ------------------------------------------------------------------

/// Views of a line list.
pub open spec fn lines_view(v: Seq<Vec<u8>>) -> Seq<Seq<u8>> {
    v.map_values(|x: Vec<u8>| x@)
}

/// Length of the longest common subsequence of `a`'s first `i` lines and
/// `b`'s first `j` lines.
pub open spec fn lcs_len(a: Seq<Seq<u8>>, b: Seq<Seq<u8>>, i: int, j: int) -> int
    decreases i + j
    when 0 <= i && 0 <= j
{
    if i <= 0 || j <= 0 {
        0
    } else if a[i - 1] == b[j - 1] {
        lcs_len(a, b, i - 1, j - 1) + 1
    } else if lcs_len(a, b, i - 1, j) >= lcs_len(a, b, i, j - 1) {
        lcs_len(a, b, i - 1, j)
    } else {
        lcs_len(a, b, i, j - 1)
    }
}

/// The concrete subsequence the backtrack recovers: the diagonal is taken
/// whenever the last lines agree, else the side with the longer table entry,
/// ties toward `b`.
pub open spec fn lcs_pick(a: Seq<Seq<u8>>, b: Seq<Seq<u8>>, i: int, j: int) -> Seq<Seq<u8>>
    decreases i + j
    when 0 <= i && 0 <= j
{
    if i <= 0 || j <= 0 {
        Seq::empty()
    } else if a[i - 1] == b[j - 1] {
        lcs_pick(a, b, i - 1, j - 1).push(a[i - 1])
    } else if lcs_len(a, b, i - 1, j) > lcs_len(a, b, i, j - 1) {
        lcs_pick(a, b, i - 1, j)
    } else {
        lcs_pick(a, b, i, j - 1)
    }
}

/// The longest common subsequence of two whole line sequences.
pub open spec fn lcs_spec(a: Seq<Seq<u8>>, b: Seq<Seq<u8>>) -> Seq<Seq<u8>> {
    lcs_pick(a, b, a.len() as int, b.len() as int)
}

pub proof fn lemma_lcs_len_bounds(a: Seq<Seq<u8>>, b: Seq<Seq<u8>>, i: int, j: int)
    requires
        0 <= i,
        0 <= j,
    ensures
        0 <= lcs_len(a, b, i, j),
        lcs_len(a, b, i, j) <= i,
        lcs_len(a, b, i, j) <= j,
    decreases i + j,
{
    if i > 0 && j > 0 {
        lemma_lcs_len_bounds(a, b, i - 1, j - 1);
        lemma_lcs_len_bounds(a, b, i - 1, j);
        lemma_lcs_len_bounds(a, b, i, j - 1);
    }
}

/// The backtracked subsequence has exactly the table's length.
pub proof fn lemma_lcs_pick_len(a: Seq<Seq<u8>>, b: Seq<Seq<u8>>, i: int, j: int)
    requires
        0 <= i,
        0 <= j,
    ensures
        lcs_pick(a, b, i, j).len() == lcs_len(a, b, i, j),
    decreases i + j,
{
    if i > 0 && j > 0 {
        lemma_lcs_pick_len(a, b, i - 1, j - 1);
        lemma_lcs_pick_len(a, b, i - 1, j);
        lemma_lcs_pick_len(a, b, i, j - 1);
    }
}

/// A vector of `len` zeros.
fn zeros_row(len: usize) -> (r: Vec<usize>)
    ensures
        r@.len() == len,
        forall|k: int| 0 <= k < len ==> r@[k] == 0,
{
    let mut r: Vec<usize> = Vec::new();
    let mut k: usize = 0;
    while k < len
        invariant
            r@.len() == k <= len,
            forall|t: int| 0 <= t < k ==> r@[t] == 0,
        decreases len - k,
    {
        r.push(0);
        k += 1;
    }
    r
}

/// Compute the longest common subsequence of two line sequences by the
/// standard dynamic-programming table and backtrack.
pub fn compute_lcs(a: &Vec<Vec<u8>>, b: &Vec<Vec<u8>>) -> (r: Vec<Vec<u8>>)
    requires
        a@.len() < usize::MAX,
        b@.len() < usize::MAX,
    ensures
        lines_view(r@) == lcs_spec(lines_view(a@), lines_view(b@)),
{
    let ghost av = lines_view(a@);
    let ghost bv = lines_view(b@);
    let m = a.len();
    let n = b.len();
    if m == 0 || n == 0 {
        let r: Vec<Vec<u8>> = Vec::new();
        proof {
            assert(lines_view(r@) =~= lcs_spec(av, bv));
        }
        return r;
    }
    // fill the (m + 1) x (n + 1) table of prefix lcs lengths
    let mut dp: Vec<Vec<usize>> = Vec::new();
    dp.push(zeros_row(n + 1));
    proof {
        assert(forall|jj: int| 0 <= jj <= n ==> lcs_len(av, bv, 0, jj) == 0);
    }
    let mut i: usize = 1;
    while i <= m
        invariant
            m == a@.len() && n == b@.len(),
            m < usize::MAX && n < usize::MAX,
            m >= 1 && n >= 1,
            av == lines_view(a@) && bv == lines_view(b@),
            1 <= i <= m + 1,
            dp@.len() == i,
            forall|ii: int|
                0 <= ii < i ==> (#[trigger] dp@[ii])@.len() == n + 1,
            forall|ii: int, jj: int|
                0 <= ii < i && 0 <= jj <= n ==> (#[trigger] dp@[ii]@[jj]) as int == lcs_len(
                    av,
                    bv,
                    ii,
                    jj,
                ),
        decreases m + 1 - i,
    {
        let mut row: Vec<usize> = Vec::new();
        row.push(0);
        let mut j: usize = 1;
        while j <= n
            invariant
                m == a@.len() && n == b@.len(),
                m < usize::MAX && n < usize::MAX,
                av == lines_view(a@) && bv == lines_view(b@),
                1 <= i <= m,
                1 <= j <= n + 1,
                dp@.len() == i,
                forall|ii: int|
                    0 <= ii < i ==> (#[trigger] dp@[ii])@.len() == n + 1,
                forall|ii: int, jj: int|
                    0 <= ii < i && 0 <= jj <= n ==> (#[trigger] dp@[ii]@[jj]) as int == lcs_len(
                        av,
                        bv,
                        ii,
                        jj,
                    ),
                row@.len() == j,
                forall|jj: int| 0 <= jj < j ==> (#[trigger] row@[jj]) as int == lcs_len(av, bv, i as int, jj),
            decreases n + 1 - j,
        {
            proof {
                lemma_lcs_len_bounds(av, bv, i as int, j as int);
                lemma_lcs_len_bounds(av, bv, i - 1, j - 1);
                assert(av[i - 1] == a@[i - 1]@ && bv[j - 1] == b@[j - 1]@);
            }
            let eq = crate::text::bytes_eq(a[i - 1].as_slice(), b[j - 1].as_slice());
            let v: usize;
            if eq {
                v = dp[i - 1][j - 1] + 1;
            } else {
                let up = dp[i - 1][j];
                let left = row[j - 1];
                v = if up >= left {
                    up
                } else {
                    left
                };
            }
            proof {
                assert(v as int == lcs_len(av, bv, i as int, j as int));
            }
            row.push(v);
            j += 1;
        }
        dp.push(row);
        i += 1;
    }
    // backtrack
    let mut acc: Vec<Vec<u8>> = Vec::new();
    let mut bi: usize = m;
    let mut bj: usize = n;
    proof {
        assert(lcs_spec(av, bv) =~= lcs_pick(av, bv, m as int, n as int) + lines_view(
            acc@,
        ).reverse());
    }
    while bi > 0 && bj > 0
        invariant
            m == a@.len() && n == b@.len(),
            av == lines_view(a@) && bv == lines_view(b@),
            0 <= bi <= m && 0 <= bj <= n,
            dp@.len() == m + 1,
            forall|ii: int|
                0 <= ii <= m ==> (#[trigger] dp@[ii])@.len() == n + 1,
            forall|ii: int, jj: int|
                0 <= ii <= m && 0 <= jj <= n ==> (#[trigger] dp@[ii]@[jj]) as int == lcs_len(
                    av,
                    bv,
                    ii,
                    jj,
                ),
            lcs_spec(av, bv) == lcs_pick(av, bv, bi as int, bj as int) + lines_view(
                acc@,
            ).reverse(),
        decreases bi + bj,
    {
        proof {
            assert(av[bi - 1] == a@[bi - 1]@ && bv[bj - 1] == b@[bj - 1]@);
        }
        let eq = crate::text::bytes_eq(a[bi - 1].as_slice(), b[bj - 1].as_slice());
        if eq {
            let line = vstd::slice::slice_to_vec(a[bi - 1].as_slice());
            let ghost accv = lines_view(acc@);
            acc.push(line);
            proof {
                assert(lines_view(acc@) =~= accv.push(av[bi - 1]));
                assert(lines_view(acc@).reverse() =~= seq![av[bi - 1]] + accv.reverse());
                assert(lcs_pick(av, bv, bi as int, bj as int) == lcs_pick(
                    av,
                    bv,
                    bi - 1,
                    bj - 1,
                ).push(av[bi - 1]));
                assert(lcs_pick(av, bv, bi - 1, bj - 1).push(av[bi - 1]) + accv.reverse()
                    =~= lcs_pick(av, bv, bi - 1, bj - 1) + lines_view(acc@).reverse());
            }
            bi -= 1;
            bj -= 1;
        } else {
            let up = dp[bi - 1][bj];
            let left = dp[bi][bj - 1];
            if up > left {
                bi -= 1;
            } else {
                bj -= 1;
            }
        }
    }
    proof {
        assert(lcs_pick(av, bv, bi as int, bj as int) =~= Seq::<Seq<u8>>::empty());
        assert(lcs_spec(av, bv) =~= lines_view(acc@).reverse());
    }
    // reverse the accumulator
    let mut r: Vec<Vec<u8>> = Vec::new();
    let mut k: usize = acc.len();
    while k > 0
        invariant
            k <= acc@.len(),
            r@.len() == acc@.len() - k,
            forall|t: int|
                0 <= t < r@.len() ==> (#[trigger] r@[t])@ == acc@[acc@.len() - 1 - t]@,
        decreases k,
    {
        k -= 1;
        let line = vstd::slice::slice_to_vec(acc[k].as_slice());
        r.push(line);
    }
    proof {
        assert(lines_view(r@) =~= lines_view(acc@).reverse());
    }
    r
}

// ------------------------------------------------------------------
// The diff generator
// ------------------------------------------------------------------

/// The lines of a document, as sequences.
pub open spec fn doc_lines(s: Seq<u8>) -> Seq<Seq<u8>> {
    Seq::new(crate::text::n_lines(s) as nat, |k: int| crate::text::line_at(s, k))
}

/// Walk both line sequences against the common subsequence `l`, emitting one
/// record per line: a context, deleted or added prefix byte and the line.
pub open spec fn diff_walk(
    a: Seq<Seq<u8>>,
    b: Seq<Seq<u8>>,
    l: Seq<Seq<u8>>,
    i: int,
    j: int,
    k: int,
) -> Seq<(u8, Seq<u8>)>
    decreases a.len() - i + b.len() - j
    when 0 <= i <= a.len() && 0 <= j <= b.len() && 0 <= k
{
    if i >= a.len() && j >= b.len() {
        Seq::empty()
    } else if k < l.len() && i < a.len() && j < b.len() && a[i] == b[j] && a[i] == l[k] {
        seq![(32u8, a[i])] + diff_walk(a, b, l, i + 1, j + 1, k + 1)
    } else if i < a.len() && (k >= l.len() || a[i] != l[k]) {
        seq![(45u8, a[i])] + diff_walk(a, b, l, i + 1, j, k)
    } else if j < b.len() {
        seq![(43u8, b[j])] + diff_walk(a, b, l, i, j + 1, k)
    } else {
        seq![(45u8, a[i])] + diff_walk(a, b, l, i + 1, j, k)
    }
}

/// The records of the diff of two documents, walked against the backtracked
/// longest common subsequence of their lines.
pub open spec fn diff_records(sa: Seq<u8>, sb: Seq<u8>) -> Seq<(u8, Seq<u8>)> {
    let la = doc_lines(sa);
    let lb = doc_lines(sb);
    diff_walk(la, lb, lcs_spec(la, lb), 0, 0, 0)
}

/// Each record rendered as its prefix byte, the line, and a newline.
pub open spec fn render_records(d: Seq<(u8, Seq<u8>)>) -> Seq<u8>
    decreases d.len(),
{
    if d.len() == 0 {
        Seq::empty()
    } else {
        seq![d[0].0] + d[0].1 + seq![10u8] + render_records(d.drop_first())
    }
}

/// The `--- a/<file>` and `+++ b/<file>` header lines.
pub open spec fn diff_header(f: Seq<u8>) -> Seq<u8> {
    seq![45u8, 45u8, 45u8, 32u8, 97u8, 47u8] + f + seq![10u8, 43u8, 43u8, 43u8, 32u8, 98u8, 47u8]
        + f + seq![10u8]
}

/// The whole rendered diff of two documents.
pub open spec fn diff_spec(sa: Seq<u8>, sb: Seq<u8>, file: Seq<u8>) -> Seq<u8> {
    diff_header(file) + render_records(diff_records(sa, sb))
}

/// The lines a diff keeps for one side: context lines plus the side's own
/// prefix (`43` for additions, `45` for deletions).
pub open spec fn kept_lines(d: Seq<(u8, Seq<u8>)>, keep: u8) -> Seq<Seq<u8>>
    decreases d.len(),
{
    if d.len() == 0 {
        Seq::empty()
    } else if d[0].0 == 32 || d[0].0 == keep {
        seq![d[0].1] + kept_lines(d.drop_first(), keep)
    } else {
        kept_lines(d.drop_first(), keep)
    }
}

/// Whatever common subsequence the walk is given, the context and added
/// lines spell out the modified side, and the context and deleted lines the
/// original side.
pub proof fn lemma_diff_walk_sides(
    a: Seq<Seq<u8>>,
    b: Seq<Seq<u8>>,
    l: Seq<Seq<u8>>,
    i: int,
    j: int,
    k: int,
)
    requires
        0 <= i <= a.len(),
        0 <= j <= b.len(),
        0 <= k,
    ensures
        kept_lines(diff_walk(a, b, l, i, j, k), 43) == b.skip(j),
        kept_lines(diff_walk(a, b, l, i, j, k), 45) == a.skip(i),
    decreases a.len() - i + b.len() - j,
{
    let w = diff_walk(a, b, l, i, j, k);
    if i >= a.len() && j >= b.len() {
        assert(b.skip(j) =~= Seq::<Seq<u8>>::empty());
        assert(a.skip(i) =~= Seq::<Seq<u8>>::empty());
    } else if k < l.len() && i < a.len() && j < b.len() && a[i] == b[j] && a[i] == l[k] {
        lemma_diff_walk_sides(a, b, l, i + 1, j + 1, k + 1);
        let rest = diff_walk(a, b, l, i + 1, j + 1, k + 1);
        assert(w.drop_first() =~= rest);
        assert(b.skip(j) =~= seq![b[j]] + b.skip(j + 1));
        assert(a.skip(i) =~= seq![a[i]] + a.skip(i + 1));
        assert(kept_lines(w, 43) =~= b.skip(j));
        assert(kept_lines(w, 45) =~= a.skip(i));
    } else if i < a.len() && (k >= l.len() || a[i] != l[k]) {
        lemma_diff_walk_sides(a, b, l, i + 1, j, k);
        let rest = diff_walk(a, b, l, i + 1, j, k);
        assert(w.drop_first() =~= rest);
        assert(a.skip(i) =~= seq![a[i]] + a.skip(i + 1));
        assert(kept_lines(w, 43) =~= b.skip(j));
        assert(kept_lines(w, 45) =~= a.skip(i));
    } else if j < b.len() {
        lemma_diff_walk_sides(a, b, l, i, j + 1, k);
        let rest = diff_walk(a, b, l, i, j + 1, k);
        assert(w.drop_first() =~= rest);
        assert(b.skip(j) =~= seq![b[j]] + b.skip(j + 1));
        assert(kept_lines(w, 43) =~= b.skip(j));
        assert(kept_lines(w, 45) =~= a.skip(i));
    } else {
        lemma_diff_walk_sides(a, b, l, i + 1, j, k);
        let rest = diff_walk(a, b, l, i + 1, j, k);
        assert(w.drop_first() =~= rest);
        assert(a.skip(i) =~= seq![a[i]] + a.skip(i + 1));
        assert(kept_lines(w, 43) =~= b.skip(j));
        assert(kept_lines(w, 45) =~= a.skip(i));
    }
}

/// Applying a diff's additions and deletions to the original reconstructs
/// the modified document, line for line: the context and added lines are
/// exactly the modified side's lines, and the context and deleted lines
/// exactly the original side's.
pub proof fn lemma_diff_round_trip(sa: Seq<u8>, sb: Seq<u8>)
    ensures
        kept_lines(diff_records(sa, sb), 43) == doc_lines(sb),
        kept_lines(diff_records(sa, sb), 45) == doc_lines(sa),
{
    let la = doc_lines(sa);
    let lb = doc_lines(sb);
    lemma_diff_walk_sides(la, lb, lcs_spec(la, lb), 0, 0, 0);
    assert(lb.skip(0) =~= lb);
    assert(la.skip(0) =~= la);
}

/// Backtracking the table of a sequence against itself yields the whole
/// sequence.
pub proof fn lemma_lcs_pick_diag(a: Seq<Seq<u8>>, i: int)
    requires
        0 <= i <= a.len(),
    ensures
        lcs_pick(a, a, i, i) == a.take(i),
    decreases i,
{
    if i > 0 {
        lemma_lcs_pick_diag(a, i - 1);
        assert(lcs_pick(a, a, i, i) =~= a.take(i));
    } else {
        assert(lcs_pick(a, a, 0, 0) =~= a.take(0));
    }
}

/// Walking a document against itself emits context records only.
pub proof fn lemma_diff_walk_all_context(a: Seq<Seq<u8>>, i: int)
    requires
        0 <= i <= a.len(),
    ensures
        forall|t: int|
            0 <= t < diff_walk(a, a, a, i, i, i).len() ==> (#[trigger] diff_walk(
                a,
                a,
                a,
                i,
                i,
                i,
            )[t]).0 == 32,
    decreases a.len() - i,
{
    if i < a.len() {
        lemma_diff_walk_all_context(a, i + 1);
        let w = diff_walk(a, a, a, i, i, i);
        let rest = diff_walk(a, a, a, i + 1, i + 1, i + 1);
        assert(w =~= seq![(32u8, a[i])] + rest);
    }
}

/// For equal documents the diff body holds no added or deleted line.
pub proof fn lemma_diff_equal_no_changes(s: Seq<u8>)
    ensures
        forall|t: int|
            0 <= t < diff_records(s, s).len() ==> (#[trigger] diff_records(s, s)[t]).0 == 32,
{
    let la = doc_lines(s);
    lemma_lcs_pick_diag(la, la.len() as int);
    assert(la.take(la.len() as int) =~= la);
    lemma_diff_walk_all_context(la, 0);
}

/// The lines of a document, copied out.
pub fn lines_vec(text: &[u8]) -> (r: Vec<Vec<u8>>)
    ensures
        lines_view(r@) == doc_lines(text@),
        r@.len() <= text@.len(),
{
    let spans = crate::text::split_lines(text);
    proof {
        crate::parser::lemma_spans_facts(text@, spans@);
    }
    let n = spans.len();
    let mut r: Vec<Vec<u8>> = Vec::new();
    let mut i: usize = 0;
    while i < n
        invariant
            crate::text::spans_ok(text@, spans@),
            n == spans@.len(),
            0 <= i <= n,
            r@.len() == i,
            forall|k: int| 0 <= k < i ==> (#[trigger] r@[k])@ == crate::text::line_at(text@, k),
        decreases n - i,
    {
        proof {
            crate::parser::lemma_spans_facts(text@, spans@);
        }
        let p = spans[i];
        r.push(subrange_vec(text, p.0, p.1));
        i += 1;
    }
    proof {
        assert(lines_view(r@) =~= doc_lines(text@));
    }
    r
}

/// Render the unified-diff-style text of the change from `original` to
/// `modified`: the two header lines, then one prefixed line per record of
/// the walk over the longest common subsequence of the line sequences.
pub fn generate_diff(original: &[u8], modified: &[u8], filename: &[u8]) -> (r: Vec<u8>)
    requires
        original@.len() < usize::MAX,
        modified@.len() < usize::MAX,
    ensures
        r@ == diff_spec(original@, modified@, filename@),
{
    let a = lines_vec(original);
    let b = lines_vec(modified);
    let ghost av = lines_view(a@);
    let ghost bv = lines_view(b@);
    let l = compute_lcs(&a, &b);
    let ghost lv = lines_view(l@);
    let m = a.len();
    let n = b.len();
    let ll = l.len();
    let mut out: Vec<u8> = Vec::new();
    // header
    out.push(45);
    out.push(45);
    out.push(45);
    out.push(32);
    out.push(97);
    out.push(47);
    out.extend_from_slice(filename);
    out.push(10);
    out.push(43);
    out.push(43);
    out.push(43);
    out.push(32);
    out.push(98);
    out.push(47);
    out.extend_from_slice(filename);
    out.push(10);
    proof {
        assert(out@ =~= diff_header(filename@));
        assert(diff_spec(original@, modified@, filename@) =~= out@ + render_records(
            diff_walk(av, bv, lv, 0, 0, 0),
        ));
    }
    let mut i: usize = 0;
    let mut j: usize = 0;
    let mut k: usize = 0;
    while i < m || j < n
        invariant
            m == a@.len() && n == b@.len() && ll == l@.len(),
            av == lines_view(a@) && bv == lines_view(b@) && lv == lines_view(l@),
            0 <= i <= m && 0 <= j <= n && 0 <= k,
            diff_spec(original@, modified@, filename@) == out@ + render_records(
                diff_walk(av, bv, lv, i as int, j as int, k as int),
            ),
        decreases m - i + n - j,
    {
        let ghost w = diff_walk(av, bv, lv, i as int, j as int, k as int);
        let mut ctx = false;
        if k < ll && i < m && j < n {
            let e1 = crate::text::bytes_eq(a[i].as_slice(), b[j].as_slice());
            if e1 {
                ctx = crate::text::bytes_eq(a[i].as_slice(), l[k].as_slice());
            }
        }
        proof {
            if i < m {
                assert(av[i as int] == a@[i as int]@);
            }
            if j < n {
                assert(bv[j as int] == b@[j as int]@);
            }
            if k < ll {
                assert(lv[k as int] == l@[k as int]@);
            }
        }
        if ctx {
            let ghost prev = out@;
            out.push(32);
            out.extend_from_slice(a[i].as_slice());
            out.push(10);
            proof {
                let rest = diff_walk(av, bv, lv, i as int + 1, j as int + 1, k as int + 1);
                assert(w =~= seq![(32u8, av[i as int])] + rest);
                assert(w.drop_first() =~= rest);
                assert(render_records(w) =~= seq![32u8] + av[i as int] + seq![10u8]
                    + render_records(rest));
                assert(out@ =~= prev + seq![32u8] + av[i as int] + seq![10u8]);
                assert(prev + render_records(w) =~= out@ + render_records(rest));
            }
            i += 1;
            j += 1;
            k += 1;
            continue ;
        }
        let mut del = false;
        if i < m {
            if k >= ll {
                del = true;
            } else {
                del = !crate::text::bytes_eq(a[i].as_slice(), l[k].as_slice());
            }
        }
        if del {
            let ghost prev = out@;
            out.push(45);
            out.extend_from_slice(a[i].as_slice());
            out.push(10);
            proof {
                let rest = diff_walk(av, bv, lv, i as int + 1, j as int, k as int);
                assert(w =~= seq![(45u8, av[i as int])] + rest);
                assert(w.drop_first() =~= rest);
                assert(render_records(w) =~= seq![45u8] + av[i as int] + seq![10u8]
                    + render_records(rest));
                assert(out@ =~= prev + seq![45u8] + av[i as int] + seq![10u8]);
                assert(prev + render_records(w) =~= out@ + render_records(rest));
            }
            i += 1;
            continue ;
        }
        if j < n {
            let ghost prev = out@;
            out.push(43);
            out.extend_from_slice(b[j].as_slice());
            out.push(10);
            proof {
                let rest = diff_walk(av, bv, lv, i as int, j as int + 1, k as int);
                assert(w =~= seq![(43u8, bv[j as int])] + rest);
                assert(w.drop_first() =~= rest);
                assert(render_records(w) =~= seq![43u8] + bv[j as int] + seq![10u8]
                    + render_records(rest));
                assert(out@ =~= prev + seq![43u8] + bv[j as int] + seq![10u8]);
                assert(prev + render_records(w) =~= out@ + render_records(rest));
            }
            j += 1;
            continue ;
        }
        let ghost prev = out@;
        out.push(45);
        out.extend_from_slice(a[i].as_slice());
        out.push(10);
        proof {
            let rest = diff_walk(av, bv, lv, i as int + 1, j as int, k as int);
            assert(w =~= seq![(45u8, av[i as int])] + rest);
            assert(w.drop_first() =~= rest);
            assert(render_records(w) =~= seq![45u8] + av[i as int] + seq![10u8] + render_records(
                rest,
            ));
            assert(out@ =~= prev + seq![45u8] + av[i as int] + seq![10u8]);
            assert(prev + render_records(w) =~= out@ + render_records(rest));
        }
        i += 1;
    }
    proof {
        assert(diff_walk(av, bv, lv, i as int, j as int, k as int) =~= Seq::<(u8, Seq<u8>)>::empty());
        assert(render_records(Seq::<(u8, Seq<u8>)>::empty()) =~= Seq::<u8>::empty());
        assert(diff_spec(original@, modified@, filename@) =~= out@);
    }
    out
}

// ------------------------------------------------------------------
// The operation driver
// ------------------------------------------------------------------

/// The collapsed form is never longer than what remains of the input.
pub proof fn lemma_collapse_len(s: Seq<u8>, i: int, run: int)
    requires
        0 <= i <= s.len(),
    ensures
        collapse_from(s, i, run).len() <= s.len() - i,
    decreases s.len() - i,
{
    if i < s.len() {
        if s[i] == 10 && run >= 2 {
            lemma_collapse_len(s, i + 1, run);
        } else if s[i] == 10 {
            lemma_collapse_len(s, i + 1, run + 1);
        } else {
            lemma_collapse_len(s, i + 1, 0);
        }
    }
}

/// The display name of a file: repeated leading `./` stripped, then leading
/// slashes stripped.
pub open spec fn strip_dot_slash(f: Seq<u8>) -> Seq<u8>
    decreases f.len(),
{
    if f.len() >= 2 && f[0] == 46 && f[1] == 47 {
        strip_dot_slash(f.skip(2))
    } else {
        f
    }
}

pub open spec fn strip_slash(f: Seq<u8>) -> Seq<u8>
    decreases f.len(),
{
    if f.len() >= 1 && f[0] == 47 {
        strip_slash(f.skip(1))
    } else {
        f
    }
}

pub open spec fn clean_name(f: Seq<u8>) -> Seq<u8> {
    strip_slash(strip_dot_slash(f))
}

/// Offset at which the cleaned display name of `file` starts.
fn clean_name_start(file: &[u8]) -> (r: usize)
    ensures
        r <= file@.len(),
        file@.subrange(r as int, file@.len() as int) == clean_name(file@),
{
    let ghost f = file@;
    let n = file.len();
    let mut p: usize = 0;
    proof {
        assert(f.skip(0) =~= f);
    }
    loop
        invariant
            0 <= p <= n == f.len(),
            file@ == f,
            strip_dot_slash(f) == strip_dot_slash(f.skip(p as int)),
        ensures
            0 <= p <= n,
            strip_dot_slash(f) == f.skip(p as int),
        decreases n - p,
    {
        if n - p >= 2 && *vstd::slice::slice_index_get(file, p) == 46
            && *vstd::slice::slice_index_get(file, p + 1) == 47 {
            proof {
                let g = f.skip(p as int);
                assert(g[0] == 46 && g[1] == 47);
                assert(g.skip(2) =~= f.skip(p + 2));
            }
            p += 2;
        } else {
            proof {
                let g = f.skip(p as int);
                assert(!(g.len() >= 2 && g[0] == 46 && g[1] == 47));
                assert(strip_dot_slash(g) == g);
            }
            break ;
        }
    }
    let mut q: usize = p;
    loop
        invariant
            p <= q <= n == f.len(),
            file@ == f,
            strip_dot_slash(f) == f.skip(p as int),
            strip_slash(f.skip(p as int)) == strip_slash(f.skip(q as int)),
        ensures
            q <= n,
            clean_name(f) == f.skip(q as int),
        decreases n - q,
    {
        if q < n && *vstd::slice::slice_index_get(file, q) == 47 {
            proof {
                let g = f.skip(q as int);
                assert(g[0] == 47);
                assert(g.skip(1) =~= f.skip(q + 1));
            }
            q += 1;
        } else {
            proof {
                let g = f.skip(q as int);
                assert(!(g.len() >= 1 && g[0] == 47));
                assert(strip_slash(g) == g);
            }
            break ;
        }
    }
    proof {
        assert(file@.subrange(q as int, file@.len() as int) =~= f.skip(q as int));
    }
    q
}

/// View of an optional byte vector.
pub open spec fn opt_bytes_view(o: Option<Vec<u8>>) -> Option<Seq<u8>> {
    match o {
        Option::Some(v) => Option::Some(v@),
        Option::None => Option::None,
    }
}

/// The block an operation's heading path and index address in `t`, or the
/// resolution error.
pub open spec fn resolved_block(t: Seq<u8>, path: Seq<Seq<u8>>, idx: int) -> Result<
    crate::parser::BlockModel,
    PatchErrorModel,
> {
    let secs = crate::parser::parse_spec(t);
    match crate::parser::resolve_path(secs, path) {
        Result::Err(e) => Result::Err(e),
        Result::Ok(si) => {
            let sec = secs[si];
            if idx < sec.blocks.len() {
                Result::Ok(sec.blocks[idx])
            } else {
                Result::Err(
                    PatchErrorModel::BlockIndexOutOfRange {
                        index: idx,
                        available: sec.blocks.len() as int,
                    },
                )
            }
        },
    }
}

/// The safety gate: a present fingerprint must compile and match the
/// block's content; without one, a destructive operation needs the explicit
/// force flag.
pub open spec fn gate_check(
    b: crate::parser::BlockModel,
    fp: Option<Seq<u8>>,
    op: Operation,
    force: bool,
) -> Result<(), PatchErrorModel> {
    match fp {
        Option::Some(p) => if !regex_pattern_ok(p) {
            Result::Err(PatchErrorModel::InvalidFingerprint { pattern: p })
        } else if !regex_match(p, b.content) {
            Result::Err(PatchErrorModel::FingerprintMismatch { pattern: p })
        } else {
            Result::Ok(())
        },
        Option::None => match op {
            Operation::Replace | Operation::Delete => if !force {
                Result::Err(PatchErrorModel::UnsafeDestructiveOperation)
            } else {
                Result::Ok(())
            },
            Operation::Append => Result::Ok(()),
        },
    }
}

/// The mutated document one operation produces from a resolved block, or
/// the mutation error.
pub open spec fn mutate_spec(
    t: Seq<u8>,
    b: crate::parser::BlockModel,
    op: Operation,
    c: Option<Seq<u8>>,
) -> Result<Seq<u8>, PatchErrorModel> {
    match op {
        Operation::Append => match c {
            Option::Some(cc) => Result::Ok(
                if append_is_noop(t, b.start, cc) {
                    t
                } else {
                    append_insert(t, b.end, cc)
                },
            ),
            Option::None => Result::Err(PatchErrorModel::MissingContent),
        },
        Operation::Replace => match c {
            Option::Some(cc) => Result::Ok(replace_spec(t, b.start, b.end, cc)),
            Option::None => Result::Err(PatchErrorModel::MissingContent),
        },
        Operation::Delete => Result::Ok(delete_spec(t, b.start, b.end)),
    }
}

/// Resolve one operation against a document snapshot and carry it out.
///
/// The pipeline: parse the document, resolve the heading path to one
/// section, index the block, gate the mutation (fingerprint, force), splice
/// the new text, and render the diff against the original.  In force mode
/// the mutated text is returned for writing; otherwise only the diff.
/// `is_noop` reports that the document came back byte-identical.
pub fn apply_operation(content: &[u8], operation: &PatchOperation, force: bool) -> (r: Result<
    PatchResult,
    PatchError,
>)
    requires
        content@.len() < usize::MAX - 2,
        match operation.content {
            Option::Some(c) => content@.len() + c@.len() + 2 < usize::MAX,
            Option::None => true,
        },
    ensures
        ({
            let t = content@;
            let pathm = crate::parser::path_view(operation.heading_path@);
            match resolved_block(t, pathm, operation.block_index as int) {
                Result::Err(e) => r matches Result::Err(err) && err@ == e,
                Result::Ok(b) => match gate_check(
                    b,
                    opt_bytes_view(operation.fingerprint),
                    operation.operation,
                    force,
                ) {
                    Result::Err(e) => r matches Result::Err(err) && err@ == e,
                    Result::Ok(_) => match mutate_spec(
                        t,
                        b,
                        operation.operation,
                        opt_bytes_view(operation.content),
                    ) {
                        Result::Err(e) => r matches Result::Err(err) && err@ == e,
                        Result::Ok(new_t) => {
                            let d = diff_spec(t, new_t, clean_name(operation.file@));
                            let noop = new_t == t;
                            if force {
                                r matches Result::Ok(
                                    PatchResult::Applied { new_content, diff, is_noop },
                                ) && new_content@ == new_t && diff@ == d && is_noop == noop
                            } else {
                                r matches Result::Ok(PatchResult::DryRun { diff, is_noop })
                                    && diff@ == d && is_noop == noop
                            }
                        },
                    },
                },
            }
        }),
{
    let ghost t = content@;
    let ghost secs = crate::parser::parse_spec(t);
    let sections = match crate::parser::parse_sections(content) {
        Result::Ok(s) => s,
        Result::Err(e) => {
            return Result::Err(e);
        },
    };
    let section = match crate::parser::find_section(
        sections.as_slice(),
        operation.heading_path.as_slice(),
    ) {
        Result::Ok(s) => s,
        Result::Err(e) => {
            return Result::Err(e);
        },
    };
    let block = match crate::parser::get_block(section, operation.block_index) {
        Result::Ok(b) => b,
        Result::Err(e) => {
            return Result::Err(e);
        },
    };
    let ghost bm = block@;
    proof {
        let pathm = crate::parser::path_view(operation.heading_path@);
        let ri = crate::parser::resolve_path(secs, pathm)->Ok_0;
        assert(crate::parser::secs_view(sections@)[ri] == sections@[ri]@);
        assert(section@.blocks[operation.block_index as int] == bm);
        assert(resolved_block(t, pathm, operation.block_index as int) == Result::<
            crate::parser::BlockModel,
            PatchErrorModel,
        >::Ok(bm));
        crate::parser::lemma_parse_spec_wf(t);
        assert(crate::parser::wf_section(t, secs[ri]));
        assert(crate::parser::wf_block(t, bm));
    }
    // safety gating: fingerprint first, then the destructive-operation rule
    match &operation.fingerprint {
        Option::Some(fp) => {
            match regex_is_match(fp.as_slice(), block.content.as_slice()) {
                Option::None => {
                    let pattern = subrange_vec(fp.as_slice(), 0, fp.len());
                    proof {
                        assert(pattern@ =~= fp@);
                    }
                    return Result::Err(PatchError::InvalidFingerprint { pattern });
                },
                Option::Some(false) => {
                    let pattern = subrange_vec(fp.as_slice(), 0, fp.len());
                    proof {
                        assert(pattern@ =~= fp@);
                        assert(bm.content == block.content@);
                    }
                    return Result::Err(PatchError::FingerprintMismatch { pattern });
                },
                Option::Some(true) => {},
            }
        },
        Option::None => {
            let destructive = match operation.operation {
                Operation::Replace => true,
                Operation::Delete => true,
                Operation::Append => false,
            };
            if destructive && !force {
                return Result::Err(PatchError::UnsafeDestructiveOperation);
            }
        },
    }
    // the mutation itself
    let new_content = match operation.operation {
        Operation::Append => {
            match apply_append(content, block, &operation.content) {
                Result::Ok(v) => v,
                Result::Err(e) => {
                    return Result::Err(e);
                },
            }
        },
        Operation::Replace => {
            match apply_replace(content, block, &operation.content) {
                Result::Ok(v) => v,
                Result::Err(e) => {
                    return Result::Err(e);
                },
            }
        },
        Operation::Delete => {
            match apply_delete(content, block) {
                Result::Ok(v) => v,
                Result::Err(e) => {
                    return Result::Err(e);
                },
            }
        },
    };
    proof {
        match operation.operation {
            Operation::Delete => {
                lemma_collapse_len(
                    t.subrange(0, bm.start) + t.subrange(bm.end, t.len() as int),
                    0,
                    0,
                );
            },
            _ => {},
        }
        assert(new_content@.len() < usize::MAX);
    }
    let is_noop = crate::text::bytes_eq(new_content.as_slice(), content);
    let off = clean_name_start(operation.file.as_slice());
    let fname = vstd::slice::slice_subrange(operation.file.as_slice(), off, operation.file.len());
    let diff = generate_diff(content, new_content.as_slice(), fname);
    if force {
        Result::Ok(PatchResult::Applied { new_content, diff, is_noop })
    } else {
        Result::Ok(PatchResult::DryRun { diff, is_noop })
    }
}

// ------------------------------------------------------------------
// Laws of the mutation engine
// ------------------------------------------------------------------

/// Idempotent append: once an append has inserted its content, appending
/// the same content again is a no-op — the engine finds the content at or
/// after the new target's start and hands the document back unchanged.
/// This holds whenever the re-resolved target block starts no later than
/// just past the first target's end; re-parsing can move the target past
/// that point only when the inserted content itself changes the document's
/// heading or block structure.
pub proof fn lemma_append_idempotent(
    t: Seq<u8>,
    b1: crate::parser::BlockModel,
    b2: crate::parser::BlockModel,
    c: Seq<u8>,
)
    requires
        0 <= b1.start <= b1.end <= t.len(),
        0 <= b2.start <= b1.end + 1,
    ensures
        append_is_noop(append_insert(t, b1.end, c), b2.start, c),
        mutate_spec(append_insert(t, b1.end, c), b2, Operation::Append, Option::Some(c))
            == Result::<Seq<u8>, PatchErrorModel>::Ok(append_insert(t, b1.end, c)),
{
    let t1 = append_insert(t, b1.end, c);
    let sub = t1.subrange(b2.start, t1.len() as int);
    assert(t1.len() == t.len() + c.len() + 2);
    let pos = b1.end + 1 - b2.start;
    assert(c =~= sub.subrange(pos, pos + c.len()));
    assert(crate::text::contains_at(sub, c, pos));
}

/// `x` is a subsequence of `y`: `x` can be read off `y` in order.
pub open spec fn is_subseq(x: Seq<Seq<u8>>, y: Seq<Seq<u8>>) -> bool
    decreases x.len() + y.len(),
{
    if x.len() == 0 {
        true
    } else if y.len() == 0 {
        false
    } else {
        is_subseq(x, y.drop_last()) || (x.last() == y.last() && is_subseq(
            x.drop_last(),
            y.drop_last(),
        ))
    }
}

/// The backtracked pick is a common subsequence of both line prefixes.
pub proof fn lemma_lcs_pick_common(a: Seq<Seq<u8>>, b: Seq<Seq<u8>>, i: int, j: int)
    requires
        0 <= i <= a.len(),
        0 <= j <= b.len(),
    ensures
        is_subseq(lcs_pick(a, b, i, j), a.take(i)),
        is_subseq(lcs_pick(a, b, i, j), b.take(j)),
    decreases i + j,
{
    let p = lcs_pick(a, b, i, j);
    if i <= 0 || j <= 0 {
    } else {
        assert(a.take(i).drop_last() =~= a.take(i - 1));
        assert(b.take(j).drop_last() =~= b.take(j - 1));
        if a[i - 1] == b[j - 1] {
            lemma_lcs_pick_common(a, b, i - 1, j - 1);
            assert(p.last() == a[i - 1] && p.drop_last() =~= lcs_pick(a, b, i - 1, j - 1));
            assert(a.take(i).last() == a[i - 1] && b.take(j).last() == b[j - 1]);
        } else if lcs_len(a, b, i - 1, j) > lcs_len(a, b, i, j - 1) {
            lemma_lcs_pick_common(a, b, i - 1, j);
        } else {
            lemma_lcs_pick_common(a, b, i, j - 1);
        }
    }
}

/// The table entries move by at most one along each axis.
pub proof fn lemma_lcs_len_step(a: Seq<Seq<u8>>, b: Seq<Seq<u8>>, i: int, j: int)
    requires
        0 <= i,
        0 <= j,
    ensures
        i >= 1 ==> lcs_len(a, b, i - 1, j) <= lcs_len(a, b, i, j) <= lcs_len(a, b, i - 1, j) + 1,
        j >= 1 ==> lcs_len(a, b, i, j - 1) <= lcs_len(a, b, i, j) <= lcs_len(a, b, i, j - 1) + 1,
    decreases i + j,
{
    if i >= 1 && j >= 1 {
        lemma_lcs_len_step(a, b, i - 1, j);
        lemma_lcs_len_step(a, b, i, j - 1);
    }
}

/// No common subsequence of two line prefixes is longer than the table's
/// entry.
pub proof fn lemma_lcs_len_maximal(
    a: Seq<Seq<u8>>,
    b: Seq<Seq<u8>>,
    c: Seq<Seq<u8>>,
    i: int,
    j: int,
)
    requires
        0 <= i <= a.len(),
        0 <= j <= b.len(),
        is_subseq(c, a.take(i)),
        is_subseq(c, b.take(j)),
    ensures
        c.len() <= lcs_len(a, b, i, j),
    decreases i + j,
{
    lemma_lcs_len_bounds(a, b, i, j);
    if c.len() == 0 {
    } else if i == 0 || j == 0 {
        assert(a.take(0).len() == 0 && b.take(0).len() == 0);
        assert(false);
    } else {
        assert(a.take(i).drop_last() =~= a.take(i - 1));
        assert(b.take(j).drop_last() =~= b.take(j - 1));
        if is_subseq(c, a.take(i - 1)) {
            lemma_lcs_len_maximal(a, b, c, i - 1, j);
            lemma_lcs_len_step(a, b, i, j);
        } else if is_subseq(c, b.take(j - 1)) {
            lemma_lcs_len_maximal(a, b, c, i, j - 1);
            lemma_lcs_len_step(a, b, i, j);
        } else {
            assert(c.last() == a.take(i).last() && is_subseq(c.drop_last(), a.take(i - 1)));
            assert(c.last() == b.take(j).last() && is_subseq(c.drop_last(), b.take(j - 1)));
            assert(a[i - 1] == b[j - 1]);
            lemma_lcs_len_maximal(a, b, c.drop_last(), i - 1, j - 1);
        }
    }
}

/// Minimality of the diff's alignment: what the generator walks against is
/// a common subsequence of both documents' line sequences, and no common
/// subsequence is longer — so no diff over these lines needs fewer added
/// and removed lines.
pub proof fn lemma_lcs_minimal(a: Seq<Seq<u8>>, b: Seq<Seq<u8>>)
    ensures
        is_subseq(lcs_spec(a, b), a),
        is_subseq(lcs_spec(a, b), b),
        forall|c: Seq<Seq<u8>>|
            #![trigger is_subseq(c, a), is_subseq(c, b)]
            is_subseq(c, a) && is_subseq(c, b) ==> c.len() <= lcs_spec(a, b).len(),
{
    lemma_lcs_pick_common(a, b, a.len() as int, b.len() as int);
    lemma_lcs_pick_len(a, b, a.len() as int, b.len() as int);
    assert(a.take(a.len() as int) =~= a);
    assert(b.take(b.len() as int) =~= b);
    assert forall|c: Seq<Seq<u8>>|
        is_subseq(c, a) && is_subseq(c, b) implies c.len() <= lcs_spec(a, b).len() by {
        lemma_lcs_len_maximal(a, b, c, a.len() as int, b.len() as int);
    }
}

/// Fingerprint gating: a destructive operation without a fingerprint needs
/// the explicit force flag; a fingerprint that does not match the block's
/// current content always stops the operation; a matching fingerprint lets
/// it through.
pub proof fn lemma_fingerprint_gating(
    b: crate::parser::BlockModel,
    op: Operation,
    force: bool,
    fp: Option<Seq<u8>>,
)
    ensures
        match fp {
            Option::Some(p) => {
                &&& (regex_pattern_ok(p) && !regex_match(p, b.content) ==> gate_check(
                    b,
                    fp,
                    op,
                    force,
                ) == Result::<(), PatchErrorModel>::Err(
                    PatchErrorModel::FingerprintMismatch { pattern: p },
                ))
                &&& (regex_pattern_ok(p) && regex_match(p, b.content) ==> gate_check(
                    b,
                    fp,
                    op,
                    force,
                ) is Ok)
            },
            Option::None => !force && !(op is Append) ==> gate_check(b, fp, op, force)
                == Result::<(), PatchErrorModel>::Err(
                PatchErrorModel::UnsafeDestructiveOperation,
            ),
        },
{
}

} // verus!
