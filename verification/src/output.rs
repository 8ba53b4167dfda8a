//! Presentation-side computations: the compact prefix/suffix diff
//! rendering, exit-code classification, and the machine-readable error
//! detail that callers serialise.

use vstd::prelude::*;

use crate::error::{PatchError, PatchErrorModel};
use crate::patch::{diff_header, doc_lines};
use crate::text::subrange_vec;

verus! {

/// How results are rendered: a unified diff, a machine-readable structure,
/// or a short summary.
#[derive(Clone, Copy, Debug)]
pub enum OutputFormat {
    Diff,
    Json,
    Short,
}

impl Default for OutputFormat {
    fn default() -> (r: Self)
        ensures
            r is Diff,
    {
        OutputFormat::Diff
    }
}

/// What one operation did, for structured output.
#[derive(Debug)]
pub struct OperationInfo {
    pub file: Vec<u8>,
    pub heading: Vec<u8>,
    pub index: usize,
    pub operation: Vec<u8>,
}

/// A machine-readable error report.
pub struct JsonErrorOutput {
    pub success: bool,
    pub error: ErrorDetail,
}

/// The classified error: a stable code, the offending context, and a
/// suggested fix.
pub struct ErrorDetail {
    pub code: Vec<u8>,
    pub context: Option<ErrorContext>,
    pub suggestion: Option<Vec<u8>>,
}

/// Where the error arose.
pub struct ErrorContext {
    pub file: Option<Vec<u8>>,
    pub heading: Option<Vec<u8>>,
    pub index: Option<usize>,
    pub fingerprint: Option<Vec<u8>>,
}

/// The process exit code each failure maps to.
pub open spec fn exit_code_spec(e: PatchErrorModel) -> int {
    match e {
        PatchErrorModel::FingerprintMismatch { .. } => 3,
        PatchErrorModel::AmbiguousHeading { .. } => 4,
        PatchErrorModel::HeadingNotFound { .. } => 2,
        PatchErrorModel::SubheadingNotFound { .. } => 2,
        _ => 1,
    }
}

/// Classify an error into its process exit code: fingerprint mismatches,
/// ambiguous headings and missing headings each get their own code, and
/// everything else is a general failure.
pub fn classify_error(e: &PatchError) -> (c: i32)
    ensures
        c as int == exit_code_spec(e@),
{
    match e {
        PatchError::FingerprintMismatch { .. } => 3,
        PatchError::AmbiguousHeading { .. } => 4,
        PatchError::HeadingNotFound { .. } => 2,
        PatchError::SubheadingNotFound { .. } => 2,
        _ => 1,
    }
}

/// The bytes of the error code `heading_not_found`.
pub open spec fn code_heading_not_found() -> Seq<u8> {
    seq![104u8, 101u8, 97u8, 100u8, 105u8, 110u8, 103u8, 95u8, 110u8, 111u8, 116u8, 95u8, 102u8, 111u8, 117u8, 110u8, 100u8]
}

/// The bytes of the error code `fingerprint_mismatch`.
pub open spec fn code_fingerprint_mismatch() -> Seq<u8> {
    seq![102u8, 105u8, 110u8, 103u8, 101u8, 114u8, 112u8, 114u8, 105u8, 110u8, 116u8, 95u8, 109u8, 105u8, 115u8, 109u8, 97u8, 116u8, 99u8, 104u8]
}

/// The bytes of the error code `ambiguous_heading`.
pub open spec fn code_ambiguous_heading() -> Seq<u8> {
    seq![97u8, 109u8, 98u8, 105u8, 103u8, 117u8, 111u8, 117u8, 115u8, 95u8, 104u8, 101u8, 97u8, 100u8, 105u8, 110u8, 103u8]
}

/// The bytes of the error code `general_error`.
pub open spec fn code_general_error() -> Seq<u8> {
    seq![103u8, 101u8, 110u8, 101u8, 114u8, 97u8, 108u8, 95u8, 101u8, 114u8, 114u8, 111u8, 114u8]
}

/// The suggestion that goes with exit code 2.
pub open spec fn suggestion_code_2() -> Seq<u8> {
    seq![86u8, 101u8, 114u8, 105u8, 102u8, 121u8, 32u8, 116u8, 104u8, 101u8, 32u8, 104u8, 101u8, 97u8, 100u8, 105u8, 110u8, 103u8, 32u8, 101u8, 120u8, 105u8, 115u8, 116u8, 115u8, 32u8, 111u8, 114u8, 32u8, 117u8, 115u8, 101u8, 32u8, 110u8, 101u8, 115u8, 116u8, 101u8, 100u8, 32u8, 112u8, 97u8, 116u8, 104u8, 32u8, 108u8, 105u8, 107u8, 101u8, 32u8, 39u8, 35u8, 32u8, 80u8, 97u8, 114u8, 101u8, 110u8, 116u8, 32u8, 35u8, 35u8, 32u8, 67u8, 104u8, 105u8, 108u8, 100u8, 39u8]
}

/// The suggestion that goes with exit code 3.
pub open spec fn suggestion_code_3() -> Seq<u8> {
    seq![84u8, 104u8, 101u8, 32u8, 116u8, 97u8, 114u8, 103u8, 101u8, 116u8, 32u8, 98u8, 108u8, 111u8, 99u8, 107u8, 32u8, 99u8, 111u8, 110u8, 116u8, 101u8, 110u8, 116u8, 32u8, 104u8, 97u8, 115u8, 32u8, 99u8, 104u8, 97u8, 110u8, 103u8, 101u8, 100u8, 46u8, 32u8, 85u8, 112u8, 100u8, 97u8, 116u8, 101u8, 32u8, 102u8, 105u8, 110u8, 103u8, 101u8, 114u8, 112u8, 114u8, 105u8, 110u8, 116u8, 32u8, 111u8, 114u8, 32u8, 118u8, 101u8, 114u8, 105u8, 102u8, 121u8, 32u8, 116u8, 104u8, 101u8, 32u8, 98u8, 108u8, 111u8, 99u8, 107u8, 32u8, 105u8, 110u8, 100u8, 101u8, 120u8]
}

/// The suggestion that goes with exit code 4.
pub open spec fn suggestion_code_4() -> Seq<u8> {
    seq![77u8, 117u8, 108u8, 116u8, 105u8, 112u8, 108u8, 101u8, 32u8, 115u8, 101u8, 99u8, 116u8, 105u8, 111u8, 110u8, 115u8, 32u8, 109u8, 97u8, 116u8, 99u8, 104u8, 46u8, 32u8, 85u8, 115u8, 101u8, 32u8, 102u8, 117u8, 108u8, 108u8, 32u8, 112u8, 97u8, 116u8, 104u8, 32u8, 108u8, 105u8, 107u8, 101u8, 32u8, 39u8, 35u8, 32u8, 80u8, 97u8, 114u8, 101u8, 110u8, 116u8, 32u8, 35u8, 35u8, 32u8, 84u8, 97u8, 114u8, 103u8, 101u8, 116u8, 72u8, 101u8, 97u8, 100u8, 105u8, 110u8, 103u8, 39u8]
}

/// The stable error-code string for an exit code.
pub open spec fn error_code_spec(exit_code: int) -> Seq<u8> {
    if exit_code == 2 {
        code_heading_not_found()
    } else if exit_code == 3 {
        code_fingerprint_mismatch()
    } else if exit_code == 4 {
        code_ambiguous_heading()
    } else {
        code_general_error()
    }
}

/// The suggested fix for an exit code, if one exists.
pub open spec fn suggestion_spec(exit_code: int) -> Option<Seq<u8>> {
    if exit_code == 2 {
        Option::Some(suggestion_code_2())
    } else if exit_code == 3 {
        Option::Some(suggestion_code_3())
    } else if exit_code == 4 {
        Option::Some(suggestion_code_4())
    } else {
        Option::None
    }
}

fn build_code_heading_not_found() -> (v: Vec<u8>)
    ensures
        v@ == code_heading_not_found(),
{
    let mut v: Vec<u8> = Vec::new();
    v.push(104);
    v.push(101);
    v.push(97);
    v.push(100);
    v.push(105);
    v.push(110);
    v.push(103);
    v.push(95);
    v.push(110);
    v.push(111);
    v.push(116);
    v.push(95);
    v.push(102);
    v.push(111);
    v.push(117);
    v.push(110);
    v.push(100);
    proof {
        assert(v@ =~= code_heading_not_found());
    }
    v
}

fn build_code_fingerprint_mismatch() -> (v: Vec<u8>)
    ensures
        v@ == code_fingerprint_mismatch(),
{
    let mut v: Vec<u8> = Vec::new();
    v.push(102);
    v.push(105);
    v.push(110);
    v.push(103);
    v.push(101);
    v.push(114);
    v.push(112);
    v.push(114);
    v.push(105);
    v.push(110);
    v.push(116);
    v.push(95);
    v.push(109);
    v.push(105);
    v.push(115);
    v.push(109);
    v.push(97);
    v.push(116);
    v.push(99);
    v.push(104);
    proof {
        assert(v@ =~= code_fingerprint_mismatch());
    }
    v
}

fn build_code_ambiguous_heading() -> (v: Vec<u8>)
    ensures
        v@ == code_ambiguous_heading(),
{
    let mut v: Vec<u8> = Vec::new();
    v.push(97);
    v.push(109);
    v.push(98);
    v.push(105);
    v.push(103);
    v.push(117);
    v.push(111);
    v.push(117);
    v.push(115);
    v.push(95);
    v.push(104);
    v.push(101);
    v.push(97);
    v.push(100);
    v.push(105);
    v.push(110);
    v.push(103);
    proof {
        assert(v@ =~= code_ambiguous_heading());
    }
    v
}

fn build_code_general_error() -> (v: Vec<u8>)
    ensures
        v@ == code_general_error(),
{
    let mut v: Vec<u8> = Vec::new();
    v.push(103);
    v.push(101);
    v.push(110);
    v.push(101);
    v.push(114);
    v.push(97);
    v.push(108);
    v.push(95);
    v.push(101);
    v.push(114);
    v.push(114);
    v.push(111);
    v.push(114);
    proof {
        assert(v@ =~= code_general_error());
    }
    v
}

fn build_suggestion_2() -> (v: Vec<u8>)
    ensures
        v@ == suggestion_code_2(),
{
    let mut v: Vec<u8> = Vec::new();
    v.push(86);
    v.push(101);
    v.push(114);
    v.push(105);
    v.push(102);
    v.push(121);
    v.push(32);
    v.push(116);
    v.push(104);
    v.push(101);
    v.push(32);
    v.push(104);
    v.push(101);
    v.push(97);
    v.push(100);
    v.push(105);
    v.push(110);
    v.push(103);
    v.push(32);
    v.push(101);
    v.push(120);
    v.push(105);
    v.push(115);
    v.push(116);
    v.push(115);
    v.push(32);
    v.push(111);
    v.push(114);
    v.push(32);
    v.push(117);
    v.push(115);
    v.push(101);
    v.push(32);
    v.push(110);
    v.push(101);
    v.push(115);
    v.push(116);
    v.push(101);
    v.push(100);
    v.push(32);
    v.push(112);
    v.push(97);
    v.push(116);
    v.push(104);
    v.push(32);
    v.push(108);
    v.push(105);
    v.push(107);
    v.push(101);
    v.push(32);
    v.push(39);
    v.push(35);
    v.push(32);
    v.push(80);
    v.push(97);
    v.push(114);
    v.push(101);
    v.push(110);
    v.push(116);
    v.push(32);
    v.push(35);
    v.push(35);
    v.push(32);
    v.push(67);
    v.push(104);
    v.push(105);
    v.push(108);
    v.push(100);
    v.push(39);
    proof {
        assert(v@ =~= suggestion_code_2());
    }
    v
}

fn build_suggestion_3() -> (v: Vec<u8>)
    ensures
        v@ == suggestion_code_3(),
{
    let mut v: Vec<u8> = Vec::new();
    v.push(84);
    v.push(104);
    v.push(101);
    v.push(32);
    v.push(116);
    v.push(97);
    v.push(114);
    v.push(103);
    v.push(101);
    v.push(116);
    v.push(32);
    v.push(98);
    v.push(108);
    v.push(111);
    v.push(99);
    v.push(107);
    v.push(32);
    v.push(99);
    v.push(111);
    v.push(110);
    v.push(116);
    v.push(101);
    v.push(110);
    v.push(116);
    v.push(32);
    v.push(104);
    v.push(97);
    v.push(115);
    v.push(32);
    v.push(99);
    v.push(104);
    v.push(97);
    v.push(110);
    v.push(103);
    v.push(101);
    v.push(100);
    v.push(46);
    v.push(32);
    v.push(85);
    v.push(112);
    v.push(100);
    v.push(97);
    v.push(116);
    v.push(101);
    v.push(32);
    v.push(102);
    v.push(105);
    v.push(110);
    v.push(103);
    v.push(101);
    v.push(114);
    v.push(112);
    v.push(114);
    v.push(105);
    v.push(110);
    v.push(116);
    v.push(32);
    v.push(111);
    v.push(114);
    v.push(32);
    v.push(118);
    v.push(101);
    v.push(114);
    v.push(105);
    v.push(102);
    v.push(121);
    v.push(32);
    v.push(116);
    v.push(104);
    v.push(101);
    v.push(32);
    v.push(98);
    v.push(108);
    v.push(111);
    v.push(99);
    v.push(107);
    v.push(32);
    v.push(105);
    v.push(110);
    v.push(100);
    v.push(101);
    v.push(120);
    proof {
        assert(v@ =~= suggestion_code_3());
    }
    v
}

fn build_suggestion_4() -> (v: Vec<u8>)
    ensures
        v@ == suggestion_code_4(),
{
    let mut v: Vec<u8> = Vec::new();
    v.push(77);
    v.push(117);
    v.push(108);
    v.push(116);
    v.push(105);
    v.push(112);
    v.push(108);
    v.push(101);
    v.push(32);
    v.push(115);
    v.push(101);
    v.push(99);
    v.push(116);
    v.push(105);
    v.push(111);
    v.push(110);
    v.push(115);
    v.push(32);
    v.push(109);
    v.push(97);
    v.push(116);
    v.push(99);
    v.push(104);
    v.push(46);
    v.push(32);
    v.push(85);
    v.push(115);
    v.push(101);
    v.push(32);
    v.push(102);
    v.push(117);
    v.push(108);
    v.push(108);
    v.push(32);
    v.push(112);
    v.push(97);
    v.push(116);
    v.push(104);
    v.push(32);
    v.push(108);
    v.push(105);
    v.push(107);
    v.push(101);
    v.push(32);
    v.push(39);
    v.push(35);
    v.push(32);
    v.push(80);
    v.push(97);
    v.push(114);
    v.push(101);
    v.push(110);
    v.push(116);
    v.push(32);
    v.push(35);
    v.push(35);
    v.push(32);
    v.push(84);
    v.push(97);
    v.push(114);
    v.push(103);
    v.push(101);
    v.push(116);
    v.push(72);
    v.push(101);
    v.push(97);
    v.push(100);
    v.push(105);
    v.push(110);
    v.push(103);
    v.push(39);
    proof {
        assert(v@ =~= suggestion_code_4());
    }
    v
}

/// Classify an exit code into the stable code string and the suggested fix
/// that structured output carries.
pub fn classify_error_detail(exit_code: i32) -> (r: (Vec<u8>, Option<Vec<u8>>))
    ensures
        r.0@ == error_code_spec(exit_code as int),
        ({
            match (r.1, suggestion_spec(exit_code as int)) {
                (Option::Some(v), Option::Some(sg)) => v@ == sg,
                (Option::None, Option::None) => true,
                _ => false,
            }
        }),
{
    if exit_code == 2 {
        (build_code_heading_not_found(), Option::Some(build_suggestion_2()))
    } else if exit_code == 3 {
        (build_code_fingerprint_mismatch(), Option::Some(build_suggestion_3()))
    } else if exit_code == 4 {
        (build_code_ambiguous_heading(), Option::Some(build_suggestion_4()))
    } else {
        (build_code_general_error(), Option::None)
    }
}

/// The fingerprint pattern an error carries, where one does: only a
/// fingerprint mismatch reports the pattern that failed.
pub fn extract_fingerprint_from_error(e: &PatchError) -> (r: Option<Vec<u8>>)
    ensures
        ({
            match (r, e@) {
                (Option::Some(v), PatchErrorModel::FingerprintMismatch { pattern }) => v@
                    == pattern,
                (Option::None, _) => !(e@ is FingerprintMismatch),
                _ => false,
            }
        }),
{
    match e {
        PatchError::FingerprintMismatch { pattern } => {
            let v = subrange_vec(pattern.as_slice(), 0, pattern.len());
            proof {
                assert(v@ =~= pattern@);
            }
            Option::Some(v)
        },
        _ => Option::None,
    }
}

/// Build the machine-readable error report for one failed operation.
pub fn build_error_output(
    e: &PatchError,
    exit_code: i32,
    file: Option<Vec<u8>>,
    heading: Option<Vec<u8>>,
    index: Option<usize>,
) -> (r: JsonErrorOutput)
    ensures
        !r.success,
        r.error.code@ == error_code_spec(exit_code as int),
        r.error.context is Some,
{
    let (code, suggestion) = classify_error_detail(exit_code);
    let fingerprint = extract_fingerprint_from_error(e);
    JsonErrorOutput {
        success: false,
        error: ErrorDetail {
            code,
            context: Option::Some(ErrorContext { file, heading, index, fingerprint }),
            suggestion,
        },
    }
}

// ------------------------------------------------------------------
// The compact prefix/suffix diff
// ------------------------------------------------------------------

/// Decimal digits of a non-negative number.
pub open spec fn dec_rep(n: int) -> Seq<u8>
    decreases n
    when n >= 0
{
    if n < 10 {
        seq![(48 + n) as u8]
    } else {
        dec_rep(n / 10) + seq![(48 + (n % 10)) as u8]
    }
}

/// Append the decimal digits of `x`.
fn push_decimal(v: &mut Vec<u8>, x: usize)
    ensures
        final(v)@ == old(v)@ + dec_rep(x as int),
{
    let mut tmp: Vec<u8> = Vec::new();
    let mut y: usize = x;
    loop
        invariant_except_break
            dec_rep(x as int) == dec_rep(y as int) + tmp@.reverse(),
        invariant
            y <= x,
        ensures
            tmp@.len() >= 1,
            dec_rep(x as int) == tmp@.reverse(),
        decreases y,
    {
        let d: u8 = 48 + (y % 10) as u8;
        let ghost prev = tmp@;
        tmp.push(d);
        proof {
            assert(tmp@.reverse() =~= seq![d] + prev.reverse());
        }
        if y < 10 {
            proof {
                assert(dec_rep(y as int) == seq![d]);
                assert(dec_rep(y as int) + prev.reverse() =~= tmp@.reverse());
            }
            break ;
        }
        proof {
            assert(dec_rep(y as int) == dec_rep(y as int / 10) + seq![d]);
            assert(dec_rep(y as int / 10) + (seq![d] + prev.reverse()) =~= dec_rep(y as int)
                + prev.reverse());
        }
        y = y / 10;
    }
    let n = tmp.len();
    let mut k: usize = n;
    while k > 0
        invariant
            n == tmp@.len(),
            0 <= k <= n,
            v@ == old(v)@ + tmp@.reverse().take(n - k),
        decreases k,
    {
        k -= 1;
        let ghost prev = v@;
        v.push(tmp[k]);
        proof {
            assert(tmp@.reverse()[n - k - 1] == tmp@[k as int]);
            assert(tmp@.reverse().take(n - k) =~= tmp@.reverse().take(n - (k + 1)).push(
                tmp@[k as int],
            ));
            assert(old(v)@ + tmp@.reverse().take(n - k) =~= prev + seq![tmp@[k as int]]);
            assert(v@ =~= prev + seq![tmp@[k as int]]);
        }
    }
    proof {
        assert(tmp@.reverse().take(n as int) =~= tmp@.reverse());
    }
}

/// Length of the common line prefix of `a` and `b` from `i` on.
pub open spec fn common_prefix_len(a: Seq<Seq<u8>>, b: Seq<Seq<u8>>, i: int) -> int
    decreases a.len() - i
    when 0 <= i <= a.len()
{
    if i < a.len() && i < b.len() && a[i] == b[i] {
        common_prefix_len(a, b, i + 1)
    } else {
        i
    }
}

/// Length of the common line suffix of `a[..i]` and `b[..j]`, stopping
/// before position `lo`.
pub open spec fn common_suffix_len(a: Seq<Seq<u8>>, b: Seq<Seq<u8>>, lo: int, i: int, j: int) -> int
    decreases i
    when lo >= 0
{
    if i > lo && j > lo && a[i - 1] == b[j - 1] {
        1 + common_suffix_len(a, b, lo, i - 1, j - 1)
    } else {
        0
    }
}

/// The lines `ls[lo..hi]`, each under a one-byte prefix and a newline.
pub open spec fn prefixed_lines(ls: Seq<Seq<u8>>, lo: int, hi: int, p: u8) -> Seq<u8>
    decreases hi - lo,
{
    if lo >= hi {
        Seq::empty()
    } else {
        seq![p] + ls[lo] + seq![10u8] + prefixed_lines(ls, lo + 1, hi, p)
    }
}

/// The `@@` hunk header with the three numbers the renderer prints.
pub open spec fn hunk_head(x: int, y: int, z: int) -> Seq<u8> {
    seq![64u8, 64u8, 32u8, 45u8] + dec_rep(x) + seq![44u8] + dec_rep(y) + seq![32u8, 43u8]
        + dec_rep(y) + seq![44u8] + dec_rep(z) + seq![32u8, 64u8, 64u8, 10u8]
}

/// The compact diff: for equal inputs the bare header; otherwise one hunk
/// around the changed region, found as the lines between the longest common
/// line prefix and the longest common line suffix, with up to three lines
/// of leading and trailing context.
pub open spec fn format_diff_spec(sa: Seq<u8>, sb: Seq<u8>, file: Seq<u8>) -> Seq<u8> {
    if sa == sb {
        diff_header(file)
    } else {
        let a = doc_lines(sa);
        let b = doc_lines(sb);
        let pre = common_prefix_len(a, b, 0);
        let suf = common_suffix_len(a, b, pre, a.len() as int, b.len() as int);
        let old_end = a.len() - suf;
        let new_end = b.len() - suf;
        let ctx = if pre >= 3 {
            pre - 3
        } else {
            0
        };
        let oy = if old_end >= ctx {
            old_end - ctx
        } else {
            0
        };
        let nz = if new_end >= ctx {
            new_end - ctx
        } else {
            0
        };
        let tail_end = if old_end + 3 <= a.len() {
            old_end + 3
        } else {
            a.len() as int
        };
        diff_header(file) + hunk_head(ctx + 1, oy, nz) + prefixed_lines(a, ctx, pre, 32)
            + prefixed_lines(a, pre, old_end, 45) + prefixed_lines(b, pre, new_end, 43)
            + prefixed_lines(a, old_end, tail_end, 32)
    }
}

/// Append the two diff header lines for `filename`.
fn push_header(out: &mut Vec<u8>, filename: &[u8])
    ensures
        final(out)@ == old(out)@ + diff_header(filename@),
{
    out.push(45);
    out.push(45);
    out.push(45);
    out.push(32);
    out.push(97);
    out.push(47);
    out.extend_from_slice(filename);
    out.push(10);
    out.push(43);
    out.push(43);
    out.push(43);
    out.push(32);
    out.push(98);
    out.push(47);
    out.extend_from_slice(filename);
    out.push(10);
    proof {
        assert(out@ =~= old(out)@ + diff_header(filename@));
    }
}

/// Append the `@@` hunk header with the renderer's three numbers.
fn push_hunk_head(out: &mut Vec<u8>, x: usize, y: usize, z: usize)
    ensures
        final(out)@ == old(out)@ + hunk_head(x as int, y as int, z as int),
{
    out.push(64);
    out.push(64);
    out.push(32);
    out.push(45);
    push_decimal(out, x);
    out.push(44);
    push_decimal(out, y);
    out.push(32);
    out.push(43);
    push_decimal(out, y);
    out.push(44);
    push_decimal(out, z);
    out.push(32);
    out.push(64);
    out.push(64);
    out.push(10);
    proof {
        assert(out@ =~= old(out)@ + hunk_head(x as int, y as int, z as int));
    }
}

/// Append lines `[lo, hi)` of `ls`, each under prefix byte `p` and a
/// trailing newline.
fn push_prefixed(out: &mut Vec<u8>, ls: &Vec<Vec<u8>>, lo: usize, hi: usize, p: u8)
    requires
        lo <= hi <= ls@.len(),
    ensures
        final(out)@ == old(out)@ + prefixed_lines(crate::patch::lines_view(ls@), lo as int, hi as int, p),
{
    let ghost lv = crate::patch::lines_view(ls@);
    let mut i: usize = lo;
    while i < hi
        invariant
            lo <= i <= hi <= ls@.len(),
            lv == crate::patch::lines_view(ls@),
            old(out)@ + prefixed_lines(lv, lo as int, hi as int, p) == out@ + prefixed_lines(
                lv,
                i as int,
                hi as int,
                p,
            ),
        decreases hi - i,
    {
        let ghost prev = out@;
        proof {
            assert(lv[i as int] == ls@[i as int]@);
        }
        out.push(p);
        out.extend_from_slice(vstd::std_specs::vec::vec_index(ls, i).as_slice());
        out.push(10);
        proof {
            assert(prefixed_lines(lv, i as int, hi as int, p) =~= seq![p] + lv[i as int]
                + seq![10u8] + prefixed_lines(lv, i as int + 1, hi as int, p));
            assert(prev + prefixed_lines(lv, i as int, hi as int, p) =~= out@ + prefixed_lines(
                lv,
                i as int + 1,
                hi as int,
                p,
            ));
        }
        i += 1;
    }
    proof {
        assert(prefixed_lines(lv, i as int, hi as int, p) =~= Seq::<u8>::empty());
        assert(old(out)@ + prefixed_lines(lv, lo as int, hi as int, p) =~= out@);
    }
}

/// Render the compact prefix/suffix diff of `old` against `new`.
#[verifier::rlimit(100)]
pub fn format_diff(old: &[u8], new: &[u8], filename: &[u8]) -> (r: Vec<u8>)
    requires
        old@.len() < usize::MAX,
        new@.len() < usize::MAX,
    ensures
        r@ == format_diff_spec(old@, new@, filename@),
{
    let mut out: Vec<u8> = Vec::new();
    push_header(&mut out, filename);
    proof {
        assert(out@ =~= diff_header(filename@));
    }
    if crate::text::bytes_eq(old, new) {
        return out;
    }
    let a = crate::patch::lines_vec(old);
    let b = crate::patch::lines_vec(new);
    let ghost av = crate::patch::lines_view(a@);
    let ghost bv = crate::patch::lines_view(b@);
    let m = a.len();
    let n = b.len();
    // common line prefix
    let mut pre: usize = 0;
    loop
        invariant_except_break
            common_prefix_len(av, bv, 0) == common_prefix_len(av, bv, pre as int),
        invariant
            m == a@.len() && n == b@.len(),
            av == crate::patch::lines_view(a@) && bv == crate::patch::lines_view(b@),
            0 <= pre <= m && pre <= n,
        ensures
            0 <= pre <= m && pre <= n,
            pre as int == common_prefix_len(av, bv, 0),
        decreases m - pre,
    {
        if pre >= m || pre >= n {
            proof {
                assert(common_prefix_len(av, bv, pre as int) == pre);
            }
            break ;
        }
        proof {
            assert(av[pre as int] == a@[pre as int]@ && bv[pre as int] == b@[pre as int]@);
        }
        if !crate::text::bytes_eq(a[pre].as_slice(), b[pre].as_slice()) {
            proof {
                assert(common_prefix_len(av, bv, pre as int) == pre);
            }
            break ;
        }
        pre += 1;
    }
    // common line suffix above the prefix
    let mut oe: usize = m;
    let mut ne: usize = n;
    loop
        invariant_except_break
            common_suffix_len(av, bv, pre as int, m as int, n as int) == (m - oe)
                + common_suffix_len(av, bv, pre as int, oe as int, ne as int),
        invariant
            m == a@.len() && n == b@.len(),
            av == crate::patch::lines_view(a@) && bv == crate::patch::lines_view(b@),
            pre <= oe <= m && pre <= ne <= n,
            m - oe == n - ne,
        ensures
            pre <= oe <= m && pre <= ne <= n,
            m - oe == n - ne,
            m - oe == common_suffix_len(av, bv, pre as int, m as int, n as int),
        decreases oe,
    {
        if oe <= pre || ne <= pre {
            proof {
                assert(common_suffix_len(av, bv, pre as int, oe as int, ne as int) == 0);
            }
            break ;
        }
        proof {
            assert(av[oe - 1] == a@[oe - 1]@ && bv[ne - 1] == b@[ne - 1]@);
        }
        if !crate::text::bytes_eq(a[oe - 1].as_slice(), b[ne - 1].as_slice()) {
            proof {
                assert(common_suffix_len(av, bv, pre as int, oe as int, ne as int) == 0);
            }
            break ;
        }
        proof {
            assert(common_suffix_len(av, bv, pre as int, oe as int, ne as int) == 1
                + common_suffix_len(av, bv, pre as int, oe - 1, ne - 1));
        }
        oe -= 1;
        ne -= 1;
    }
    let ctx = if pre >= 3 {
        pre - 3
    } else {
        0
    };
    let oy = if oe >= ctx {
        oe - ctx
    } else {
        0
    };
    let nz = if ne >= ctx {
        ne - ctx
    } else {
        0
    };
    let ghost full = format_diff_spec(old@, new@, filename@);
    push_hunk_head(&mut out, ctx + 1, oy, nz);
    let ghost t1 = prefixed_lines(av, ctx as int, pre as int, 32);
    let ghost t2 = prefixed_lines(av, pre as int, oe as int, 45);
    let ghost t3 = prefixed_lines(bv, pre as int, ne as int, 43);
    let hi = if m - oe >= 3 {
        oe + 3
    } else {
        m
    };
    let ghost t4 = prefixed_lines(av, oe as int, hi as int, 32);
    proof {
        assert(full =~= out@ + t1 + t2 + t3 + t4);
    }
    push_prefixed(&mut out, &a, ctx, pre, 32);
    push_prefixed(&mut out, &a, pre, oe, 45);
    push_prefixed(&mut out, &b, pre, ne, 43);
    push_prefixed(&mut out, &a, oe, hi, 32);
    proof {
        assert(full =~= out@);
    }
    out
}

} // verus!
