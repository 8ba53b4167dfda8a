//! The document model: segmentation of a text into heading-delimited
//! sections and typed content blocks with exact byte spans, and resolution of
//! a heading path and block index to one concrete block.
//!
//! The classifier is a line heuristic, not a conforming lightweight-markup
//! parser: each block kind is recognised from its first line, first match
//! wins, and classification never rejects input.

use vstd::prelude::*;

use crate::error::{PatchError, PatchErrorModel};
use crate::text::{
    blank_in, byte_in, bytes_eq, contains_byte, contains_seq, find_sub, has_prefix, is_blank,
    is_digit, is_ws, lemma_line_spans_props, lemma_run_end, lemma_run_end_unique,
    lemma_trim_back_take, lemma_trim_front_skip, lend, line_at, line_spans,
    lstart, n_lines, prefix_in, run_end, spans_ok, split_lines, subrange_vec, trim, trim_in,
};

verus! {

/// One structural unit of document content with its exact byte span.
///
/// `start` and `end` are offsets into the text the block was parsed from,
/// and become stale as soon as that text is mutated; `content` is the exact
/// substring of that span, delimiters included.
#[derive(Debug, Clone)]
pub struct Block {
    pub start: usize,
    pub end: usize,
    pub content: Vec<u8>,
    pub block_type: BlockType,
}

/// The recognised block kinds.
#[derive(Debug, Clone)]
pub enum BlockType {
    Paragraph,
    Heading { level: u8 },
    CodeBlock { lang: Option<Vec<u8>> },
    List { ordered: bool },
    BlockQuote,
    Table,
    Html,
    ThematicBreak,
}

/// A heading and every block until the next heading of any level.
#[derive(Debug)]
pub struct Section {
    pub heading: Vec<u8>,
    pub heading_level: u8,
    pub heading_start: usize,
    pub heading_end: usize,
    pub blocks: Vec<Block>,
}

/// Mathematical image of `BlockType`.
#[verifier::ext_equal]
pub ghost enum BlockKind {
    Paragraph,
    Heading { level: int },
    CodeBlock { lang: Option<Seq<u8>> },
    List { ordered: bool },
    BlockQuote,
    Table,
    Html,
    ThematicBreak,
}

/// Mathematical image of `Block`.
#[verifier::ext_equal]
pub ghost struct BlockModel {
    pub start: int,
    pub end: int,
    pub content: Seq<u8>,
    pub kind: BlockKind,
}

/// Mathematical image of `Section`.
#[verifier::ext_equal]
pub ghost struct SectionModel {
    pub heading: Seq<u8>,
    pub heading_level: int,
    pub heading_start: int,
    pub heading_end: int,
    pub blocks: Seq<BlockModel>,
}

impl View for BlockType {
    type V = BlockKind;

    open spec fn view(&self) -> BlockKind {
        match self {
            BlockType::Paragraph => BlockKind::Paragraph,
            BlockType::Heading { level } => BlockKind::Heading { level: *level as int },
            BlockType::CodeBlock { lang } => BlockKind::CodeBlock {
                lang: match lang {
                    Option::Some(l) => Option::Some(l@),
                    Option::None => Option::None,
                },
            },
            BlockType::List { ordered } => BlockKind::List { ordered: *ordered },
            BlockType::BlockQuote => BlockKind::BlockQuote,
            BlockType::Table => BlockKind::Table,
            BlockType::Html => BlockKind::Html,
            BlockType::ThematicBreak => BlockKind::ThematicBreak,
        }
    }
}

impl View for Block {
    type V = BlockModel;

    open spec fn view(&self) -> BlockModel {
        BlockModel {
            start: self.start as int,
            end: self.end as int,
            content: self.content@,
            kind: self.block_type@,
        }
    }
}

impl View for Section {
    type V = SectionModel;

    open spec fn view(&self) -> SectionModel {
        SectionModel {
            heading: self.heading@,
            heading_level: self.heading_level as int,
            heading_start: self.heading_start as int,
            heading_end: self.heading_end as int,
            blocks: self.blocks@.map_values(|b: Block| b@),
        }
    }
}

/// Views of a section sequence.
pub open spec fn secs_view(ss: Seq<Section>) -> Seq<SectionModel> {
    ss.map_values(|sec: Section| sec@)
}

// ------------------------------------------------------------------
// Line classification predicates
// ------------------------------------------------------------------

/// The three backticks that open or close a fenced code block.
pub open spec fn fence_bytes() -> Seq<u8> {
    seq![96u8, 96u8, 96u8]
}

/// `-`, `*` or `_`, the bytes a thematic break is drawn with.
pub open spec fn is_theme(b: u8) -> bool {
    b == 45 || b == 42 || b == 95
}

/// A list-item marker: a bullet or a digit run, each followed by whitespace.
pub open spec fn is_list_marker(t: Seq<u8>) -> bool {
    let d = run_end(t, 0, |b: u8| is_digit(b));
    (t.len() >= 2 && (t[0] == 45 || t[0] == 42 || t[0] == 43) && is_ws(t[1])) || (1 <= d && d + 1
        < t.len() && t[d] == 46 && is_ws(t[d + 1]))
}

/// Three or more thematic bytes followed only by whitespace.
pub open spec fn is_thematic(t: Seq<u8>) -> bool {
    let k = run_end(t, 0, |b: u8| is_theme(b));
    k >= 3 && (forall|j: int| k <= j < t.len() ==> is_ws(#[trigger] t[j]))
}

/// An opening angle bracket that is not a comment opener.
pub open spec fn is_html_start(t: Seq<u8>) -> bool {
    t.len() > 0 && t[0] == 60 && !has_prefix(t, seq![60u8, 33u8, 45u8, 45u8])
}

/// The line holds `</` somewhere.
pub open spec fn has_close_tag(l: Seq<u8>) -> bool {
    contains_seq(l, seq![60u8, 47u8])
}

/// How one line moves the naive open/close tag counter.
pub open spec fn html_delta(l: Seq<u8>) -> int {
    if has_close_tag(l) {
        -1
    } else if contains_byte(l, 60) {
        1
    } else {
        0
    }
}

/// Length of the leading `#` run of a raw line.
pub open spec fn heading_marker_len(l: Seq<u8>) -> int {
    run_end(l, 0, |b: u8| b == 35)
}

/// One to six `#`, then at least one whitespace, then at least one byte.
pub open spec fn is_heading_line(l: Seq<u8>) -> bool {
    let k = heading_marker_len(l);
    1 <= k <= 6 && k + 2 <= l.len() && is_ws(l[k])
}

/// The heading as the model stores it: the marker, one space, and the text
/// after the separating whitespace run (the run's last byte is kept when
/// nothing else follows it).
pub open spec fn heading_text(l: Seq<u8>) -> Seq<u8> {
    let k = heading_marker_len(l);
    let m0 = run_end(l, k, |b: u8| is_ws(b));
    let m = if m0 <= l.len() - 1 {
        m0
    } else {
        l.len() - 1
    };
    l.subrange(0, k) + seq![32u8] + l.subrange(m, l.len() as int)
}

/// The fence-line text after the backticks, trimmed; empty becomes none.
pub open spec fn code_lang(l: Seq<u8>) -> Option<Seq<u8>> {
    let r = trim(l.subrange(run_end(l, 0, |b: u8| b == 96), l.len() as int));
    if r.len() == 0 {
        Option::None
    } else {
        Option::Some(r)
    }
}

// ------------------------------------------------------------------
// Block extents, one spec function per kind
// ------------------------------------------------------------------

/// Line index of the closing fence at or after `j`, or the line count.
pub open spec fn code_close_line(s: Seq<u8>, j: int) -> int
    decreases n_lines(s) - j
    when 0 <= j
{
    if j >= n_lines(s) {
        n_lines(s)
    } else if trim(line_at(s, j)) == fence_bytes() {
        j
    } else {
        code_close_line(s, j + 1)
    }
}

/// One past the last line of a table that starts at or continues through `j`:
/// lines with a pipe continue it, a blank line ends it inclusively, anything
/// else ends it exclusively.
pub open spec fn table_end_line(s: Seq<u8>, j: int) -> int
    decreases n_lines(s) - j
    when 0 <= j
{
    if j >= n_lines(s) {
        j
    } else if !contains_byte(line_at(s, j), 124) && !is_blank(line_at(s, j)) {
        j
    } else if is_blank(line_at(s, j)) {
        j + 1
    } else {
        table_end_line(s, j + 1)
    }
}

/// One past the last line of a block quote: lines starting with `>` or blank
/// continue it.
pub open spec fn quote_end_line(s: Seq<u8>, j: int) -> int
    decreases n_lines(s) - j
    when 0 <= j
{
    if j >= n_lines(s) {
        j
    } else if line_at(s, j).len() > 0 && line_at(s, j)[0] == 62 {
        quote_end_line(s, j + 1)
    } else if is_blank(line_at(s, j)) {
        quote_end_line(s, j + 1)
    } else {
        j
    }
}

/// A line that keeps a list going: another item, an indented continuation,
/// or a blank line.
pub open spec fn list_cont(l: Seq<u8>) -> bool {
    is_list_marker(trim(l)) || has_prefix(l, seq![32u8, 32u8]) || has_prefix(l, seq![9u8])
        || is_blank(l)
}

/// One past the last line of a list.
pub open spec fn list_end_line(s: Seq<u8>, j: int) -> int
    decreases n_lines(s) - j
    when 0 <= j
{
    if j >= n_lines(s) {
        j
    } else if list_cont(line_at(s, j)) {
        list_end_line(s, j + 1)
    } else {
        j
    }
}

/// One past the last line of a raw-markup block: it runs until a blank line
/// while the naive tag counter stands at zero.
pub open spec fn html_end_line(s: Seq<u8>, j: int, stack: int) -> int
    decreases n_lines(s) - j
    when 0 <= j
{
    if j >= n_lines(s) {
        j
    } else if is_blank(line_at(s, j)) && stack == 0 {
        j
    } else {
        html_end_line(s, j + 1, stack + html_delta(line_at(s, j)))
    }
}

/// A raw line that interrupts a paragraph.
pub open spec fn para_break(l: Seq<u8>) -> bool {
    has_prefix(l, fence_bytes()) || has_prefix(l, seq![35u8]) || has_prefix(l, seq![62u8])
        || is_list_marker(l) || is_thematic(l)
}

/// One past the last line of a paragraph.
pub open spec fn para_end_line(s: Seq<u8>, j: int) -> int
    decreases n_lines(s) - j
    when 0 <= j
{
    if j >= n_lines(s) {
        j
    } else if is_blank(line_at(s, j)) || para_break(line_at(s, j)) {
        j
    } else {
        para_end_line(s, j + 1)
    }
}

// ------------------------------------------------------------------
// The classifier
// ------------------------------------------------------------------

/// Classify the block that starts at line `i`, first match wins, or nothing
/// when the line is blank or no block forms there.  The second component is
/// the index of the block's last line.
pub open spec fn classify_at(s: Seq<u8>, i: int) -> Option<(BlockKind, int)> {
    let l = line_at(s, i);
    let t = trim(l);
    if is_blank(l) {
        Option::None
    } else if has_prefix(t, fence_bytes()) {
        let c = code_close_line(s, i + 1);
        let last = if c < n_lines(s) {
            c
        } else {
            n_lines(s) - 1
        };
        Option::Some((BlockKind::CodeBlock { lang: code_lang(l) }, last))
    } else if contains_byte(l, 124) {
        Option::Some((BlockKind::Table, table_end_line(s, i) - 1))
    } else if t.len() > 0 && t[0] == 62 {
        let q = quote_end_line(s, i);
        if q == i {
            Option::None
        } else {
            Option::Some((BlockKind::BlockQuote, q - 1))
        }
    } else if is_list_marker(t) {
        Option::Some((BlockKind::List { ordered: is_digit(t[0]) }, list_end_line(s, i) - 1))
    } else if is_html_start(t) {
        Option::Some((BlockKind::Html, html_end_line(s, i, 0) - 1))
    } else if is_thematic(t) {
        Option::Some((BlockKind::ThematicBreak, i))
    } else {
        let p = para_end_line(s, i);
        if p == i {
            Option::None
        } else {
            Option::Some((BlockKind::Paragraph, p - 1))
        }
    }
}

/// The block that covers lines `i..=last` of `s`.
pub open spec fn block_model_at(s: Seq<u8>, i: int, last: int, kind: BlockKind) -> BlockModel {
    BlockModel {
        start: lstart(s, i),
        end: lend(s, last),
        content: s.subrange(lstart(s, i), lend(s, last)),
        kind,
    }
}

pub proof fn lemma_code_close_bounds(s: Seq<u8>, j: int)
    requires
        0 <= j <= n_lines(s),
    ensures
        j <= code_close_line(s, j) <= n_lines(s),
    decreases n_lines(s) - j,
{
    if j < n_lines(s) && trim(line_at(s, j)) != fence_bytes() {
        lemma_code_close_bounds(s, j + 1);
    }
}

pub proof fn lemma_table_end_bounds(s: Seq<u8>, j: int)
    requires
        0 <= j <= n_lines(s),
    ensures
        j <= table_end_line(s, j) <= n_lines(s),
    decreases n_lines(s) - j,
{
    if j < n_lines(s) && contains_byte(line_at(s, j), 124) && !is_blank(line_at(s, j)) {
        lemma_table_end_bounds(s, j + 1);
    }
}

pub proof fn lemma_quote_end_bounds(s: Seq<u8>, j: int)
    requires
        0 <= j <= n_lines(s),
    ensures
        j <= quote_end_line(s, j) <= n_lines(s),
    decreases n_lines(s) - j,
{
    if j < n_lines(s) && ((line_at(s, j).len() > 0 && line_at(s, j)[0] == 62) || is_blank(
        line_at(s, j),
    )) {
        lemma_quote_end_bounds(s, j + 1);
    }
}

pub proof fn lemma_list_end_bounds(s: Seq<u8>, j: int)
    requires
        0 <= j <= n_lines(s),
    ensures
        j <= list_end_line(s, j) <= n_lines(s),
    decreases n_lines(s) - j,
{
    if j < n_lines(s) && list_cont(line_at(s, j)) {
        lemma_list_end_bounds(s, j + 1);
    }
}

pub proof fn lemma_html_end_bounds(s: Seq<u8>, j: int, stack: int)
    requires
        0 <= j <= n_lines(s),
    ensures
        j <= html_end_line(s, j, stack) <= n_lines(s),
    decreases n_lines(s) - j,
{
    if j < n_lines(s) && !(is_blank(line_at(s, j)) && stack == 0) {
        lemma_html_end_bounds(s, j + 1, stack + html_delta(line_at(s, j)));
    }
}

pub proof fn lemma_para_end_bounds(s: Seq<u8>, j: int)
    requires
        0 <= j <= n_lines(s),
    ensures
        j <= para_end_line(s, j) <= n_lines(s),
    decreases n_lines(s) - j,
{
    if j < n_lines(s) && !(is_blank(line_at(s, j)) || para_break(line_at(s, j))) {
        lemma_para_end_bounds(s, j + 1);
    }
}

/// A recognised block always covers at least its first line and ends inside
/// the document.
pub proof fn lemma_classify_bounds(s: Seq<u8>, i: int)
    requires
        0 <= i < n_lines(s),
    ensures
        match classify_at(s, i) {
            Option::Some(ck) => i <= ck.1 < n_lines(s),
            Option::None => true,
        },
{
    let l = line_at(s, i);
    let t = trim(l);
    if is_blank(l) {
    } else if has_prefix(t, fence_bytes()) {
        lemma_code_close_bounds(s, i + 1);
    } else if contains_byte(l, 124) {
        assert(!is_blank(l)) by {
            let w = choose|x: int| 0 <= x < l.len() && l[x] == 124;
            assert(!is_ws(l[w]));
        }
        assert(table_end_line(s, i) == table_end_line(s, i + 1));
        lemma_table_end_bounds(s, i + 1);
    } else if t.len() > 0 && t[0] == 62 {
        lemma_quote_end_bounds(s, i);
    } else if is_list_marker(t) {
        assert(list_end_line(s, i) == list_end_line(s, i + 1));
        lemma_list_end_bounds(s, i + 1);
    } else if is_html_start(t) {
        assert(!is_blank(l)) by {
            lemma_trim_not_blank(l);
        }
        assert(html_end_line(s, i, 0) == html_end_line(s, i + 1, html_delta(l)));
        lemma_html_end_bounds(s, i + 1, html_delta(l));
    } else if is_thematic(t) {
    } else {
        lemma_para_end_bounds(s, i);
    }
}

// ------------------------------------------------------------------
// The section builder, as a function of the text
// ------------------------------------------------------------------

/// The open section, flushed.
pub open spec fn flush(cur: Option<SectionModel>) -> Seq<SectionModel> {
    match cur {
        Option::Some(c) => seq![c],
        Option::None => Seq::empty(),
    }
}

/// View of an optional section.
pub open spec fn opt_view(c: Option<Section>) -> Option<SectionModel> {
    match c {
        Option::Some(sec) => Option::Some(sec@),
        Option::None => Option::None,
    }
}

/// The empty section a heading line opens.
pub open spec fn section_model_at(s: Seq<u8>, i: int) -> SectionModel {
    let l = line_at(s, i);
    SectionModel {
        heading: heading_text(l),
        heading_level: heading_marker_len(l),
        heading_start: lstart(s, i),
        heading_end: lend(s, i),
        blocks: Seq::empty(),
    }
}

/// The section with one more block.
pub open spec fn push_block(sec: SectionModel, b: BlockModel) -> SectionModel {
    SectionModel { blocks: sec.blocks.push(b), ..sec }
}

/// The sections of `s` from line `i` on, with `cur` the open section.  A
/// heading line closes the open section and opens a new one; other lines are
/// classified into the open section's blocks, or skipped when no section is
/// open or no block forms.
pub open spec fn sections_from(s: Seq<u8>, i: int, cur: Option<SectionModel>) -> Seq<SectionModel>
    decreases n_lines(s) - i
    when 0 <= i
    via sections_from_dec
{
    if i >= n_lines(s) {
        flush(cur)
    } else if is_heading_line(line_at(s, i)) {
        flush(cur) + sections_from(s, i + 1, Option::Some(section_model_at(s, i)))
    } else {
        match cur {
            Option::Some(sec) => match classify_at(s, i) {
                Option::None => sections_from(s, i + 1, Option::Some(sec)),
                Option::Some(ck) => sections_from(
                    s,
                    ck.1 + 1,
                    Option::Some(push_block(sec, block_model_at(s, i, ck.1, ck.0))),
                ),
            },
            Option::None => sections_from(s, i + 1, Option::None),
        }
    }
}

#[via_fn]
proof fn sections_from_dec(s: Seq<u8>, i: int, cur: Option<SectionModel>) {
    if 0 <= i && i < n_lines(s) {
        lemma_classify_bounds(s, i);
    }
}

/// The ordered sections of a whole document.
pub open spec fn parse_spec(s: Seq<u8>) -> Seq<SectionModel> {
    sections_from(s, 0, Option::None)
}

/// The facts about a span table that the parsing loops lean on.
pub proof fn lemma_spans_facts(s: Seq<u8>, sp: Seq<(usize, usize)>)
    requires
        spans_ok(s, sp),
    ensures
        sp.len() == n_lines(s),
        sp.len() <= s.len(),
        forall|k: int| 0 <= k < sp.len() ==> 0 <= (#[trigger] sp[k]).0 <= sp[k].1 <= s.len(),
        forall|k: int|
            0 <= k < sp.len() ==> (#[trigger] sp[k]).0 == lstart(s, k) && sp[k].1 == lend(s, k),
        forall|k1: int, k2: int|
            0 <= k1 <= k2 < sp.len() ==> (#[trigger] sp[k1]).0 <= (#[trigger] sp[k2]).1,
{
    lemma_line_spans_props(s);
    assert forall|k1: int, k2: int| 0 <= k1 <= k2 < sp.len() implies (#[trigger] sp[k1]).0
        <= (#[trigger] sp[k2]).1 by {
        assert(line_spans(s)[k1].0 <= line_spans(s)[k2].0);
        assert(line_spans(s)[k2].0 <= line_spans(s)[k2].1);
    }
}

// ------------------------------------------------------------------
// Executable line predicates
// ------------------------------------------------------------------

/// Whether the byte range `[a, b)` of `text` is a list-item marker.
fn is_list_marker_in(text: &[u8], a: usize, b: usize) -> (r: bool)
    requires
        a <= b <= text@.len(),
    ensures
        r == is_list_marker(text@.subrange(a as int, b as int)),
{
    let ghost t = text@.subrange(a as int, b as int);
    if b - a >= 2 {
        let c0 = *vstd::slice::slice_index_get(text, a);
        if c0 == 45 || c0 == 42 || c0 == 43 {
            let c1 = *vstd::slice::slice_index_get(text, a + 1);
            if c1 == 32 || (9 <= c1 && c1 <= 13) {
                proof {
                    assert(t[0] == c0 && t[1] == c1);
                }
                return true;
            }
        }
    }
    let mut d: usize = a;
    loop
        invariant
            a <= d <= b <= text@.len(),
            forall|k: int| a <= k < d ==> is_digit(#[trigger] text@[k]),
        ensures
            a <= d <= b,
            forall|k: int| a <= k < d ==> is_digit(#[trigger] text@[k]),
            d < b ==> !is_digit(text@[d as int]),
        decreases b - d,
    {
        if d >= b {
            break ;
        }
        let c = *vstd::slice::slice_index_get(text, d);
        if !(48 <= c && c <= 57) {
            break ;
        }
        d += 1;
    }
    proof {
        assert(forall|k: int| 0 <= k < t.len() ==> t[k] == text@[a + k]);
        lemma_run_end_unique(t, 0, |bb: u8| is_digit(bb), d - a);
    }
    if d > a && b - d > 1 {
        let cd = *vstd::slice::slice_index_get(text, d);
        if cd == 46 {
            let cw = *vstd::slice::slice_index_get(text, d + 1);
            if cw == 32 || (9 <= cw && cw <= 13) {
                proof {
                    assert(t[d - a] == cd && t[d - a + 1] == cw);
                }
                return true;
            }
        }
    }
    proof {
        if t.len() >= 2 {
            assert(t[0] == text@[a as int] && t[1] == text@[a + 1]);
        }
        if d - a >= 1 && d - a + 1 < t.len() {
            assert(t[d - a] == text@[d as int] && t[d - a + 1] == text@[d + 1]);
        }
    }
    false
}

/// Whether the byte range `[a, b)` of `text` is a thematic break.
fn is_thematic_in(text: &[u8], a: usize, b: usize) -> (r: bool)
    requires
        a <= b <= text@.len(),
    ensures
        r == is_thematic(text@.subrange(a as int, b as int)),
{
    let ghost t = text@.subrange(a as int, b as int);
    let mut d: usize = a;
    loop
        invariant
            a <= d <= b <= text@.len(),
            forall|k: int| a <= k < d ==> is_theme(#[trigger] text@[k]),
        ensures
            a <= d <= b,
            forall|k: int| a <= k < d ==> is_theme(#[trigger] text@[k]),
            d < b ==> !is_theme(text@[d as int]),
        decreases b - d,
    {
        if d >= b {
            break ;
        }
        let c = *vstd::slice::slice_index_get(text, d);
        if !(c == 45 || c == 42 || c == 95) {
            break ;
        }
        d += 1;
    }
    proof {
        assert(forall|k: int| 0 <= k < t.len() ==> t[k] == text@[a + k]);
        lemma_run_end_unique(t, 0, |bb: u8| is_theme(bb), d - a);
    }
    if d - a < 3 {
        return false;
    }
    let rest_blank = blank_in(text, d, b);
    proof {
        let rt = text@.subrange(d as int, b as int);
        assert(forall|k: int| 0 <= k < rt.len() ==> rt[k] == t[d - a + k]);
        if rest_blank {
            assert(forall|j: int| d - a <= j < t.len() ==> is_ws(#[trigger] t[j])) by {
                assert(forall|j: int|
                    d - a <= j < t.len() ==> t[j] == text@.subrange(d as int, b as int)[j - (d
                        - a)]);
            }
        } else {
            let w = choose|k: int| 0 <= k < rt.len() && !is_ws(rt[k]);
            assert(t[d - a + w] == rt[w]);
        }
    }
    rest_blank
}

// ------------------------------------------------------------------
// Executable block parsers, one per kind
// ------------------------------------------------------------------

/// Parse a table block starting at line `start`.
pub fn parse_table(text: &[u8], spans: &Vec<(usize, usize)>, start: usize) -> (r: (Block, usize))
    requires
        spans_ok(text@, spans@),
        start < spans@.len(),
        contains_byte(line_at(text@, start as int), 124),
        !is_blank(line_at(text@, start as int)),
    ensures
        ({
            let e = table_end_line(text@, start as int);
            &&& start < e <= spans@.len()
            &&& r.0@ == block_model_at(text@, start as int, e - 1, BlockKind::Table)
            &&& r.1 == e
        }),
{
    let n = spans.len();
    proof {
        lemma_spans_facts(text@, spans@);
        lemma_table_end_bounds(text@, start as int + 1);
        assert(table_end_line(text@, start as int) == table_end_line(text@, start as int + 1));
    }
    let mut j: usize = start + 1;
    loop
        invariant_except_break
            table_end_line(text@, start as int) == table_end_line(text@, j as int),
        invariant
            spans_ok(text@, spans@),
            n == spans@.len(),
            start + 1 <= j <= n,
        ensures
            start + 1 <= j <= n,
            j == table_end_line(text@, start as int),
        decreases n - j,
    {
        proof {
            lemma_spans_facts(text@, spans@);
        }
        if j >= n {
            proof {
                assert(table_end_line(text@, j as int) == j);
            }
            break ;
        }
        let p = spans[j];
        let blank = blank_in(text, p.0, p.1);
        let pipe = byte_in(text, p.0, p.1, 124);
        if !pipe && !blank {
            proof {
                assert(table_end_line(text@, j as int) == j);
            }
            break ;
        }
        if blank {
            proof {
                assert(table_end_line(text@, j as int) == j + 1);
            }
            j += 1;
            break ;
        }
        proof {
            assert(table_end_line(text@, j as int) == table_end_line(text@, j as int + 1));
        }
        j += 1;
    }
    let last = j - 1;
    proof {
        lemma_spans_facts(text@, spans@);
    }
    let a = spans[start].0;
    let e = spans[last].1;
    let content = subrange_vec(text, a, e);
    let blk = Block { start: a, end: e, content, block_type: BlockType::Table };
    proof {
        assert(blk@ =~= block_model_at(text@, start as int, last as int, BlockKind::Table));
    }
    (blk, j)
}

/// Parse a block quote starting at line `start`; nothing is produced when
/// even the first raw line fails the quote test.
pub fn parse_block_quote(text: &[u8], spans: &Vec<(usize, usize)>, start: usize) -> (r: Option<
    (Block, usize),
>)
    requires
        spans_ok(text@, spans@),
        start < spans@.len(),
    ensures
        ({
            let q = quote_end_line(text@, start as int);
            match r {
                Option::Some(pair) => start < q <= spans@.len() && pair.0@ == block_model_at(
                    text@,
                    start as int,
                    q - 1,
                    BlockKind::BlockQuote,
                ) && pair.1 == q,
                Option::None => q == start,
            }
        }),
{
    let n = spans.len();
    proof {
        lemma_spans_facts(text@, spans@);
    }
    let mut j: usize = start;
    loop
        invariant
            spans_ok(text@, spans@),
            n == spans@.len(),
            start <= j <= n,
            quote_end_line(text@, start as int) == quote_end_line(text@, j as int),
        ensures
            start <= j <= n,
            j == quote_end_line(text@, start as int),
        decreases n - j,
    {
        proof {
            lemma_spans_facts(text@, spans@);
        }
        if j >= n {
            proof {
                assert(quote_end_line(text@, j as int) == j);
            }
            break ;
        }
        let p = spans[j];
        let starts_quote = if p.0 < p.1 {
            *vstd::slice::slice_index_get(text, p.0) == 62
        } else {
            false
        };
        proof {
            if p.0 < p.1 {
                assert(line_at(text@, j as int)[0] == text@[p.0 as int]);
            }
        }
        if !starts_quote {
            let blank = blank_in(text, p.0, p.1);
            if !blank {
                proof {
                    assert(quote_end_line(text@, j as int) == j);
                }
                break ;
            }
        }
        proof {
            assert(quote_end_line(text@, j as int) == quote_end_line(text@, j as int + 1));
        }
        j += 1;
    }
    if j == start {
        return Option::None;
    }
    let last = j - 1;
    proof {
        lemma_spans_facts(text@, spans@);
    }
    let a = spans[start].0;
    let e = spans[last].1;
    let content = subrange_vec(text, a, e);
    let blk = Block { start: a, end: e, content, block_type: BlockType::BlockQuote };
    proof {
        assert(blk@ =~= block_model_at(text@, start as int, last as int, BlockKind::BlockQuote));
    }
    Option::Some((blk, j))
}

/// Parse a list starting at line `start`, whose trimmed first line must be a
/// list-item marker; `ordered` is read off that first marker.
pub fn parse_list(text: &[u8], spans: &Vec<(usize, usize)>, start: usize) -> (r: (Block, usize))
    requires
        spans_ok(text@, spans@),
        start < spans@.len(),
        is_list_marker(trim(line_at(text@, start as int))),
    ensures
        ({
            let e = list_end_line(text@, start as int);
            let ord = is_digit(trim(line_at(text@, start as int))[0]);
            &&& start < e <= spans@.len()
            &&& r.0@ == block_model_at(text@, start as int, e - 1, BlockKind::List { ordered: ord })
            &&& r.1 == e
        }),
{
    let n = spans.len();
    proof {
        lemma_spans_facts(text@, spans@);
        lemma_list_end_bounds(text@, start as int + 1);
        assert(list_cont(line_at(text@, start as int)));
        assert(list_end_line(text@, start as int) == list_end_line(text@, start as int + 1));
    }
    let p0 = spans[start];
    let t0 = trim_in(text, p0.0, p0.1);
    proof {
        let tl = trim(line_at(text@, start as int));
        assert(tl.len() >= 2);
        assert(tl[0] == text@[t0.0 as int]);
    }
    let ordered = {
        let c = *vstd::slice::slice_index_get(text, t0.0);
        48 <= c && c <= 57
    };
    let mut pat_ind: Vec<u8> = Vec::new();
    pat_ind.push(32);
    pat_ind.push(32);
    let mut pat_tab: Vec<u8> = Vec::new();
    pat_tab.push(9);
    proof {
        assert(pat_ind@ =~= seq![32u8, 32u8]);
        assert(pat_tab@ =~= seq![9u8]);
    }
    let mut j: usize = start + 1;
    loop
        invariant
            spans_ok(text@, spans@),
            n == spans@.len(),
            start + 1 <= j <= n,
            pat_ind@ == seq![32u8, 32u8],
            pat_tab@ == seq![9u8],
            list_end_line(text@, start as int) == list_end_line(text@, j as int),
        ensures
            start + 1 <= j <= n,
            j == list_end_line(text@, start as int),
        decreases n - j,
    {
        proof {
            lemma_spans_facts(text@, spans@);
        }
        if j >= n {
            proof {
                assert(list_end_line(text@, j as int) == j);
            }
            break ;
        }
        let p = spans[j];
        let t = trim_in(text, p.0, p.1);
        let item = is_list_marker_in(text, t.0, t.1);
        let ind2 = prefix_in(text, p.0, p.1, pat_ind.as_slice());
        let indt = prefix_in(text, p.0, p.1, pat_tab.as_slice());
        let blank = blank_in(text, p.0, p.1);
        let cont = item || ind2 || indt || blank;
        proof {
            assert(cont == list_cont(line_at(text@, j as int)));
        }
        if !cont {
            proof {
                assert(list_end_line(text@, j as int) == j);
            }
            break ;
        }
        proof {
            assert(list_end_line(text@, j as int) == list_end_line(text@, j as int + 1));
        }
        j += 1;
    }
    let last = j - 1;
    proof {
        lemma_spans_facts(text@, spans@);
    }
    let a = spans[start].0;
    let e = spans[last].1;
    let content = subrange_vec(text, a, e);
    let blk = Block { start: a, end: e, content, block_type: BlockType::List { ordered } };
    proof {
        assert(blk@ =~= block_model_at(
            text@,
            start as int,
            last as int,
            BlockKind::List { ordered: is_digit(trim(line_at(text@, start as int))[0]) },
        ));
    }
    (blk, j)
}

/// Parse a fenced code block starting at line `start`: consume until a line
/// whose trimmed form is exactly the closing fence, or to end of input.
pub fn parse_code_block(text: &[u8], spans: &Vec<(usize, usize)>, start: usize) -> (r: (
    Block,
    usize,
))
    requires
        spans_ok(text@, spans@),
        start < spans@.len(),
        has_prefix(trim(line_at(text@, start as int)), fence_bytes()),
    ensures
        ({
            let c = code_close_line(text@, start as int + 1);
            let last = if c < n_lines(text@) {
                c
            } else {
                n_lines(text@) - 1
            };
            &&& start <= last < spans@.len()
            &&& r.0@ == block_model_at(
                text@,
                start as int,
                last,
                BlockKind::CodeBlock { lang: code_lang(line_at(text@, start as int)) },
            )
            &&& r.1 == last + 1
        }),
{
    let n = spans.len();
    proof {
        lemma_spans_facts(text@, spans@);
    }
    let p0 = spans[start];
    let a = p0.0;
    let b = p0.1;
    let ghost l0 = line_at(text@, start as int);
    proof {
        assert(forall|k: int| 0 <= k < l0.len() ==> l0[k] == text@[a + k]);
    }
    // the language tag: the raw first line past its backtick run, trimmed
    let mut g: usize = a;
    loop
        invariant
            a <= g <= b <= text@.len(),
            forall|k: int| a <= k < g ==> text@[k] == 96,
        ensures
            a <= g <= b,
            forall|k: int| a <= k < g ==> text@[k] == 96,
            g < b ==> text@[g as int] != 96,
        decreases b - g,
    {
        if g >= b {
            break ;
        }
        if *vstd::slice::slice_index_get(text, g) != 96 {
            break ;
        }
        g += 1;
    }
    proof {
        lemma_run_end_unique(l0, 0, |bb: u8| bb == 96, g - a);
    }
    let lt = trim_in(text, g, b);
    proof {
        assert(l0.subrange(g - a, l0.len() as int) =~= text@.subrange(g as int, b as int));
    }
    let lang: Option<Vec<u8>>;
    if lt.0 == lt.1 {
        proof {
            assert(code_lang(l0) is None);
        }
        lang = Option::None;
    } else {
        let v = subrange_vec(text, lt.0, lt.1);
        proof {
            assert(code_lang(l0) == Option::Some(v@));
        }
        lang = Option::Some(v);
    }
    // find the closing fence
    let mut j: usize = start + 1;
    loop
        invariant_except_break
            code_close_line(text@, start as int + 1) == code_close_line(text@, j as int),
        invariant
            spans_ok(text@, spans@),
            n == spans@.len(),
            start + 1 <= j <= n,
        ensures
            start + 1 <= j <= n,
            code_close_line(text@, start as int + 1) == (if (j as int) < n_lines(text@) {
                j as int
            } else {
                n_lines(text@)
            }),
        decreases n - j,
    {
        proof {
            lemma_spans_facts(text@, spans@);
        }
        if j >= n {
            proof {
                assert(code_close_line(text@, j as int) == n_lines(text@));
            }
            break ;
        }
        let p = spans[j];
        let t = trim_in(text, p.0, p.1);
        let mut close = false;
        if t.1 - t.0 == 3 {
            let c0 = *vstd::slice::slice_index_get(text, t.0);
            let c1 = *vstd::slice::slice_index_get(text, t.0 + 1);
            let c2 = *vstd::slice::slice_index_get(text, t.0 + 2);
            close = c0 == 96 && c1 == 96 && c2 == 96;
        }
        proof {
            let tl = trim(line_at(text@, j as int));
            assert(tl == text@.subrange(t.0 as int, t.1 as int));
            if close {
                assert(tl =~= fence_bytes());
            } else {
                if tl.len() == 3 {
                    assert(tl[0] == text@[t.0 as int] && tl[1] == text@[t.0 + 1] && tl[2]
                        == text@[t.0 + 2]);
                    assert(tl != fence_bytes());
                } else {
                    assert(tl != fence_bytes());
                }
            }
        }
        if close {
            proof {
                assert(code_close_line(text@, j as int) == j);
            }
            break ;
        }
        proof {
            assert(code_close_line(text@, j as int) == code_close_line(text@, j as int + 1));
        }
        j += 1;
    }
    let last = if j < n {
        j
    } else {
        n - 1
    };
    proof {
        lemma_spans_facts(text@, spans@);
    }
    let e = spans[last].1;
    let content = subrange_vec(text, a, e);
    let blk = Block { start: a, end: e, content, block_type: BlockType::CodeBlock { lang } };
    proof {
        assert(blk@ =~= block_model_at(
            text@,
            start as int,
            last as int,
            BlockKind::CodeBlock { lang: code_lang(l0) },
        ));
    }
    (blk, if j < n {
        j + 1
    } else {
        n
    })
}

/// Parse a raw-markup block starting at line `start`, with the naive
/// open/close tag counter.
pub fn parse_html_block(text: &[u8], spans: &Vec<(usize, usize)>, start: usize) -> (r: (
    Block,
    usize,
))
    requires
        spans_ok(text@, spans@),
        start < spans@.len(),
        !is_blank(line_at(text@, start as int)),
    ensures
        ({
            let e = html_end_line(text@, start as int, 0);
            &&& start < e <= spans@.len()
            &&& r.0@ == block_model_at(text@, start as int, e - 1, BlockKind::Html)
            &&& r.1 == e
        }),
{
    let n = spans.len();
    proof {
        lemma_spans_facts(text@, spans@);
        lemma_html_end_bounds(text@, start as int, 0);
    }
    let mut pat_close: Vec<u8> = Vec::new();
    pat_close.push(60);
    pat_close.push(47);
    proof {
        assert(pat_close@ =~= seq![60u8, 47u8]);
    }
    let mut stack: i128 = 0;
    let mut j: usize = start;
    loop
        invariant_except_break
            html_end_line(text@, start as int, 0) == html_end_line(
                text@,
                j as int,
                stack as int,
            ),
        invariant
            spans_ok(text@, spans@),
            n == spans@.len(),
            start <= j <= n,
            pat_close@ == seq![60u8, 47u8],
            -(j - start) <= stack as int <= j - start,
        ensures
            start <= j <= n,
            j == html_end_line(text@, start as int, 0),
        decreases n - j,
    {
        proof {
            lemma_spans_facts(text@, spans@);
        }
        if j >= n {
            proof {
                assert(html_end_line(text@, j as int, stack as int) == j);
            }
            break ;
        }
        let p = spans[j];
        let blank = blank_in(text, p.0, p.1);
        if blank && stack == 0 {
            proof {
                assert(html_end_line(text@, j as int, stack as int) == j);
            }
            break ;
        }
        let close = find_sub(text, p.0, p.1, pat_close.as_slice());
        let open_lt = byte_in(text, p.0, p.1, 60);
        let d: i128 = if close {
            -1
        } else if open_lt {
            1
        } else {
            0
        };
        proof {
            assert(d as int == html_delta(line_at(text@, j as int)));
            assert(html_end_line(text@, j as int, stack as int) == html_end_line(
                text@,
                j as int + 1,
                stack as int + d as int,
            ));
        }
        stack = stack + d;
        j += 1;
    }
    proof {
        assert(j > start) by {
            if j == start {
                assert(html_end_line(text@, start as int, 0) == html_end_line(
                    text@,
                    start as int + 1,
                    html_delta(line_at(text@, start as int)),
                ));
                lemma_html_end_bounds(
                    text@,
                    start as int + 1,
                    html_delta(line_at(text@, start as int)),
                );
            }
        }
        lemma_spans_facts(text@, spans@);
    }
    let last = j - 1;
    let a = spans[start].0;
    let e = spans[last].1;
    let content = subrange_vec(text, a, e);
    let blk = Block { start: a, end: e, content, block_type: BlockType::Html };
    proof {
        assert(blk@ =~= block_model_at(text@, start as int, last as int, BlockKind::Html));
    }
    (blk, j)
}

/// Parse a paragraph starting at line `start`: contiguous lines until a
/// blank line or a line that would start another block kind.  Nothing is
/// produced when even the first line breaks the paragraph.
pub fn parse_paragraph(text: &[u8], spans: &Vec<(usize, usize)>, start: usize) -> (r: Option<
    (Block, usize),
>)
    requires
        spans_ok(text@, spans@),
        start < spans@.len(),
    ensures
        ({
            let p = para_end_line(text@, start as int);
            match r {
                Option::Some(pair) => start < p <= spans@.len() && pair.0@ == block_model_at(
                    text@,
                    start as int,
                    p - 1,
                    BlockKind::Paragraph,
                ) && pair.1 == p,
                Option::None => p == start,
            }
        }),
{
    let n = spans.len();
    proof {
        lemma_spans_facts(text@, spans@);
    }
    let mut pat_fence: Vec<u8> = Vec::new();
    pat_fence.push(96);
    pat_fence.push(96);
    pat_fence.push(96);
    let mut pat_hash: Vec<u8> = Vec::new();
    pat_hash.push(35);
    let mut pat_quote: Vec<u8> = Vec::new();
    pat_quote.push(62);
    proof {
        assert(pat_fence@ =~= fence_bytes());
        assert(pat_hash@ =~= seq![35u8]);
        assert(pat_quote@ =~= seq![62u8]);
    }
    let mut j: usize = start;
    loop
        invariant
            spans_ok(text@, spans@),
            n == spans@.len(),
            start <= j <= n,
            pat_fence@ == fence_bytes(),
            pat_hash@ == seq![35u8],
            pat_quote@ == seq![62u8],
            para_end_line(text@, start as int) == para_end_line(text@, j as int),
        ensures
            start <= j <= n,
            j == para_end_line(text@, start as int),
        decreases n - j,
    {
        proof {
            lemma_spans_facts(text@, spans@);
        }
        if j >= n {
            proof {
                assert(para_end_line(text@, j as int) == j);
            }
            break ;
        }
        let p = spans[j];
        let blank = blank_in(text, p.0, p.1);
        let brk = if blank {
            true
        } else if prefix_in(text, p.0, p.1, pat_fence.as_slice()) {
            true
        } else if prefix_in(text, p.0, p.1, pat_hash.as_slice()) {
            true
        } else if prefix_in(text, p.0, p.1, pat_quote.as_slice()) {
            true
        } else if is_list_marker_in(text, p.0, p.1) {
            true
        } else {
            is_thematic_in(text, p.0, p.1)
        };
        proof {
            assert(brk == (is_blank(line_at(text@, j as int)) || para_break(
                line_at(text@, j as int),
            )));
        }
        if brk {
            proof {
                assert(para_end_line(text@, j as int) == j);
            }
            break ;
        }
        proof {
            assert(para_end_line(text@, j as int) == para_end_line(text@, j as int + 1));
        }
        j += 1;
    }
    if j == start {
        return Option::None;
    }
    let last = j - 1;
    proof {
        lemma_spans_facts(text@, spans@);
    }
    let a = spans[start].0;
    let e = spans[last].1;
    let content = subrange_vec(text, a, e);
    let blk = Block { start: a, end: e, content, block_type: BlockType::Paragraph };
    proof {
        assert(blk@ =~= block_model_at(text@, start as int, last as int, BlockKind::Paragraph));
    }
    Option::Some((blk, j))
}

/// Recognise a heading line over the byte range `[a, b)` of `text` and open
/// its empty section.
pub fn parse_heading_line(text: &[u8], a: usize, b: usize) -> (r: Option<Section>)
    requires
        a <= b <= text@.len(),
    ensures
        ({
            let l = text@.subrange(a as int, b as int);
            match r {
                Option::Some(sec) => is_heading_line(l) && sec@ == (SectionModel {
                    heading: heading_text(l),
                    heading_level: heading_marker_len(l),
                    heading_start: a as int,
                    heading_end: b as int,
                    blocks: Seq::empty(),
                }),
                Option::None => !is_heading_line(l),
            }
        }),
{
    let ghost l = text@.subrange(a as int, b as int);
    proof {
        assert(forall|k: int| 0 <= k < l.len() ==> l[k] == text@[a + k]);
    }
    let mut h: usize = a;
    loop
        invariant
            a <= h <= b <= text@.len(),
            forall|k: int| a <= k < h ==> text@[k] == 35,
        ensures
            a <= h <= b,
            forall|k: int| a <= k < h ==> text@[k] == 35,
            h < b ==> text@[h as int] != 35,
        decreases b - h,
    {
        if h >= b {
            break ;
        }
        if *vstd::slice::slice_index_get(text, h) != 35 {
            break ;
        }
        h += 1;
    }
    proof {
        lemma_run_end_unique(l, 0, |bb: u8| bb == 35, h - a);
    }
    let k = h - a;
    if k < 1 || k > 6 || b - h < 2 {
        return Option::None;
    }
    let cs = *vstd::slice::slice_index_get(text, h);
    if !(cs == 32 || (9 <= cs && cs <= 13)) {
        proof {
            assert(l[h - a] == cs);
        }
        return Option::None;
    }
    let mut m: usize = h;
    loop
        invariant
            h <= m <= b <= text@.len(),
            forall|k2: int| h <= k2 < m ==> is_ws(#[trigger] text@[k2]),
        ensures
            h <= m <= b,
            forall|k2: int| h <= k2 < m ==> is_ws(#[trigger] text@[k2]),
            m < b ==> !is_ws(text@[m as int]),
        decreases b - m,
    {
        if m >= b {
            break ;
        }
        let c = *vstd::slice::slice_index_get(text, m);
        if !(c == 32 || (9 <= c && c <= 13)) {
            break ;
        }
        m += 1;
    }
    proof {
        lemma_run_end_unique(l, h - a, |bb: u8| is_ws(bb), m - a);
    }
    let m2 = if m <= b - 1 {
        m
    } else {
        b - 1
    };
    let mut heading = subrange_vec(text, a, h);
    heading.push(32);
    let mut tail = subrange_vec(text, m2, b);
    heading.append(&mut tail);
    proof {
        assert(l.subrange(0, k as int) =~= text@.subrange(a as int, h as int));
        assert(l.subrange(m2 - a, l.len() as int) =~= text@.subrange(m2 as int, b as int));
        assert(heading@ =~= heading_text(l));
    }
    let blocks: Vec<Block> = Vec::new();
    proof {
        assert(blocks@.map_values(|bb: Block| bb@) =~= Seq::<BlockModel>::empty());
    }
    Option::Some(
        Section { heading, heading_level: k as u8, heading_start: a, heading_end: b, blocks },
    )
}

/// Classify and parse the block starting at line `start`; first match wins,
/// and nothing is produced on a blank line or when no block forms.
pub fn parse_block(text: &[u8], spans: &Vec<(usize, usize)>, start: usize) -> (r: Option<
    (Block, usize),
>)
    requires
        spans_ok(text@, spans@),
        start < spans@.len(),
    ensures
        ({
            match (r, classify_at(text@, start as int)) {
                (Option::Some(pair), Option::Some(ck)) => pair.0@ == block_model_at(
                    text@,
                    start as int,
                    ck.1,
                    ck.0,
                ) && pair.1 == ck.1 + 1 && start <= ck.1 < spans@.len(),
                (Option::None, Option::None) => true,
                _ => false,
            }
        }),
{
    let ghost s = text@;
    let nn = spans.len();
    proof {
        lemma_spans_facts(s, spans@);
        lemma_classify_bounds(s, start as int);
        assert(start < nn);
    }
    let p = spans[start];
    let a = p.0;
    let b = p.1;
    let ghost l = line_at(s, start as int);
    proof {
        assert(l == s.subrange(a as int, b as int));
    }
    let t = trim_in(text, a, b);
    if t.0 == t.1 {
        return Option::None;
    }
    let ghost tl = trim(l);
    proof {
        assert(tl == s.subrange(t.0 as int, t.1 as int));
        assert(tl.len() > 0);
        lemma_trim_not_blank(l);
    }
    let mut pat_fence: Vec<u8> = Vec::new();
    pat_fence.push(96);
    pat_fence.push(96);
    pat_fence.push(96);
    proof {
        assert(pat_fence@ =~= fence_bytes());
    }
    if prefix_in(text, t.0, t.1, pat_fence.as_slice()) {
        let br = parse_code_block(text, spans, start);
        return Option::Some(br);
    }
    if byte_in(text, a, b, 124) {
        let br = parse_table(text, spans, start);
        return Option::Some(br);
    }
    let c0 = *vstd::slice::slice_index_get(text, t.0);
    proof {
        assert(tl[0] == c0);
    }
    if c0 == 62 {
        let br = parse_block_quote(text, spans, start);
        return br;
    }
    if is_list_marker_in(text, t.0, t.1) {
        let br = parse_list(text, spans, start);
        return Option::Some(br);
    }
    if c0 == 60 {
        let mut pat_cm: Vec<u8> = Vec::new();
        pat_cm.push(60);
        pat_cm.push(33);
        pat_cm.push(45);
        pat_cm.push(45);
        proof {
            assert(pat_cm@ =~= seq![60u8, 33u8, 45u8, 45u8]);
        }
        if !prefix_in(text, t.0, t.1, pat_cm.as_slice()) {
            proof {
                assert(is_html_start(tl));
            }
            let br = parse_html_block(text, spans, start);
            return Option::Some(br);
        }
    }
    if is_thematic_in(text, t.0, t.1) {
        let e = p.1;
        let content = subrange_vec(text, a, e);
        let blk = Block { start: a, end: e, content, block_type: BlockType::ThematicBreak };
        proof {
            assert(blk@ =~= block_model_at(s, start as int, start as int, BlockKind::ThematicBreak));
        }
        return Option::Some((blk, start + 1));
    }
    let br = parse_paragraph(text, spans, start);
    br
}

/// Segment a whole document into its ordered sections.  Lines before the
/// first heading belong to no section and are dropped from the model.
pub fn parse_sections(text: &[u8]) -> (r: Result<Vec<Section>, PatchError>)
    ensures
        match r {
            Result::Ok(secs) => secs_view(secs@) == parse_spec(text@),
            Result::Err(_) => false,
        },
{
    let ghost s = text@;
    let spans = split_lines(text);
    let n = spans.len();
    let mut sections: Vec<Section> = Vec::new();
    let mut current: Option<Section> = Option::None;
    let mut i: usize = 0;
    proof {
        assert(secs_view(sections@) =~= Seq::<SectionModel>::empty());
        assert(parse_spec(s) == secs_view(sections@) + sections_from(s, 0, opt_view(current)));
    }
    while i < n
        invariant
            spans_ok(s, spans@),
            text@ == s,
            n == spans@.len(),
            0 <= i <= n,
            parse_spec(s) == secs_view(sections@) + sections_from(s, i as int, opt_view(current)),
        decreases n - i,
    {
        proof {
            lemma_spans_facts(s, spans@);
        }
        let p = spans[i];
        let ghost l = line_at(s, i as int);
        proof {
            assert(l == s.subrange(p.0 as int, p.1 as int));
        }
        match parse_heading_line(text, p.0, p.1) {
            Option::Some(sec) => {
                let ghost prev = opt_view(current);
                let ghost secsv = secs_view(sections@);
                proof {
                    assert(sections_from(s, i as int, prev) == flush(prev) + sections_from(
                        s,
                        i as int + 1,
                        Option::Some(section_model_at(s, i as int)),
                    ));
                    assert(sec@ =~= section_model_at(s, i as int));
                }
                let prev_sec = current;
                current = Option::Some(sec);
                match prev_sec {
                    Option::Some(ps) => {
                        sections.push(ps);
                        proof {
                            assert(secs_view(sections@) =~= secsv.push(ps@));
                            assert(secsv.push(ps@) =~= secsv + flush(prev));
                        }
                    },
                    Option::None => {
                        proof {
                            assert(secsv + flush(prev) =~= secsv);
                        }
                    },
                }
                proof {
                    assert(secs_view(sections@) + sections_from(
                        s,
                        i as int + 1,
                        opt_view(current),
                    ) =~= (secsv + flush(prev)) + sections_from(s, i as int + 1, opt_view(current)));
                }
                i += 1;
            },
            Option::None => {
                let cur0 = current;
                match cur0 {
                    Option::Some(mut sec) => {
                        let ghost secm = sec@;
                        match parse_block(text, &spans, i) {
                            Option::Some(pair) => {
                                let blk = pair.0;
                                let next = pair.1;
                                let ghost ck = classify_at(s, i as int);
                                proof {
                                    assert(sections_from(s, i as int, Option::Some(secm))
                                        == sections_from(
                                        s,
                                        ck->Some_0.1 + 1,
                                        Option::Some(
                                            push_block(
                                                secm,
                                                block_model_at(
                                                    s,
                                                    i as int,
                                                    ck->Some_0.1,
                                                    ck->Some_0.0,
                                                ),
                                            ),
                                        ),
                                    ));
                                }
                                sec.blocks.push(blk);
                                proof {
                                    assert(sec@.blocks =~= secm.blocks.push(blk@));
                                    assert(sec@ =~= push_block(
                                        secm,
                                        block_model_at(s, i as int, ck->Some_0.1, ck->Some_0.0),
                                    ));
                                }
                                current = Option::Some(sec);
                                i = next;
                            },
                            Option::None => {
                                proof {
                                    assert(sections_from(s, i as int, Option::Some(secm))
                                        == sections_from(s, i as int + 1, Option::Some(secm)));
                                }
                                current = Option::Some(sec);
                                i += 1;
                            },
                        }
                    },
                    Option::None => {
                        proof {
                            assert(sections_from(s, i as int, Option::None)
                                == sections_from(s, i as int + 1, Option::None));
                        }
                        current = Option::None;
                        i += 1;
                    },
                }
            },
        }
    }
    let ghost secsv = secs_view(sections@);
    let ghost curv = opt_view(current);
    proof {
        assert(sections_from(s, i as int, curv) == flush(curv));
    }
    match current {
        Option::Some(sec) => {
            sections.push(sec);
            proof {
                assert(secs_view(sections@) =~= secsv + flush(curv));
            }
        },
        Option::None => {
            proof {
                assert(secs_view(sections@) =~= secsv + flush(curv));
            }
        },
    }
    Result::Ok(sections)
}

// ------------------------------------------------------------------
// Heading-path resolution
// ------------------------------------------------------------------

/// Views of a heading path.
pub open spec fn path_view(p: Seq<Vec<u8>>) -> Seq<Seq<u8>> {
    p.map_values(|e: Vec<u8>| e@)
}

/// A section answers to a heading string when the trimmed forms agree.
pub open spec fn sec_matches(sec: SectionModel, h: Seq<u8>) -> bool {
    trim(sec.heading) == h
}

/// How many of the first `i` sections match `h`.
pub open spec fn match_count_to(secs: Seq<SectionModel>, h: Seq<u8>, i: int) -> int
    decreases i
    when i >= 0
{
    if i <= 0 {
        0
    } else {
        match_count_to(secs, h, i - 1) + (if sec_matches(secs[i - 1], h) {
            1int
        } else {
            0int
        })
    }
}

/// How many sections match `h`.
pub open spec fn match_count(secs: Seq<SectionModel>, h: Seq<u8>) -> int {
    match_count_to(secs, h, secs.len() as int)
}

/// Index of the first section at or after `i` matching `h`, or the length.
pub open spec fn first_match_from(secs: Seq<SectionModel>, h: Seq<u8>, i: int) -> int
    decreases secs.len() - i
    when 0 <= i
{
    if i >= secs.len() {
        secs.len() as int
    } else if sec_matches(secs[i], h) {
        i
    } else {
        first_match_from(secs, h, i + 1)
    }
}

/// Scan forward for `target`, stopping (exclusively) at the first section
/// whose level leaves the enclosing scope.
pub open spec fn scope_scan(secs: Seq<SectionModel>, i: int, target: Seq<u8>, top: int) -> Option<
    int,
>
    decreases secs.len() - i
    when 0 <= i
{
    if i >= secs.len() {
        Option::None
    } else if secs[i].heading_level <= top {
        Option::None
    } else if sec_matches(secs[i], target) {
        Option::Some(i)
    } else {
        scope_scan(secs, i + 1, target, top)
    }
}

/// Resolve the path elements after the anchor, each by a scoped forward
/// scan from just past the previously resolved section.
pub open spec fn resolve_rest(
    secs: Seq<SectionModel>,
    path: Seq<Seq<u8>>,
    k: int,
    cur: int,
    top: int,
) -> Result<int, PatchErrorModel>
    decreases path.len() - k
    when 0 <= cur
{
    if k >= path.len() {
        Result::Ok(cur)
    } else {
        match scope_scan(secs, cur + 1, trim(path[k]), top) {
            Option::Some(idx) => resolve_rest(secs, path, k + 1, idx, top),
            Option::None => Result::Err(
                PatchErrorModel::SubheadingNotFound { heading: trim(path[k]) },
            ),
        }
    }
}

/// Resolve a heading path to the index of exactly one section.  The first
/// element must match exactly one section — ambiguity at the top level is an
/// error even for nested paths, by design — and each further element is
/// found by a scoped linear scan, not a tree search.
pub open spec fn resolve_path(secs: Seq<SectionModel>, path: Seq<Seq<u8>>) -> Result<
    int,
    PatchErrorModel,
> {
    if path.len() == 0 {
        Result::Err(PatchErrorModel::EmptyHeadingPath)
    } else {
        let h0 = trim(path[0]);
        if match_count(secs, h0) == 0 {
            Result::Err(PatchErrorModel::HeadingNotFound { heading: h0 })
        } else if match_count(secs, h0) > 1 {
            Result::Err(PatchErrorModel::AmbiguousHeading { heading: h0 })
        } else {
            let anchor = first_match_from(secs, h0, 0);
            resolve_rest(secs, path, 1, anchor, secs[anchor].heading_level)
        }
    }
}

pub proof fn lemma_first_match_bounds(secs: Seq<SectionModel>, h: Seq<u8>, i: int)
    requires
        0 <= i <= secs.len(),
    ensures
        i <= first_match_from(secs, h, i) <= secs.len(),
        first_match_from(secs, h, i) < secs.len() ==> sec_matches(
            secs[first_match_from(secs, h, i)],
            h,
        ),
    decreases secs.len() - i,
{
    if i < secs.len() && !sec_matches(secs[i], h) {
        lemma_first_match_bounds(secs, h, i + 1);
    }
}

/// With at least one match among the first `i` sections, the first match
/// stands before `i`.
pub proof fn lemma_match_count_first(secs: Seq<SectionModel>, h: Seq<u8>, i: int)
    requires
        0 <= i <= secs.len(),
        match_count_to(secs, h, i) > 0,
    ensures
        first_match_from(secs, h, 0) < i,
    decreases i,
{
    if i > 0 {
        if match_count_to(secs, h, i - 1) > 0 {
            lemma_match_count_first(secs, h, i - 1);
        } else {
            assert(sec_matches(secs[i - 1], h));
            lemma_first_match_stops(secs, h, 0, i - 1);
        }
    }
}

pub proof fn lemma_first_match_stops(secs: Seq<SectionModel>, h: Seq<u8>, i: int, w: int)
    requires
        0 <= i <= w < secs.len(),
        sec_matches(secs[w], h),
    ensures
        first_match_from(secs, h, i) <= w,
    decreases secs.len() - i,
{
    if i < secs.len() && !sec_matches(secs[i], h) {
        lemma_first_match_stops(secs, h, i + 1, w);
    }
}

/// Whether the trimmed heading of `sec` equals the byte range `[ts, te)` of
/// `target`.
fn sec_matches_in(sec: &Section, target: &[u8], ts: usize, te: usize) -> (r: bool)
    requires
        ts <= te <= target@.len(),
    ensures
        r == sec_matches(sec@, target@.subrange(ts as int, te as int)),
{
    proof {
        assert(sec.heading@.subrange(0, sec.heading@.len() as int) =~= sec.heading@);
    }
    let hb = trim_in(sec.heading.as_slice(), 0, sec.heading.len());
    let a = vstd::slice::slice_subrange(sec.heading.as_slice(), hb.0, hb.1);
    let b = vstd::slice::slice_subrange(target, ts, te);
    bytes_eq(a, b)
}

/// Find the single section a heading path addresses.
///
/// A one-element path must match exactly one section; with several matches
/// the path is ambiguous and a nested path is needed.  For a nested path the
/// first element is resolved the same way, and each further element is
/// looked for in document order strictly inside the anchor's scope: a
/// section whose level is at or above the anchor's ends the scan.
pub fn find_section<'a>(sections: &'a [Section], heading_path: &[Vec<u8>]) -> (r: Result<
    &'a Section,
    PatchError,
>)
    ensures
        ({
            let res = resolve_path(secs_view(sections@), path_view(heading_path@));
            match r {
                Result::Ok(sec) => res is Ok && 0 <= res->Ok_0 < sections@.len() && *sec
                    == sections@[res->Ok_0],
                Result::Err(e) => res is Err && e@ == res->Err_0,
            }
        }),
{
    let ghost secs = secs_view(sections@);
    let ghost pathv = path_view(heading_path@);
    let n = sections.len();
    let plen = heading_path.len();
    if plen == 0 {
        return Result::Err(PatchError::EmptyHeadingPath);
    }
    let p0 = vstd::slice::slice_index_get(heading_path, 0);
    let t0 = trim_in(p0.as_slice(), 0, p0.len());
    let ghost h0 = trim(pathv[0]);
    proof {
        assert(pathv[0] == p0@);
        assert(p0@.subrange(0, p0@.len() as int) =~= p0@);
        assert(p0@.subrange(t0.0 as int, t0.1 as int) == h0);
    }
    let mut cnt: usize = 0;
    let mut first: usize = 0;
    let mut i: usize = 0;
    while i < n
        invariant
            n == sections@.len(),
            secs == secs_view(sections@),
            t0.0 <= t0.1 <= p0@.len(),
            p0@.subrange(t0.0 as int, t0.1 as int) == h0,
            0 <= i <= n,
            cnt <= i,
            cnt as int == match_count_to(secs, h0, i as int),
            cnt > 0 ==> first < i && first as int == first_match_from(secs, h0, 0),
        decreases n - i,
    {
        let sec = vstd::slice::slice_index_get(sections, i);
        proof {
            assert(secs[i as int] == sections@[i as int]@);
        }
        let m = sec_matches_in(sec, p0.as_slice(), t0.0, t0.1);
        if m && cnt == 0 {
            first = i;
            proof {
                lemma_first_match_stops(secs, h0, 0, i as int);
                lemma_first_match_bounds(secs, h0, 0);
                if first_match_from(secs, h0, 0) < i as int {
                    lemma_match_count_witness(secs, h0, first_match_from(secs, h0, 0), i as int);
                }
            }
        }
        if m {
            cnt += 1;
        }
        i += 1;
    }
    if cnt == 0 {
        let heading = subrange_vec(p0.as_slice(), t0.0, t0.1);
        return Result::Err(PatchError::HeadingNotFound { heading });
    }
    if cnt > 1 {
        let heading = subrange_vec(p0.as_slice(), t0.0, t0.1);
        return Result::Err(PatchError::AmbiguousHeading { heading });
    }
    let anchor = first;
    let top = vstd::slice::slice_index_get(sections, anchor).heading_level;
    proof {
        assert(top as int == secs[anchor as int].heading_level);
    }
    let mut cur: usize = anchor;
    let mut k: usize = 1;
    while k < plen
        invariant
            n == sections@.len(),
            plen == heading_path@.len(),
            secs == secs_view(sections@),
            pathv == path_view(heading_path@),
            1 <= k <= plen,
            0 <= cur < n,
            resolve_path(secs, pathv) == resolve_rest(secs, pathv, k as int, cur as int, top as int),
        decreases plen - k,
    {
        let pk = vstd::slice::slice_index_get(heading_path, k);
        let tk = trim_in(pk.as_slice(), 0, pk.len());
        let ghost target = trim(pathv[k as int]);
        proof {
            assert(pathv[k as int] == pk@);
            assert(pk@.subrange(0, pk@.len() as int) =~= pk@);
            assert(pk@.subrange(tk.0 as int, tk.1 as int) == target);
        }
        let mut idx: usize = cur + 1;
        let mut found = false;
        loop
            invariant_except_break
                scope_scan(secs, cur as int + 1, target, top as int) == scope_scan(
                    secs,
                    idx as int,
                    target,
                    top as int,
                ),
                !found,
            invariant
                n == sections@.len(),
                secs == secs_view(sections@),
                tk.0 <= tk.1 <= pk@.len(),
                pk@.subrange(tk.0 as int, tk.1 as int) == target,
                cur < idx <= n,
            ensures
                cur < idx <= n,
                found ==> idx < n && scope_scan(secs, cur as int + 1, target, top as int)
                    == Option::Some(idx as int),
                !found ==> scope_scan(secs, cur as int + 1, target, top as int) is None,
            decreases n - idx,
    {
            if idx >= n {
                proof {
                    assert(scope_scan(secs, idx as int, target, top as int) is None);
                }
                break ;
            }
            let sec = vstd::slice::slice_index_get(sections, idx);
            proof {
                assert(secs[idx as int] == sections@[idx as int]@);
            }
            if sec.heading_level <= top {
                proof {
                    assert(scope_scan(secs, idx as int, target, top as int) is None);
                }
                break ;
            }
            if sec_matches_in(sec, pk.as_slice(), tk.0, tk.1) {
                proof {
                    assert(scope_scan(secs, idx as int, target, top as int) == Option::Some(
                        idx as int,
                    ));
                }
                found = true;
                break ;
            }
            proof {
                assert(scope_scan(secs, idx as int, target, top as int) == scope_scan(
                    secs,
                    idx as int + 1,
                    target,
                    top as int,
                ));
            }
            idx += 1;
        }
        if !found {
            let heading = subrange_vec(pk.as_slice(), tk.0, tk.1);
            return Result::Err(PatchError::SubheadingNotFound { heading });
        }
        cur = idx;
        k += 1;
    }
    Result::Ok(vstd::slice::slice_index_get(sections, cur))
}

/// A match at `w` below `i` puts at least one match in the first `i`.
pub proof fn lemma_match_count_witness(secs: Seq<SectionModel>, h: Seq<u8>, w: int, i: int)
    requires
        0 <= w < i <= secs.len(),
        sec_matches(secs[w], h),
    ensures
        match_count_to(secs, h, i) > 0,
    decreases i,
{
    lemma_match_count_nonneg(secs, h, i - 1);
    if w < i - 1 {
        lemma_match_count_witness(secs, h, w, i - 1);
    }
}

/// A match count is never negative.
pub proof fn lemma_match_count_nonneg(secs: Seq<SectionModel>, h: Seq<u8>, i: int)
    requires
        0 <= i,
    ensures
        match_count_to(secs, h, i) >= 0,
    decreases i,
{
    if i > 0 {
        lemma_match_count_nonneg(secs, h, i - 1);
    }
}

/// Fetch the block at a zero-based index within a section.
pub fn get_block<'a>(section: &'a Section, index: usize) -> (r: Result<&'a Block, PatchError>)
    ensures
        match r {
            Result::Ok(b) => index < section.blocks@.len() && *b == section.blocks@[index as int],
            Result::Err(e) => index >= section.blocks@.len() && e@
                == (PatchErrorModel::BlockIndexOutOfRange {
                index: index as int,
                available: section.blocks@.len() as int,
            }),
        },
{
    if index >= section.blocks.len() {
        return Result::Err(
            PatchError::BlockIndexOutOfRange { index, available: section.blocks.len() },
        );
    }
    Result::Ok(vstd::std_specs::vec::vec_index(&section.blocks, index))
}

// ------------------------------------------------------------------
// Heading-path strings
// ------------------------------------------------------------------

/// A word made of `#` marks alone.
pub open spec fn is_marker_word(w: Seq<u8>) -> bool {
    w.len() >= 1 && forall|i: int| 0 <= i < w.len() ==> w[i] == 35
}

/// The whitespace-separated words of `s` from position `i` on.
pub open spec fn words_of(s: Seq<u8>, i: int) -> Seq<Seq<u8>>
    decreases s.len() - i
    when 0 <= i
    via words_of_dec
{
    if i >= s.len() {
        Seq::empty()
    } else if is_ws(s[i]) {
        words_of(s, i + 1)
    } else {
        let e = run_end(s, i, |b: u8| !is_ws(b));
        seq![s.subrange(i, e)] + words_of(s, e)
    }
}

#[via_fn]
proof fn words_of_dec(s: Seq<u8>, i: int) {
    if 0 <= i && i < s.len() {
        lemma_run_end(s, i, |b: u8| !is_ws(b));
    }
}

/// Group words into headings: each marker word opens a heading, later words
/// are joined to the open heading with single spaces, and words before the
/// first marker are dropped.
pub open spec fn group_words(ws: Seq<Seq<u8>>, k: int, cur: Option<Seq<u8>>) -> Seq<Seq<u8>>
    decreases ws.len() - k
    when 0 <= k
{
    if k >= ws.len() {
        match cur {
            Option::Some(c) => seq![c],
            Option::None => Seq::empty(),
        }
    } else if is_marker_word(ws[k]) {
        (match cur {
            Option::Some(c) => seq![c],
            Option::None => Seq::empty(),
        }) + group_words(ws, k + 1, Option::Some(ws[k]))
    } else {
        match cur {
            Option::Some(c) => group_words(ws, k + 1, Option::Some(c + seq![32u8] + ws[k])),
            Option::None => group_words(ws, k + 1, Option::None),
        }
    }
}

/// The parsed heading path of a raw string, or the error for a string that
/// holds no heading marker at all.
pub open spec fn heading_path_spec(s: Seq<u8>) -> Result<Seq<Seq<u8>>, PatchErrorModel> {
    let hs = group_words(words_of(s, 0), 0, Option::None);
    if hs.len() == 0 {
        Result::Err(PatchErrorModel::InvalidHeadingPath)
    } else {
        Result::Ok(hs)
    }
}

/// Grouping looks only at the words from `k` on.
proof fn lemma_group_words_skip(ws: Seq<Seq<u8>>, k: int, cur: Option<Seq<u8>>)
    requires
        0 <= k <= ws.len(),
    ensures
        group_words(ws, k, cur) == group_words(ws.skip(k), 0, cur),
    decreases ws.len() - k,
{
    if k < ws.len() {
        let tail = ws.skip(k);
        assert(tail[0] == ws[k]);
        assert(tail.skip(1) =~= ws.skip(k + 1));
        if is_marker_word(ws[k]) {
            lemma_group_words_skip(ws, k + 1, Option::Some(ws[k]));
            lemma_group_words_skip(tail, 1, Option::Some(ws[k]));
        } else {
            match cur {
                Option::Some(c) => {
                    lemma_group_words_skip(ws, k + 1, Option::Some(c + seq![32u8] + ws[k]));
                    lemma_group_words_skip(tail, 1, Option::Some(c + seq![32u8] + ws[k]));
                },
                Option::None => {
                    lemma_group_words_skip(ws, k + 1, Option::None);
                    lemma_group_words_skip(tail, 1, Option::None);
                },
            }
        }
    } else {
        assert(ws.skip(k) =~= Seq::<Seq<u8>>::empty());
    }
}

/// Parse a heading path like a marker-prefixed chain of headings into its
/// elements: each `#`-run word opens an element, following words join it.
pub fn parse_heading_path(path: &[u8]) -> (r: Result<Vec<Vec<u8>>, PatchError>)
    ensures
        ({
            match (r, heading_path_spec(path@)) {
                (Result::Ok(v), Result::Ok(hs)) => path_view(v@) == hs,
                (Result::Err(e), Result::Err(em)) => e@ == em,
                _ => false,
            }
        }),
{
    let ghost s = path@;
    let n = path.len();
    let mut out: Vec<Vec<u8>> = Vec::new();
    let mut cur: Option<Vec<u8>> = Option::None;
    let mut i: usize = 0;
    proof {
        assert(path_view(out@) =~= Seq::<Seq<u8>>::empty());
    }
    while i < n
        invariant
            n == s.len(),
            path@ == s,
            0 <= i <= n,
            group_words(words_of(s, 0), 0, Option::None) == path_view(out@) + group_words(
                words_of(s, i as int),
                0,
                opt_bytes(cur),
            ),
        decreases n - i,
    {
        let c = *vstd::slice::slice_index_get(path, i);
        if c == 32 || (9 <= c && c <= 13) {
            proof {
                assert(words_of(s, i as int) == words_of(s, i as int + 1));
            }
            i += 1;
            continue ;
        }
        // scan the word
        let mut e: usize = i;
        loop
            invariant
                i <= e <= n == s.len(),
                path@ == s,
                forall|q: int| i <= q < e ==> !is_ws(#[trigger] s[q]),
            ensures
                i <= e <= n,
                forall|q: int| i <= q < e ==> !is_ws(#[trigger] s[q]),
                e < n ==> is_ws(s[e as int]),
            decreases n - e,
        {
            if e >= n {
                break ;
            }
            let cc = *vstd::slice::slice_index_get(path, e);
            if cc == 32 || (9 <= cc && cc <= 13) {
                break ;
            }
            e += 1;
        }
        let ghost w = s.subrange(i as int, e as int);
        proof {
            lemma_run_end_unique(s, i as int, |b: u8| !is_ws(b), e as int);
            assert(words_of(s, i as int) =~= seq![w] + words_of(s, e as int));
            lemma_group_words_skip(seq![w] + words_of(s, e as int), 1, opt_after_word(cur, w));
            assert((seq![w] + words_of(s, e as int)).skip(1) =~= words_of(s, e as int));
        }
        // is this word made of marker bytes alone?
        let mut marker = true;
        let mut q: usize = i;
        while q < e
            invariant
                i <= q <= e <= n == s.len(),
                path@ == s,
                marker == (forall|x: int| i <= x < q ==> #[trigger] s[x] == 35),
            decreases e - q,
        {
            if *vstd::slice::slice_index_get(path, q) != 35 {
                marker = false;
            }
            q += 1;
        }
        proof {
            assert(forall|x: int| 0 <= x < w.len() ==> #[trigger] w[x] == s[i + x]);
            assert(e > i);
            if marker {
                assert(forall|x: int| 0 <= x < w.len() ==> #[trigger] w[x] == 35);
                assert(is_marker_word(w));
            } else {
                let x0 = choose|x: int| i <= x < e && s[x] != 35;
                assert(w[x0 - i] != 35);
                assert(!is_marker_word(w));
            }
        }
        if marker {
            let word = subrange_vec(path, i, e);
            let prev = cur;
            cur = Option::Some(word);
            match prev {
                Option::Some(p) => {
                    let ghost outv = path_view(out@);
                    out.push(p);
                    proof {
                        assert(path_view(out@) =~= outv.push(p@));
                        assert(outv + (seq![p@] + group_words(
                            words_of(s, e as int),
                            0,
                            opt_bytes(cur),
                        )) =~= path_view(out@) + group_words(words_of(s, e as int), 0, opt_bytes(cur)));
                    }
                },
                Option::None => {
                    proof {
                        assert(path_view(out@) + (Seq::<Seq<u8>>::empty() + group_words(
                            words_of(s, e as int),
                            0,
                            opt_bytes(cur),
                        )) =~= path_view(out@) + group_words(words_of(s, e as int), 0, opt_bytes(cur)));
                    }
                },
            }
        } else {
            match cur {
                Option::Some(mut p) => {
                    let ghost pv = p@;
                    p.push(32);
                    let word = subrange_vec(path, i, e);
                    p.extend_from_slice(word.as_slice());
                    proof {
                        assert(p@ =~= pv + seq![32u8] + w);
                    }
                    cur = Option::Some(p);
                },
                Option::None => {
                    cur = Option::None;
                },
            }
        }
        i = e;
    }
    let ghost outv = path_view(out@);
    proof {
        assert(words_of(s, i as int) =~= Seq::<Seq<u8>>::empty());
    }
    match cur {
        Option::Some(p) => {
            out.push(p);
            proof {
                assert(path_view(out@) =~= outv.push(p@));
                assert(outv + seq![p@] =~= path_view(out@));
            }
        },
        Option::None => {},
    }
    if out.len() == 0 {
        return Result::Err(PatchError::InvalidHeadingPath);
    }
    Result::Ok(out)
}

/// View of an optional byte vector (the open heading under construction).
pub open spec fn opt_bytes(c: Option<Vec<u8>>) -> Option<Seq<u8>> {
    match c {
        Option::Some(v) => Option::Some(v@),
        Option::None => Option::None,
    }
}

/// The open heading after one word is taken in.
pub open spec fn opt_after_word(cur: Option<Vec<u8>>, w: Seq<u8>) -> Option<Seq<u8>> {
    if is_marker_word(w) {
        Option::Some(w)
    } else {
        match cur {
            Option::Some(c) => Option::Some(c@ + seq![32u8] + w),
            Option::None => Option::None,
        }
    }
}

/// A block whose span sits inside `t` and whose content is exactly that
/// span's substring.
pub open spec fn wf_block(t: Seq<u8>, b: BlockModel) -> bool {
    0 <= b.start <= b.end <= t.len() && b.content == t.subrange(b.start, b.end)
}

/// All blocks of the section are well formed for `t`.
pub open spec fn wf_section(t: Seq<u8>, sec: SectionModel) -> bool {
    forall|q: int| 0 <= q < sec.blocks.len() ==> wf_block(t, #[trigger] sec.blocks[q])
}

proof fn lemma_sections_from_wf(s: Seq<u8>, i: int, cur: Option<SectionModel>)
    requires
        0 <= i,
        match cur {
            Option::Some(c) => wf_section(s, c),
            Option::None => true,
        },
    ensures
        forall|k: int|
            0 <= k < sections_from(s, i, cur).len() ==> wf_section(
                s,
                #[trigger] sections_from(s, i, cur)[k],
            ),
    decreases n_lines(s) - i,
{
    if i >= n_lines(s) {
        assert(forall|k: int|
            0 <= k < flush(cur).len() ==> wf_section(s, #[trigger] flush(cur)[k]));
    } else if is_heading_line(line_at(s, i)) {
        lemma_sections_from_wf(s, i + 1, Option::Some(section_model_at(s, i)));
        let rest = sections_from(s, i + 1, Option::Some(section_model_at(s, i)));
        let out = flush(cur) + rest;
        assert forall|k: int| 0 <= k < out.len() implies wf_section(s, #[trigger] out[k]) by {
            if k < flush(cur).len() {
                assert(out[k] == flush(cur)[k]);
            } else {
                assert(out[k] == rest[k - flush(cur).len()]);
            }
        }
    } else {
        match cur {
            Option::Some(sec) => {
                match classify_at(s, i) {
                    Option::None => {
                        lemma_sections_from_wf(s, i + 1, Option::Some(sec));
                        assert(sections_from(s, i, cur) == sections_from(
                            s,
                            i + 1,
                            Option::Some(sec),
                        ));
                    },
                    Option::Some(ck) => {
                        lemma_classify_bounds(s, i);
                        lemma_line_spans_props(s);
                        let b = block_model_at(s, i, ck.1, ck.0);
                        assert(wf_block(s, b));
                        let sec2 = push_block(sec, b);
                        assert forall|q: int| 0 <= q < sec2.blocks.len() implies wf_block(
                            s,
                            #[trigger] sec2.blocks[q],
                        ) by {
                            if q < sec.blocks.len() {
                                assert(sec2.blocks[q] == sec.blocks[q]);
                            } else {
                                assert(sec2.blocks[q] == b);
                            }
                        }
                        lemma_sections_from_wf(s, ck.1 + 1, Option::Some(sec2));
                        assert(sections_from(s, i, cur) == sections_from(
                            s,
                            ck.1 + 1,
                            Option::Some(sec2),
                        ));
                    },
                }
            },
            Option::None => {
                lemma_sections_from_wf(s, i + 1, Option::None);
                assert(sections_from(s, i, cur) == sections_from(s, i + 1, Option::None));
            },
        }
    }
}

/// Every block of every parsed section spans a valid byte range of the text
/// and carries exactly that range's content.
pub proof fn lemma_parse_spec_wf(s: Seq<u8>)
    ensures
        forall|k: int|
            0 <= k < parse_spec(s).len() ==> wf_section(s, #[trigger] parse_spec(s)[k]),
{
    lemma_sections_from_wf(s, 0, Option::None);
}

// ------------------------------------------------------------------
// Laws of heading-path resolution
// ------------------------------------------------------------------

/// Two matches below `i` put at least two matches in the first `i`.
pub proof fn lemma_two_matches(secs: Seq<SectionModel>, h: Seq<u8>, w1: int, w2: int, i: int)
    requires
        0 <= w1 < w2 < i <= secs.len(),
        sec_matches(secs[w1], h),
        sec_matches(secs[w2], h),
    ensures
        match_count_to(secs, h, i) >= 2,
    decreases i,
{
    if i - 1 == w2 {
        lemma_match_count_witness(secs, h, w1, i - 1);
    } else {
        lemma_two_matches(secs, h, w1, w2, i - 1);
    }
}

/// Ambiguity detection: when two sections share the requested heading
/// text, resolving any path that opens with that heading fails as
/// ambiguous — by design even when deeper path elements could have told
/// the two apart.
pub proof fn lemma_ambiguous_heading(
    secs: Seq<SectionModel>,
    path: Seq<Seq<u8>>,
    w1: int,
    w2: int,
)
    requires
        path.len() >= 1,
        0 <= w1 < w2 < secs.len(),
        sec_matches(secs[w1], trim(path[0])),
        sec_matches(secs[w2], trim(path[0])),
    ensures
        resolve_path(secs, path) == Result::<int, PatchErrorModel>::Err(
            PatchErrorModel::AmbiguousHeading { heading: trim(path[0]) },
        ),
{
    lemma_two_matches(secs, trim(path[0]), w1, w2, secs.len() as int);
}

/// The scoped scan finds the first match strictly inside the scope.
pub proof fn lemma_scope_scan_finds(
    secs: Seq<SectionModel>,
    i: int,
    target: Seq<u8>,
    top: int,
    w: int,
)
    requires
        0 <= i <= w < secs.len(),
        sec_matches(secs[w], target),
        secs[w].heading_level > top,
        forall|x: int|
            i <= x < w ==> (#[trigger] secs[x]).heading_level > top && !sec_matches(secs[x], target),
    ensures
        scope_scan(secs, i, target, top) == Option::Some(w),
    decreases w - i,
{
    if i < w {
        lemma_scope_scan_finds(secs, i + 1, target, top, w);
    }
}

/// A fully qualified nested path resolves even where the bare child
/// heading would be ambiguous: the unique anchor is found first, and the
/// child is the first match after it that stays inside the anchor's scope.
pub proof fn lemma_nested_path_resolves(
    secs: Seq<SectionModel>,
    path: Seq<Seq<u8>>,
    anchor: int,
    child: int,
)
    requires
        path.len() == 2,
        match_count(secs, trim(path[0])) == 1,
        0 <= anchor < secs.len(),
        sec_matches(secs[anchor], trim(path[0])),
        anchor < child < secs.len(),
        sec_matches(secs[child], trim(path[1])),
        secs[child].heading_level > secs[anchor].heading_level,
        forall|x: int|
            anchor < x < child ==> (#[trigger] secs[x]).heading_level
                > secs[anchor].heading_level && !sec_matches(secs[x], trim(path[1])),
    ensures
        resolve_path(secs, path) == Result::<int, PatchErrorModel>::Ok(child),
{
    let h0 = trim(path[0]);
    lemma_match_count_witness(secs, h0, anchor, secs.len() as int);
    lemma_first_match_bounds(secs, h0, 0);
    lemma_first_match_stops(secs, h0, 0, anchor);
    let fm = first_match_from(secs, h0, 0);
    if fm < anchor {
        lemma_two_matches(secs, h0, fm, anchor, secs.len() as int);
    }
    assert(fm == anchor);
    let top = secs[anchor].heading_level;
    lemma_scope_scan_finds(secs, anchor + 1, trim(path[1]), top, child);
    assert(resolve_path(secs, path) == resolve_rest(secs, path, 1, anchor, top));
    assert(resolve_rest(secs, path, 1, anchor, top) == resolve_rest(secs, path, 2, child, top));
    assert(resolve_rest(secs, path, 2, child, top) == Result::<int, PatchErrorModel>::Ok(child));
}

/// A nonempty trimmed form means the line is not blank.
pub proof fn lemma_trim_not_blank(l: Seq<u8>)
    requires
        trim(l).len() > 0,
    ensures
        !is_blank(l),
{
    if is_blank(l) {
        lemma_trim_front_skip(l, l.len() as int);
        lemma_trim_back_take(Seq::<u8>::empty(), 0);
        assert(l.subrange(l.len() as int, l.len() as int) =~= Seq::<u8>::empty());
        assert(trim(l).len() == 0);
    }
}

} // verus!
