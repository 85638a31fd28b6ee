//! Marking every occurrence of a query in a line.
use vstd::prelude::*;
use vstd::string::{StringExecFns, StringSliceAdditionalSpecFns};
use vstd::utf8::*;
use crate::lines::slice;

verus! {

broadcast use vstd::string::group_string_axioms;

#[verifier::external_type_specification]
#[verifier::external_body]
pub struct ExRegex(regex::Regex);

#[verifier::external_type_specification]
#[verifier::external_body]
pub struct ExRegexError(regex::Error);

/// Whether `regex` accepts `pattern` as an expression, with or without case.
pub uninterp spec fn pattern_compiles(pattern: Seq<char>, ignore_case: bool) -> bool;

/// The byte spans of the matches that `regex` reports for `pattern` in
/// `haystack`.
pub uninterp spec fn regex_spans(
    pattern: Seq<char>,
    ignore_case: bool,
    haystack: Seq<char>,
) -> Seq<(usize, usize)>;

/// The query was not a valid pattern.
#[derive(Debug, Clone, Copy, PartialEq, Eq, Structural)]
pub struct PatternError;

/// A query compiled once for a whole search, with its case rule.
pub struct Pattern {
    regex: regex::Regex,
    query: String,
    ignore_case: bool,
}

impl Pattern {
    /// The query that the pattern was compiled from.
    pub closed spec fn source(&self) -> Seq<char> {
        self.query@
    }

    /// Whether the pattern was compiled to ignore case.
    pub closed spec fn ignores_case(&self) -> bool {
        self.ignore_case
    }
}

/// Relies on `regex::RegexBuilder::build`, with `case_insensitive` set from
/// `ignore_case`: it fails exactly when the query is not a valid expression
/// within the builder's default limits, which depends on the query and the
/// case option alone. The pattern keeps the query it was compiled from.
#[verifier::external_body]
fn compile(query: &str, ignore_case: bool) -> (r: Result<Pattern, regex::Error>)
    ensures
        r is Ok == pattern_compiles(query@, ignore_case),
        r matches Ok(p) ==> p.source() == query@ && p.ignores_case() == ignore_case,
{
    match regex::RegexBuilder::new(query).case_insensitive(ignore_case).build() {
        Ok(regex) => Ok(Pattern { regex, query: query.to_string(), ignore_case }),
        Err(e) => Err(e),
    }
}

/// Relies on `regex::Regex::find_iter`: the successive non-overlapping
/// matches in `line`, left to right, each as its `start()` and `end()`, byte
/// offsets on character boundaries with the start not after the end. A
/// `Pattern` is made only by `compile`, so its regex is the one compiled from
/// its query with its case option.
#[verifier::external_body]
fn find_spans(p: &Pattern, line: &str) -> (r: Vec<(usize, usize)>)
    ensures
        r@ == regex_spans(p.source(), p.ignores_case(), line@),
        spans_well_formed(line.spec_bytes(), r@),
{
    p.regex.find_iter(line).map(|m| (m.start(), m.end())).collect()
}

/// The bytes put before a match.
pub open spec fn begin_mark() -> Seq<u8> {
    seq![27u8, 91u8, 51u8, 49u8, 109u8]
}

/// The bytes put after a match.
pub open spec fn end_mark() -> Seq<u8> {
    seq![27u8, 91u8, 48u8, 109u8]
}

/// Spans of `b` in order, each from a character boundary to a later or equal
/// one, none overlapping the next.
pub open spec fn spans_well_formed(b: Seq<u8>, s: Seq<(usize, usize)>) -> bool {
    &&& forall|k: int|
        0 <= k < s.len() ==> {
            &&& s[k].0 <= s[k].1 <= b.len()
            &&& is_char_boundary(b, s[k].0 as int)
            &&& is_char_boundary(b, s[k].1 as int)
        }
    &&& forall|k: int| 0 <= k < s.len() - 1 ==> s[k].1 <= s[k + 1].0
}

/// Where the text after the first `k` spans begins.
pub open spec fn end_of_first(s: Seq<(usize, usize)>, k: int) -> int {
    if k == 0 {
        0
    } else {
        s[k - 1].1 as int
    }
}

/// `b` up to the end of its `k`-th span, each of the first `k` spans between
/// the two marks.
pub open spec fn marked_upto(b: Seq<u8>, s: Seq<(usize, usize)>, k: int) -> Seq<u8>
    decreases k,
{
    if k <= 0 {
        seq![]
    } else {
        marked_upto(b, s, k - 1) + b.subrange(end_of_first(s, k - 1), s[k - 1].0 as int)
            + begin_mark() + b.subrange(s[k - 1].0 as int, s[k - 1].1 as int) + end_mark()
    }
}

/// `b` with each span of `s` between the two marks, the rest as it stands.
pub open spec fn marked(b: Seq<u8>, s: Seq<(usize, usize)>) -> Seq<u8> {
    marked_upto(b, s, s.len() as int) + b.subrange(end_of_first(s, s.len() as int), b.len() as int)
}

/// A line of text with each match of a compiled query marked.
pub open spec fn highlighted(line: Seq<u8>, pattern: Seq<char>, ignore_case: bool) -> Seq<u8> {
    marked(line, regex_spans(pattern, ignore_case, decode_utf8(line)))
}

proof fn lemma_encode_concat(a: Seq<char>, b: Seq<char>)
    ensures
        encode_utf8(a + b) == encode_utf8(a) + encode_utf8(b),
    decreases a.len(),
{
    if a.len() == 0 {
        assert(a + b =~= b);
        assert(encode_utf8(a) + encode_utf8(b) =~= encode_utf8(b));
    } else {
        lemma_encode_concat(a.drop_first(), b);
        assert((a + b).drop_first() =~= a.drop_first() + b);
        assert((a + b)[0] == a[0]);
    }
}

/// Adds `piece` to the end of `out`.
fn push_str(out: &mut String, piece: &str)
    ensures
        encode_utf8(final(out)@) == encode_utf8(old(out)@) + piece.spec_bytes(),
{
    out.append(piece);
    proof {
        lemma_encode_concat(old(out)@, piece@);
    }
}

/// The text put before a match.
fn begin_text() -> (r: &'static str)
    ensures
        r.spec_bytes() == begin_mark(),
{
    let s = "\x1b[31m";
    proof {
        reveal_strlit("\x1b[31m");
        vstd::string::is_ascii_spec_bytes(s);
        assert(s.spec_bytes() =~= begin_mark());
    }
    s
}

/// The text put after a match.
fn end_text() -> (r: &'static str)
    ensures
        r.spec_bytes() == end_mark(),
{
    let s = "\x1b[0m";
    proof {
        reveal_strlit("\x1b[0m");
        vstd::string::is_ascii_spec_bytes(s);
        assert(s.spec_bytes() =~= end_mark());
    }
    s
}

/// `line` with each span of `spans` between the two marks, the rest as it
/// stands.
pub fn mark_spans(line: &str, spans: &Vec<(usize, usize)>) -> (r: String)
    requires
        spans_well_formed(line.spec_bytes(), spans@),
    ensures
        encode_utf8(r@) == marked(line.spec_bytes(), spans@),
{
    let ghost b = line.spec_bytes();
    let n = line.as_bytes().len();
    let mut out = String::new();
    let mut pos: usize = 0;
    let mut k: usize = 0;
    proof {
        encode_utf8_valid_utf8(line@);
        is_char_boundary_start_end_of_seq(b);
    }
    while k < spans.len()
        invariant
            b == line.spec_bytes(),
            n == b.len(),
            valid_utf8(b),
            is_char_boundary(b, 0),
            is_char_boundary(b, n as int),
            spans_well_formed(b, spans@),
            k <= spans@.len(),
            pos == end_of_first(spans@, k as int),
            pos <= n,
            is_char_boundary(b, pos as int),
            k < spans@.len() ==> pos <= spans@[k as int].0,
            encode_utf8(out@) == marked_upto(b, spans@, k as int),
        decreases spans@.len() - k,
    {
        let (start, end) = spans[k];
        push_str(&mut out, slice(line, pos, start));
        push_str(&mut out, begin_text());
        push_str(&mut out, slice(line, start, end));
        push_str(&mut out, end_text());
        pos = end;
        k = k + 1;
    }
    push_str(&mut out, slice(line, pos, n));
    out
}

impl Pattern {
    /// Compiles `query` as an expression, ignoring case or not; fails
    /// exactly when the query is not a valid expression.
    pub fn new(query: &str, ignore_case: bool) -> (r: Result<Pattern, PatternError>)
        ensures
            r is Ok == pattern_compiles(query@, ignore_case),
            r matches Ok(p) ==> p.source() == query@ && p.ignores_case() == ignore_case,
    {
        match compile(query, ignore_case) {
            Ok(p) => Ok(p),
            Err(_) => Err(PatternError),
        }
    }

    /// `line` with every match of the pattern marked, left to right, no two
    /// overlapping; the rest of the line as it stands.
    pub fn highlight(&self, line: &str) -> (r: String)
        ensures
            encode_utf8(r@) == highlighted(line.spec_bytes(), self.source(), self.ignores_case()),
    {
        let spans = find_spans(self, line);
        proof {
            encode_utf8_decode_utf8(line@);
        }
        mark_spans(line, &spans)
    }
}

/// `line` with every match of `query` marked, case ignored or not; fails
/// exactly when the query is not a valid expression.
pub fn highlight_query(line: &str, query: &str, ignore_case: bool) -> (r: Result<String, PatternError>)
    ensures
        r is Ok == pattern_compiles(query@, ignore_case),
        r matches Ok(h) ==> encode_utf8(h@) == highlighted(line.spec_bytes(), query@, ignore_case),
{
    let p = Pattern::new(query, ignore_case)?;
    Ok(p.highlight(line))
}

/// How many bytes the two marks add around one match.
pub open spec fn marks_len() -> int {
    (begin_mark().len() + end_mark().len()) as int
}

proof fn lemma_marked_upto_len(b: Seq<u8>, s: Seq<(usize, usize)>, k: int)
    requires
        spans_well_formed(b, s),
        0 <= k <= s.len(),
    ensures
        marked_upto(b, s, k).len() == end_of_first(s, k) + k * marks_len(),
    decreases k,
{
    if k > 0 {
        lemma_marked_upto_len(b, s, k - 1);
        if k >= 2 {
            assert(s[k - 2].1 <= s[k - 1].0);
        }
        assert(k * marks_len() == (k - 1) * marks_len() + marks_len()) by (nonlinear_arith);
        let gap = b.subrange(end_of_first(s, k - 1), s[k - 1].0 as int);
        let m = b.subrange(s[k - 1].0 as int, s[k - 1].1 as int);
        assert(marked_upto(b, s, k) == marked_upto(b, s, k - 1) + gap + begin_mark() + m
            + end_mark());
    } else {
        assert(k * marks_len() == 0) by (nonlinear_arith)
            requires
                k == 0,
        ;
    }
}

proof fn lemma_marked_upto_prefix(b: Seq<u8>, s: Seq<(usize, usize)>, k: int, m: int)
    requires
        spans_well_formed(b, s),
        0 <= k <= m <= s.len(),
    ensures
        marked_upto(b, s, m).subrange(0, marked_upto(b, s, k).len() as int) == marked_upto(b, s, k),
    decreases m,
{
    if k == m {
        assert(marked_upto(b, s, m).subrange(0, marked_upto(b, s, k).len() as int) =~= marked_upto(b, s, k));
    } else {
        lemma_marked_upto_prefix(b, s, k, m - 1);
        lemma_marked_upto_len(b, s, k);
        lemma_marked_upto_len(b, s, m - 1);
        lemma_span_ends_grow(b, s, k, m - 1);
        let ml = marks_len();
        assert(ml >= 0);
        assert(k * ml <= (m - 1) * ml) by (nonlinear_arith)
            requires
                k <= m - 1,
                ml >= 0,
        ;
        let prev = marked_upto(b, s, m - 1);
        assert(marked_upto(b, s, m) =~= prev + (b.subrange(end_of_first(s, m - 1), s[m - 1].0 as int)
            + begin_mark() + b.subrange(s[m - 1].0 as int, s[m - 1].1 as int) + end_mark()));
        assert(marked_upto(b, s, m).subrange(0, marked_upto(b, s, k).len() as int) =~= marked_upto(
            b,
            s,
            m - 1,
        ).subrange(0, marked_upto(b, s, k).len() as int));
    }
}

proof fn lemma_span_ends_grow(b: Seq<u8>, s: Seq<(usize, usize)>, k: int, m: int)
    requires
        spans_well_formed(b, s),
        0 <= k <= m <= s.len(),
    ensures
        end_of_first(s, k) <= end_of_first(s, m),
        m < s.len() ==> end_of_first(s, k) <= s[m].0,
    decreases m - k,
{
    if k < m {
        lemma_span_ends_grow(b, s, k + 1, m);
        if k >= 1 {
            assert(s[k - 1].1 <= s[k].0);
        }
    } else if m < s.len() && m >= 1 {
        assert(s[m - 1].1 <= s[m].0);
    }
}

proof fn lemma_marked_prefix(b: Seq<u8>, s: Seq<(usize, usize)>, k: int)
    requires
        spans_well_formed(b, s),
        0 <= k < s.len(),
    ensures
        marked_upto(b, s, k + 1).len() <= marked(b, s).len(),
        marked(b, s).subrange(0, marked_upto(b, s, k + 1).len() as int) == marked_upto(b, s, k + 1),
{
    let n = s.len() as int;
    lemma_marked_upto_prefix(b, s, k + 1, n);
    lemma_marked_upto_len(b, s, k + 1);
    lemma_marked_upto_len(b, s, n);
    lemma_span_ends_grow(b, s, k + 1, n);
    let ml = marks_len();
    assert((k + 1) * ml <= n * ml) by (nonlinear_arith)
        requires
            k + 1 <= n,
            ml >= 0,
    ;
    let full = marked_upto(b, s, n);
    assert(end_of_first(s, n) <= b.len());
    assert(marked(b, s).subrange(0, marked_upto(b, s, k + 1).len() as int) =~= full.subrange(
        0,
        marked_upto(b, s, k + 1).len() as int,
    ));
}

proof fn lemma_marked_len(b: Seq<u8>, s: Seq<(usize, usize)>)
    requires
        spans_well_formed(b, s),
    ensures
        marked(b, s).len() == b.len() + s.len() * marks_len(),
{
    let n = s.len() as int;
    lemma_marked_upto_len(b, s, n);
    lemma_span_ends_grow(b, s, n, n);
    if n > 0 {
        assert(end_of_first(s, n) <= b.len());
    }
}

proof fn lemma_gap_kept(b: Seq<u8>, s: Seq<(usize, usize)>, k: int, j: int)
    requires
        spans_well_formed(b, s),
        0 <= k <= s.len(),
        end_of_first(s, k) <= j < (if k < s.len() {
            s[k].0 as int
        } else {
            b.len() as int
        }),
    ensures
        marked(b, s)[j + k * marks_len()] == b[j],
{
    let n = s.len() as int;
    let e = end_of_first(s, k);
    lemma_marked_upto_len(b, s, k);
    lemma_span_ends_grow(b, s, k, n);
    if k < n {
        lemma_marked_prefix(b, s, k);
        let next = marked_upto(b, s, k + 1);
        let u = marked_upto(b, s, k);
        let gap = b.subrange(e, s[k].0 as int);
        assert(next == u + gap + begin_mark() + b.subrange(s[k].0 as int, s[k].1 as int)
            + end_mark());
        assert(marked(b, s)[j + k * marks_len()] == next[j + k * marks_len()]);
    } else {
        assert(marked(b, s) == marked_upto(b, s, n) + b.subrange(e, b.len() as int));
    }
}

proof fn lemma_match_wrapped(b: Seq<u8>, s: Seq<(usize, usize)>, k: int)
    requires
        spans_well_formed(b, s),
        0 <= k < s.len(),
    ensures
        ({
            let at = s[k].0 + k * marks_len();
            let after = s[k].1 + k * marks_len() + begin_mark().len();
            &&& marked(b, s).subrange(at, at + begin_mark().len()) == begin_mark()
            &&& marked(b, s).subrange(at + begin_mark().len(), after) == b.subrange(
                s[k].0 as int,
                s[k].1 as int,
            )
            &&& marked(b, s).subrange(after, after + end_mark().len()) == end_mark()
        }),
{
    let n = s.len() as int;
    let e = end_of_first(s, k);
    lemma_marked_upto_len(b, s, k);
    lemma_span_ends_grow(b, s, k, n);
    lemma_marked_prefix(b, s, k);
    let whole = marked(b, s);
    let next = marked_upto(b, s, k + 1);
    let u = marked_upto(b, s, k);
    let gap = b.subrange(e, s[k].0 as int);
    let m = b.subrange(s[k].0 as int, s[k].1 as int);
    assert(next == u + gap + begin_mark() + m + end_mark());
    let at = s[k].0 + k * marks_len();
    let after = s[k].1 + k * marks_len() + begin_mark().len();
    assert(whole.subrange(at, at + begin_mark().len()) =~= next.subrange(at, at + begin_mark().len()));
    assert(next.subrange(at, at + begin_mark().len()) =~= begin_mark());
    assert(whole.subrange(at + begin_mark().len(), after) =~= next.subrange(at + begin_mark().len(), after));
    assert(next.subrange(at + begin_mark().len(), after) =~= m);
    assert(whole.subrange(after, after + end_mark().len()) =~= next.subrange(after, after + end_mark().len()));
    assert(next.subrange(after, after + end_mark().len()) =~= end_mark());
}

/// Marking changes the line only around its matches, each wrapped once:
/// with `k` matches before it, a byte outside every match stands
/// `k * marks_len()` bytes further on, unchanged, and the `k`-th match stands
/// unchanged between a begin mark and an end mark. Marking a line that is
/// already marked thus keeps its earlier marks as they are wherever they are
/// not matches themselves, and adds exactly one pair of marks per match.
pub proof fn lemma_marking_changes_only_matches(b: Seq<u8>, s: Seq<(usize, usize)>, k: int)
    requires
        spans_well_formed(b, s),
        0 <= k <= s.len(),
    ensures
        marked(b, s).len() == b.len() + s.len() * marks_len(),
        forall|j: int|
            end_of_first(s, k) <= j < (if k < s.len() {
                s[k].0 as int
            } else {
                b.len() as int
            }) ==> #[trigger] marked(b, s)[j + k * marks_len()] == b[j],
        k < s.len() ==> {
            let at = s[k].0 + k * marks_len();
            let after = s[k].1 + k * marks_len() + begin_mark().len();
            &&& marked(b, s).subrange(at, at + begin_mark().len()) == begin_mark()
            &&& marked(b, s).subrange(at + begin_mark().len(), after) == b.subrange(
                s[k].0 as int,
                s[k].1 as int,
            )
            &&& marked(b, s).subrange(after, after + end_mark().len()) == end_mark()
        },
{
    lemma_marked_len(b, s);
    assert forall|j: int|
        end_of_first(s, k) <= j < (if k < s.len() {
            s[k].0 as int
        } else {
            b.len() as int
        }) implies #[trigger] marked(b, s)[j + k * marks_len()] == b[j] by {
        lemma_gap_kept(b, s, k, j);
    }
    if k < s.len() {
        lemma_match_wrapped(b, s, k);
    }
}

} // verus!
