use vstd::prelude::*;
use vstd::string::StrSliceExecFns;
use vstd::string::StringExecFns;
use crate::style::Style;
use crate::text::Span;
use crate::text::Spans;
use crate::text::Text;
use crate::text::SpanModel;
use crate::text::line_cols;
use crate::text::line_styled;
use crate::text::doc_styled;
use crate::text::doc_cols;
use crate::text::span_styled;
use crate::text::ws_trimmed;
use crate::text::lemma_line_cols_concat;
use crate::text::lemma_ws_trimmed_fix;
use crate::text::lemma_ws_trimmed_all_white;
use crate::text::lemma_ws_trimmed_suffix;
use crate::text::lead_white;
use crate::text::lemma_line_cols_last;
use crate::text::lemma_line_styled_last;
use crate::text::lemma_doc_styled_last;
use crate::text::lemma_span_styled_split;
use crate::text::is_subseq;
use crate::text::lemma_subseq_refl;
use crate::text::lemma_subseq_prepend;
use crate::text::lemma_subseq_concat;
use crate::text::lemma_subseq_trans;
use crate::text::lemma_subseq_span_styled;
use crate::text::dark_styled;
use crate::text::lemma_dark_concat;
use crate::text::lemma_dark_all_white;
use crate::text::lemma_lead_white_chars;
use crate::text::lemma_doc_cols_bound;
use crate::unicode::char_cols;
use crate::unicode::str_cols;
use crate::unicode::clusters_of;
use crate::unicode::is_white;
use crate::unicode::measure_str;
use crate::unicode::split_clusters;
use crate::unicode::white_char;
use crate::unicode::lemma_str_cols_concat;
use crate::unicode::lemma_str_cols_split;
use crate::unicode::lemma_char_le_str;
use crate::unicode::lemma_flatten_empty;
use crate::unicode::lemma_flatten_first;

verus! {

/// No character of `s` is a line-feed break marker.
pub open spec fn marker_free(s: Seq<char>) -> bool {
    forall|i: int| 0 <= i < s.len() ==> s[i] != '\n'
}

/// Every cluster of the list fits within `w` columns.
pub open spec fn all_fit(cs: Seq<Seq<char>>, w: nat) -> bool {
    forall|k: int| 0 <= k < cs.len() ==> str_cols(#[trigger] cs[k]) <= w
}

/// Every cluster of every contiguous slice of `s` fits within `w` columns,
/// so that no re-segmentation of a piece of `s` produces a cluster that the
/// engine would have to drop.
pub open spec fn clusters_fit(s: Seq<char>, w: nat) -> bool {
    forall|i: int, j: int|
        0 <= i <= j <= s.len() ==> all_fit(clusters_of(#[trigger] s.subrange(i, j)), w)
}

/// Every character of `s` fits within `w` columns on its own.
pub open spec fn chars_fit(s: Seq<char>, w: nat) -> bool {
    forall|k: int| 0 <= k < s.len() ==> char_cols(s[k]) <= w
}

/// Every character of `s` is white space.
pub open spec fn all_white(s: Seq<char>) -> bool {
    forall|k: int| 0 <= k < s.len() ==> is_white(s[k])
}

/// Every run of the line satisfies `chars_fit`.
pub open spec fn line_chars_fit(line: Seq<SpanModel>, w: nat) -> bool {
    forall|j: int| 0 <= j < line.len() ==> chars_fit((#[trigger] line[j]).content, w)
}

/// Every run of every line satisfies `chars_fit`.
pub open spec fn doc_chars_fit(doc: Seq<Seq<SpanModel>>, w: nat) -> bool {
    forall|i: int| 0 <= i < doc.len() ==> line_chars_fit(#[trigger] doc[i], w)
}

/// Appending a run whose characters fit keeps the line's characters fitting.
proof fn lemma_line_chars_fit_push(line: Seq<SpanModel>, sm: SpanModel, w: nat)
    requires
        line_chars_fit(line, w),
        chars_fit(sm.content, w),
    ensures
        line_chars_fit(line.push(sm), w),
{
    let nl = line.push(sm);
    assert forall|j: int| 0 <= j < nl.len() implies chars_fit((#[trigger] nl[j]).content, w) by {
        if j < line.len() {
            assert(nl[j] == line[j]);
        } else {
            assert(nl[j] == sm);
        }
    }
}

/// Replacing one fitting line keeps the document's characters fitting.
proof fn lemma_doc_chars_fit_update(doc: Seq<Seq<SpanModel>>, i: int, l: Seq<SpanModel>, w: nat)
    requires
        doc_chars_fit(doc, w),
        line_chars_fit(l, w),
        0 <= i < doc.len(),
    ensures
        doc_chars_fit(doc.update(i, l), w),
{
    let d2 = doc.update(i, l);
    assert forall|k: int| 0 <= k < d2.len() implies line_chars_fit(#[trigger] d2[k], w) by {
        if k != i {
            assert(d2[k] == doc[k]);
        }
    }
}

/// Appending a fitting line keeps the document's characters fitting.
proof fn lemma_doc_chars_fit_push(doc: Seq<Seq<SpanModel>>, l: Seq<SpanModel>, w: nat)
    requires
        doc_chars_fit(doc, w),
        line_chars_fit(l, w),
    ensures
        doc_chars_fit(doc.push(l), w),
{
    let d2 = doc.push(l);
    assert forall|k: int| 0 <= k < d2.len() implies line_chars_fit(#[trigger] d2[k], w) by {
        if k < doc.len() {
            assert(d2[k] == doc[k]);
        } else {
            assert(d2[k] == l);
        }
    }
}

/// The empty line is fit in every sense and zero columns wide.
proof fn lemma_empty_line_props(w: nat, trim: bool)
    ensures
        line_chars_fit(Seq::<SpanModel>::empty(), w),
        fit_line(Seq::<SpanModel>::empty(), w, trim),
        line_cols(Seq::<SpanModel>::empty()) == 0,
{
}

/// `clusters_fit` covers the whole string itself.
pub proof fn lemma_clusters_fit_whole(s: Seq<char>, w: nat)
    requires
        clusters_fit(s, w),
    ensures
        all_fit(clusters_of(s), w),
{
    assert(s.subrange(0, s.len() as int) =~= s);
    assert(all_fit(clusters_of(s.subrange(0, s.len() as int)), w));
}

/// `clusters_fit` is inherited by every contiguous slice.
pub proof fn lemma_clusters_fit_sub(s: Seq<char>, a: int, b: int, w: nat)
    requires
        clusters_fit(s, w),
        0 <= a <= b <= s.len(),
    ensures
        clusters_fit(s.subrange(a, b), w),
{
    let t = s.subrange(a, b);
    assert forall|i: int, j: int| 0 <= i <= j <= t.len() implies all_fit(
        clusters_of(#[trigger] t.subrange(i, j)),
        w,
    ) by {
        assert(t.subrange(i, j) =~= s.subrange(a + i, a + j));
    }
}

/// `marker_free` is inherited by every contiguous slice.
pub proof fn lemma_marker_free_sub(s: Seq<char>, a: int, b: int)
    requires
        marker_free(s),
        0 <= a <= b <= s.len(),
    ensures
        marker_free(s.subrange(a, b)),
{
}

/// No run of the line holds a break marker.
pub open spec fn line_marker_free(line: Seq<SpanModel>) -> bool {
    forall|k: int| 0 <= k < line.len() ==> marker_free((#[trigger] line[k]).content)
}

/// Every run of the line satisfies `clusters_fit`.
pub open spec fn line_fits(line: Seq<SpanModel>, w: nat) -> bool {
    forall|k: int| 0 <= k < line.len() ==> clusters_fit((#[trigger] line[k]).content, w)
}

/// Every run of the line is all white space.
pub open spec fn line_all_white(line: Seq<SpanModel>) -> bool {
    forall|k: int| 0 <= k < line.len() ==> all_white((#[trigger] line[k]).content)
}

/// A run that starts at column zero has no leading white space to lose:
/// trimming its content changes nothing.
pub open spec fn trim_fixed_line(line: Seq<SpanModel>) -> bool {
    forall|k: int|
        0 <= k < line.len() && line_cols(line.subrange(0, k)) == 0 ==> ws_trimmed(
            (#[trigger] line[k]).content,
        ) =~= line[k].content
}

/// Runs the engine can emit without reservation: marker free, nothing to
/// drop on any re-segmentation, and nothing for leading trim to remove.
pub open spec fn fit_line(line: Seq<SpanModel>, w: nat, trim: bool) -> bool {
    &&& line_marker_free(line)
    &&& line_fits(line, w)
    &&& (trim ==> trim_fixed_line(line))
}

/// Appending a marker-free, fitting run whose content survives trimming
/// whenever it starts at column zero keeps a line fit.
proof fn lemma_fit_line_push(line: Seq<SpanModel>, sm: SpanModel, w: nat, trim: bool, colw: nat)
    requires
        fit_line(line, w, trim),
        marker_free(sm.content),
        clusters_fit(sm.content, w),
        line_cols(line) == colw,
        (trim && colw == 0) ==> ws_trimmed(sm.content) =~= sm.content,
    ensures
        fit_line(line.push(sm), w, trim),
{
    let nl = line.push(sm);
    assert forall|k: int| 0 <= k < nl.len() implies marker_free((#[trigger] nl[k]).content)
        && clusters_fit(nl[k].content, w) by {
        if k < line.len() {
            assert(nl[k] == line[k]);
        } else {
            assert(nl[k] == sm);
        }
    }
    if trim {
        assert forall|k: int|
            0 <= k < nl.len() && line_cols(nl.subrange(0, k)) == 0 implies ws_trimmed(
            (#[trigger] nl[k]).content,
        ) =~= nl[k].content by {
            assert(nl.subrange(0, k) =~= line.subrange(0, k));
            if k < line.len() {
                assert(nl[k] == line[k]);
            } else {
                assert(nl.subrange(0, k) =~= line);
                assert(line_cols(line) == 0);
                assert(nl[k] == sm);
            }
        }
    }
}

/// A line that the engine reproduces unchanged when fed again at the same
/// width and trim policy.
pub open spec fn stable_line(line: Seq<SpanModel>, w: nat, trim: bool) -> bool {
    &&& line_cols(line) <= w
    &&& fit_line(line, w, trim)
}

/// The styled characters still to be processed in a pending run.
pub(crate) open spec fn pend_styled(p: Option<Span>) -> Seq<(char, Style)> {
    match p {
        Some(sp) => span_styled(sp@),
        None => Seq::empty(),
    }
}

/// How many work items remain: the queue plus a possible pending run.
pub(crate) open spec fn work_units(q: Seq<Span>, p: Option<Span>) -> int {
    q.len() + if p is Some {
        1int
    } else {
        0int
    }
}

/// The character count of the run the next iteration will take up.
pub(crate) open spec fn front_len(q: Seq<Span>, p: Option<Span>) -> int {
    if p is Some {
        (p->0)@.content.len() as int
    } else if q.len() > 0 {
        q[0]@.content.len() as int
    } else {
        0
    }
}

/// Every line of the document is marker free.
pub open spec fn doc_marker_free(doc: Seq<Seq<SpanModel>>) -> bool {
    forall|i: int| 0 <= i < doc.len() ==> line_marker_free(#[trigger] doc[i])
}

/// Every line of the document satisfies `line_fits`.
pub open spec fn doc_fits(doc: Seq<Seq<SpanModel>>, w: nat) -> bool {
    forall|i: int| 0 <= i < doc.len() ==> line_fits(#[trigger] doc[i], w)
}

/// Every line of the document is stable under re-wrapping.
pub open spec fn doc_stable(doc: Seq<Seq<SpanModel>>, w: nat, trim: bool) -> bool {
    forall|i: int| 0 <= i < doc.len() ==> stable_line(#[trigger] doc[i], w, trim)
}

/// Every character of the document is white space.
pub open spec fn doc_all_white(doc: Seq<Seq<SpanModel>>) -> bool {
    forall|i: int| 0 <= i < doc.len() ==> line_all_white(#[trigger] doc[i])
}

/// Appending a run to the last line appends its styled characters to the
/// document's.
proof fn lemma_doc_styled_push_last(doc: Seq<Seq<SpanModel>>, sm: SpanModel)
    requires
        doc.len() > 0,
    ensures
        doc_styled(doc.update(doc.len() - 1, doc.last().push(sm))) =~= doc_styled(doc)
            + span_styled(sm),
{
    let nl = doc.last().push(sm);
    let d2 = doc.update(doc.len() - 1, nl);
    lemma_doc_styled_last(d2);
    lemma_doc_styled_last(doc);
    assert(d2.drop_last() =~= doc.drop_last());
    assert(d2.last() =~= nl);
    lemma_line_styled_last(nl);
    assert(nl.drop_last() =~= doc.last());
    assert(nl.last() == sm);
    assert(doc_styled(d2) =~= (doc_styled(doc.drop_last()) + line_styled(doc.last()))
        + span_styled(sm));
}

/// Opening an empty line adds no styled characters.
proof fn lemma_doc_styled_push_empty(doc: Seq<Seq<SpanModel>>)
    ensures
        doc_styled(doc.push(Seq::<SpanModel>::empty())) =~= doc_styled(doc),
{
    let d2 = doc.push(Seq::<SpanModel>::empty());
    lemma_doc_styled_last(d2);
    assert(d2.drop_last() =~= doc);
    assert(line_styled(Seq::<SpanModel>::empty()) =~= Seq::<(char, Style)>::empty());
}

/// A fixed-width accumulator that consumes source lines one at a time and
/// builds a document whose every line fits within `width` display columns.
///
/// The no-break space (U+00A0) is never recorded as a break candidate, so a
/// width-triggered break never lands at its position; but it carries the
/// Unicode white-space property, so leading trim at column zero removes it
/// like any other white space. That pairing is a deliberate policy choice.
#[derive(Debug, Clone, PartialEq)]
pub struct WrappedText {
    pub text: Text,
    pub trim: bool,
    pub width: u16,
    pub column: u16,
    pub was_whitespace: bool,
    pub was_linebreak: bool,
}

impl WrappedText {
    /// The engine's invariant: closed lines fit, the open line's width is
    /// the cursor column, and no character of the output is wider than the
    /// target on its own.
    pub open spec fn wf(&self) -> bool {
        &&& self.column <= self.width
        &&& self.text@.len() == 0 ==> self.column == 0
        &&& self.text@.len() > 0 ==> line_cols(self.text@.last()) == self.column as nat
        &&& forall|i: int|
            0 <= i < self.text@.len() - 1 ==> line_cols(#[trigger] self.text@[i])
                <= self.width as nat
        &&& doc_chars_fit(self.text@, self.width as nat)
    }

    /// A fresh engine for the given width, with leading-trim enabled.
    pub fn new(width: u16) -> (r: WrappedText)
        ensures
            r.wf(),
            r.text@ =~= Seq::<Seq<SpanModel>>::empty(),
            r.width == width,
            r.trim == true,
            r.column == 0,
            r.was_whitespace == false,
            r.was_linebreak == false,
    {
        WrappedText {
            text: Text::default(),
            width,
            trim: true,
            column: 0,
            was_whitespace: false,
            was_linebreak: false,
        }
    }

    /// Choose the leading-trim policy.
    pub fn trim(self, trim: bool) -> (r: WrappedText)
        ensures
            r == (WrappedText { trim, ..self }),
            self.wf() ==> r.wf(),
    {
        WrappedText { trim, ..self }
    }

    /// Append a run to the open line, opening a first line if none exists.
    fn push_span(&mut self, span: Span)
        ensures
            old(self).text@.len() == 0 ==> final(self).text@ =~~= seq![seq![span@]],
            old(self).text@.len() > 0 ==> final(self).text@ =~~= old(self).text@.update(
                old(self).text@.len() - 1,
                old(self).text@.last().push(span@),
            ),
            final(self).trim == old(self).trim,
            final(self).width == old(self).width,
            final(self).column == old(self).column,
            final(self).was_whitespace == old(self).was_whitespace,
            final(self).was_linebreak == old(self).was_linebreak,
    {
        if self.text.lines.len() == 0 {
            self.text.lines.push(Spans::default());
        }
        let last = self.text.lines.len() - 1;
        let line = self.text.lines.remove(last);
        let mut v = line.0;
        v.push(span);
        self.text.lines.push(Spans(v));
    }

    /// Close the open line and begin a new, empty one at column zero.
    fn start_new_line(&mut self)
        ensures
            final(self).text@ =~~= old(self).text@.push(Seq::<SpanModel>::empty()),
            final(self).column == 0,
            final(self).trim == old(self).trim,
            final(self).width == old(self).width,
            final(self).was_whitespace == old(self).was_whitespace,
            final(self).was_linebreak == old(self).was_linebreak,
    {
        self.column = 0;
        self.text.lines.push(Spans::default());
    }
}

/// Check that every character of a cluster is white space.
fn cluster_white(g: &String) -> (r: bool)
    ensures
        r == all_white(g@),
{
    let n = g.as_str().unicode_len();
    let mut k: usize = 0;
    while k < n
        invariant
            k <= n,
            n == g@.len(),
            forall|j: int| 0 <= j < k ==> is_white(g@[j]),
        decreases n - k,
    {
        if !white_char(g.as_str().get_char(k)) {
            return false;
        }
        k += 1;
    }
    true
}

/// Check whether a cluster is exactly the single character `c`.
fn cluster_is_char(g: &String, c: char) -> (r: bool)
    ensures
        r == (g@ =~= seq![c]),
{
    if g.as_str().unicode_len() == 1 {
        let r = g.as_str().get_char(0) == c;
        proof {
            if g@[0] == c {
                assert(g@ =~= seq![c]);
            }
        }
        r
    } else {
        false
    }
}

/// What one pass over a run produced: the run fit as it stands, or it was
/// cut with a head for the closing line and a tail for the next, or nothing
/// of it belongs to the closing line.
pub(crate) enum ScanStep {
    Done { span: Span },
    Split { head: Span, tail: Span },
    Carry { tail: Span },
}

pub(crate) open spec fn scan_done(s: ScanStep) -> SpanModel {
    match s {
        ScanStep::Done { span } => span@,
        _ => arbitrary(),
    }
}

pub(crate) open spec fn scan_head(s: ScanStep) -> SpanModel {
    match s {
        ScanStep::Split { head, .. } => head@,
        _ => arbitrary(),
    }
}

pub(crate) open spec fn scan_tail(s: ScanStep) -> SpanModel {
    match s {
        ScanStep::Split { tail, .. } => tail@,
        ScanStep::Carry { tail } => tail@,
        _ => arbitrary(),
    }
}

/// The cursor as a scan leaves it.
pub(crate) struct ScanOut {
    pub step: ScanStep,
    pub column: u16,
    pub was_whitespace: bool,
    pub was_linebreak: bool,
}

/// One pass over a run's clusters from the cursor state `(column,
/// was_whitespace, was_linebreak)`, at the target `width`. Clusters wider
/// than the target are dropped; a bare line-feed cluster forces a break and
/// is consumed; a cluster that would overflow the target forces a break at
/// the last recorded word boundary, or at the overflow point when the line
/// holds no boundary.
#[verifier::rlimit(80)]
pub(crate) fn scan_span(
    width: u16,
    column: u16,
    was_whitespace: bool,
    was_linebreak: bool,
    content: String,
    style: Style,
) -> (r: ScanOut)
    requires
        column <= width,
    ensures
        r.column <= width,
        r.step is Done ==> {
            &&& scan_done(r.step).style == style
            &&& column as nat + str_cols(scan_done(r.step).content) == r.column as nat
            &&& chars_fit(scan_done(r.step).content, width as nat)
        },
        r.step is Split ==> {
            &&& scan_head(r.step).style == style
            &&& scan_tail(r.step).style == style
            &&& column as nat + str_cols(scan_head(r.step).content) <= width as nat
            &&& chars_fit(scan_head(r.step).content, width as nat)
            &&& scan_head(r.step).content.len() >= 1
            &&& scan_head(r.step).content.len() + scan_tail(r.step).content.len()
                <= content@.len()
        },
        r.step is Carry ==> {
            &&& scan_tail(r.step).style == style
            &&& scan_tail(r.step).content.len() <= content@.len()
            &&& (column == 0 ==> scan_tail(r.step).content.len() < content@.len())
        },
        r.step is Done ==> is_subseq(
            span_styled(scan_done(r.step)),
            span_styled(span_model(content@, style)),
        ),
        r.step is Split ==> is_subseq(
            span_styled(scan_head(r.step)) + span_styled(scan_tail(r.step)),
            span_styled(span_model(content@, style)),
        ),
        r.step is Carry ==> is_subseq(
            span_styled(scan_tail(r.step)),
            span_styled(span_model(content@, style)),
        ),
        (marker_free(content@) && all_fit(clusters_of(content@), width as nat)) ==> {
            &&& (r.step is Done ==> scan_done(r.step).content =~= content@)
            &&& (r.step is Split ==> scan_head(r.step).content + scan_tail(r.step).content
                =~= content@)
            &&& (r.step is Carry ==> scan_tail(r.step).content =~= content@)
        },
        (marker_free(content@) && all_fit(clusters_of(content@), width as nat) && column as nat
            + str_cols(content@) <= width as nat) ==> (r.step is Done && r.column as nat
            == column as nat + str_cols(content@)),
        content@.len() == 0 ==> (r.step is Done && scan_done(r.step).content =~= content@
            && r.column == column && r.was_whitespace == was_whitespace && r.was_linebreak
            == was_linebreak),
{
    let ghost c = content@;
    let ghost w = width as nat;
    let n = content.as_str().unicode_len();
    let clusters = split_clusters(content.as_str());
    let ghost cs = clusters@.map_values(|g: String| g@);
    let mut kept = String::new();
    let mut kept_chars: usize = 0;
    let mut boundary: usize = 0;
    let mut scanned: usize = 0;
    let mut col = column;
    let mut was_ws = was_whitespace;
    let mut was_lb = was_linebreak;
    let mut i: usize = 0;
    proof {
        assert(cs.subrange(0, cs.len() as int) =~= cs);
        assert(c.subrange(0, n as int) =~= c);
        assert(str_cols(kept@) == 0);
        assert(kept@.subrange(0, 0) =~= kept@);
        assert(is_subseq(kept@, c.subrange(0, 0)));
    }
    while i < clusters.len()
        invariant
            column <= width,
            w == width as nat,
            i <= clusters.len(),
            cs == clusters@.map_values(|g: String| g@),
            cs == clusters_of(c),
            c == content@,
            n == c.len(),
            scanned <= n,
            c.subrange(scanned as int, n as int) =~= cs.subrange(i as int, cs.len() as int)
                .flatten(),
            forall|k: int| 0 <= k < cs.len() ==> (#[trigger] cs[k]).len() > 0,
            kept_chars == kept@.len(),
            boundary <= kept_chars,
            kept@.len() <= scanned,
            col as nat == column as nat + str_cols(kept@),
            col <= width,
            str_cols(kept@.subrange(0, boundary as int)) + column as nat <= col as nat,
            chars_fit(kept@, w),
            is_subseq(kept@, c.subrange(0, scanned as int)),
            (marker_free(c) && all_fit(cs, w)) ==> kept@ =~= c.subrange(0, scanned as int),
            c.len() == 0 ==> (col == column && was_ws == was_whitespace && was_lb
                == was_linebreak && kept@.len() == 0),
        decreases clusters.len() - i,
    {
        let g = &clusters[i];
        let glen = g.as_str().unicode_len();
        proof {
            let rest = cs.subrange(i as int, cs.len() as int);
            lemma_flatten_first(rest);
            assert(rest.first() == cs[i as int]);
            assert(rest.drop_first() =~= cs.subrange(i + 1, cs.len() as int));
            assert(g@ == cs[i as int]);
            let suf = c.subrange(scanned as int, n as int);
            let flatnext = cs.subrange(i + 1, cs.len() as int).flatten();
            assert(suf =~= g@ + flatnext);
            assert(suf.len() == n - scanned);
            assert(suf.len() == g@.len() + flatnext.len());
            assert(glen + flatnext.len() == n - scanned);
            assert(c.subrange(scanned as int, scanned + glen) =~= suf.subrange(0, glen as int));
            assert(suf.subrange(0, glen as int) =~= g@);
            assert(c.subrange(scanned + glen, n as int) =~= suf.subrange(
                glen as int,
                suf.len() as int,
            ));
            assert(suf.subrange(glen as int, suf.len() as int) =~= flatnext);
            assert(c.len() > 0);
        }
        let gw = measure_str(g.as_str());
        if gw > width as usize {
            // Wider than the target on its own: this cluster can never fit
            // on any line, so it is dropped from the output.
            proof {
                if marker_free(c) && all_fit(cs, w) {
                    assert(str_cols(cs[i as int]) <= w);
                    assert(false);
                }
                assert(is_subseq(Seq::<char>::empty(), g@));
                lemma_subseq_concat(kept@, Seq::<char>::empty(), c.subrange(0, scanned as int), g@);
                assert(kept@ + Seq::<char>::empty() =~= kept@);
                assert(c.subrange(0, scanned + glen) =~= c.subrange(0, scanned as int) + g@);
            }
            scanned = scanned + glen;
            i += 1;
            continue ;
        }
        let is_nl = cluster_is_char(g, '\n');
        if !was_lb && is_nl {
            // An explicit break marker: close the line at the last word
            // boundary and consume the marker.
            let b = if boundary < kept_chars {
                boundary + 1
            } else {
                kept_chars
            };
            proof {
                assert(c[scanned as int] == '\n');
                if marker_free(c) && all_fit(cs, w) {
                    assert(false);
                }
                lemma_str_cols_split(kept@, b as int);
            }
            let ghost keptv = kept@;
            let mut head_span = Span { content: kept, style };
            let tail_rest = head_span.split_at_in_place(b);
            let mut tail_content = tail_rest.content;
            let suffix = content.as_str().substring_char(scanned + 1, n);
            tail_content.append(suffix);
            let tail_span = Span { content: tail_content, style };
            proof {
                assert(chars_fit(head_span.content@, w));
                let part1 = c.subrange(0, scanned as int);
                let mid = c.subrange(scanned as int, scanned + 1);
                let suf2 = c.subrange(scanned + 1, n as int);
                assert(is_subseq(Seq::<char>::empty(), mid));
                lemma_subseq_concat(keptv, Seq::<char>::empty(), part1, mid);
                assert(keptv + Seq::<char>::empty() =~= keptv);
                lemma_subseq_refl(suf2);
                lemma_subseq_concat(keptv, suf2, part1 + mid, suf2);
                assert((part1 + mid) + suf2 =~= c);
                assert(head_span.content@ + tail_span.content@ =~= keptv + suf2);
                lemma_subseq_span_styled(head_span.content@ + tail_span.content@, c, style);
                lemma_span_styled_split(head_span.content@, tail_span.content@, style);
                if b == 0 {
                    assert(head_span.content@ + tail_span.content@ =~= tail_span.content@);
                }
            }
            if b > 0 {
                return ScanOut {
                    step: ScanStep::Split { head: head_span, tail: tail_span },
                    column: col,
                    was_whitespace: was_ws,
                    was_linebreak: true,
                };
            } else {
                proof {
                    assert(tail_span.content@.len() < c.len());
                }
                return ScanOut {
                    step: ScanStep::Carry { tail: tail_span },
                    column: col,
                    was_whitespace: was_ws,
                    was_linebreak: true,
                };
            }
        }
        let is_ws = cluster_white(g);
        let is_nbsp = cluster_is_char(g, '\u{a0}');
        if !was_ws && !is_nbsp {
            boundary = kept_chars;
            proof {
                assert(kept@.subrange(0, kept@.len() as int) =~= kept@);
            }
        }
        let next_col = col as usize + gw;
        if next_col > width as usize {
            // The cluster would overflow the target: close the line at the
            // last word boundary, or right here when the line has none.
            let b = if boundary == 0 && column == 0 {
                kept_chars
            } else {
                boundary
            };
            proof {
                lemma_str_cols_split(kept@, b as int);
                if b == kept_chars {
                    assert(kept@.subrange(0, b as int) =~= kept@);
                }
                if boundary == 0 && column == 0 {
                    if kept_chars == 0 {
                        assert(kept@ =~= Seq::<char>::empty());
                        assert(str_cols(kept@) == 0);
                        assert(false);
                    }
                }
                if marker_free(c) && all_fit(cs, w) && column as nat + str_cols(c) <= w {
                    lemma_str_cols_split(c, scanned as int);
                    lemma_str_cols_split(c.subrange(scanned as int, n as int), glen as int);
                    assert(c.subrange(scanned as int, n as int).subrange(0, glen as int) =~= g@);
                    assert(false);
                }
            }
            let ghost keptv = kept@;
            let mut head_span = Span { content: kept, style };
            let tail_rest = head_span.split_at_in_place(b);
            let mut tail_content = tail_rest.content;
            let suffix = content.as_str().substring_char(scanned, n);
            tail_content.append(suffix);
            let tail_span = Span { content: tail_content, style };
            proof {
                assert(chars_fit(head_span.content@, w));
                if marker_free(c) && all_fit(cs, w) {
                    assert(head_span.content@ + tail_span.content@ =~= c);
                    if b == 0 {
                        assert(head_span.content@.len() == 0);
                        assert(tail_span.content@ =~= c);
                    }
                }
                let part1 = c.subrange(0, scanned as int);
                let suf2 = c.subrange(scanned as int, n as int);
                lemma_subseq_refl(suf2);
                lemma_subseq_concat(keptv, suf2, part1, suf2);
                assert(part1 + suf2 =~= c);
                assert(head_span.content@ + tail_span.content@ =~= keptv + suf2);
                lemma_subseq_span_styled(head_span.content@ + tail_span.content@, c, style);
                lemma_span_styled_split(head_span.content@, tail_span.content@, style);
                if b == 0 {
                    assert(head_span.content@ + tail_span.content@ =~= tail_span.content@);
                }
            }
            if b > 0 {
                return ScanOut {
                    step: ScanStep::Split { head: head_span, tail: tail_span },
                    column: col,
                    was_whitespace: was_ws,
                    was_linebreak: was_lb,
                };
            } else {
                return ScanOut {
                    step: ScanStep::Carry { tail: tail_span },
                    column: col,
                    was_whitespace: was_ws,
                    was_linebreak: was_lb,
                };
            }
        }
        // Commit the cluster to the open line.
        let ghost kept0 = kept@;
        kept.append(g.as_str());
        proof {
            lemma_str_cols_concat(kept0, g@);
            lemma_subseq_refl(g@);
            lemma_subseq_concat(kept0, g@, c.subrange(0, scanned as int), g@);
            assert(c.subrange(0, scanned + glen) =~= c.subrange(0, scanned as int) + g@);
            assert(is_subseq(kept@, c.subrange(0, scanned + glen)));
            assert(kept@.subrange(0, boundary as int) =~= kept0.subrange(0, boundary as int));
            assert forall|k: int| 0 <= k < g@.len() implies char_cols(g@[k]) <= w by {
                lemma_char_le_str(g@, k);
            }
            assert forall|k: int| 0 <= k < kept@.len() implies char_cols(kept@[k]) <= w by {
                if k < kept0.len() {
                } else {
                    assert(kept@[k] == g@[k - kept0.len()]);
                }
            }
            if marker_free(c) && all_fit(cs, w) {
                assert(kept@ =~= c.subrange(0, scanned + glen as int));
            }
        }
        col = next_col as u16;
        was_ws = is_ws;
        kept_chars = kept_chars + glen;
        scanned = scanned + glen;
        i += 1;
    }
    proof {
        assert(cs.subrange(cs.len() as int, cs.len() as int) =~= Seq::<Seq<char>>::empty());
        assert(c.subrange(scanned as int, n as int).len() == 0);
        assert(scanned == n);
        if c.len() == 0 {
            lemma_flatten_empty(cs);
        }
        if marker_free(c) && all_fit(cs, w) {
            assert(kept@ =~= c.subrange(0, n as int));
            assert(kept@ =~= c);
        }
        if marker_free(c) && all_fit(cs, w) && column as nat + str_cols(c) <= w {
            assert(kept@ =~= c);
        }
        assert(c.subrange(0, scanned as int) =~= c);
        assert(is_subseq(kept@, c));
        lemma_subseq_span_styled(kept@, c, style);
    }
    ScanOut {
        step: ScanStep::Done { span: Span { content: kept, style } },
        column: col,
        was_whitespace: was_ws,
        was_linebreak: was_lb,
    }
}

/// A trim-fixed, non-empty string starts with a dark character.
proof fn lemma_ws_fixed_first(s: Seq<char>)
    requires
        ws_trimmed(s) =~= s,
        s.len() > 0,
    ensures
        !is_white(s[0]),
{
    lemma_ws_trimmed_suffix(s);
    assert(lead_white(s) == 0);
}

impl WrappedText {
    /// Flow one source line's runs into the accumulated document, cutting
    /// them wherever the target width demands it.
    #[verifier::rlimit(100)]
    fn push_spans(&mut self, spans: Spans)
        requires
            old(self).wf(),
            old(self).text@.len() > 0,
        ensures
            final(self).wf(),
            final(self).width == old(self).width,
            final(self).trim == old(self).trim,
            final(self).text@.len() >= old(self).text@.len(),
            forall|i: int|
                0 <= i < old(self).text@.len() - 1 ==> final(self).text@[i] =~= old(
                    self,
                ).text@[i],
            is_subseq(
                doc_styled(final(self).text@),
                doc_styled(old(self).text@) + line_styled(spans@),
            ),
            (line_marker_free(spans@) && line_fits(spans@, old(self).width as nat))
                ==> dark_styled(doc_styled(final(self).text@)) =~= dark_styled(
                doc_styled(old(self).text@) + line_styled(spans@),
            ),
            (!old(self).trim && line_marker_free(spans@) && line_fits(
                spans@,
                old(self).width as nat,
            )) ==> doc_styled(final(self).text@) =~= doc_styled(old(self).text@) + line_styled(
                spans@,
            ),
            (old(self).column == 0 && old(self).text@.last().len() == 0 && stable_line(
                spans@,
                old(self).width as nat,
                old(self).trim,
            )) ==> (final(self).text@ =~~= old(self).text@.update(
                old(self).text@.len() - 1,
                spans@,
            ) && final(self).column as nat == line_cols(spans@)),
            (old(self).column == 0 && old(self).text@.last().len() == 0 && line_marker_free(
                spans@,
            ) && line_fits(spans@, old(self).width as nat)) ==> (forall|j: int|
                old(self).text@.len() - 1 <= j < final(self).text@.len() ==> fit_line(
                    #[trigger] final(self).text@[j],
                    old(self).width as nat,
                    old(self).trim,
                )),
            (old(self).trim && old(self).column == 0 && line_all_white(spans@)) ==> {
                &&& final(self).text@.len() == old(self).text@.len()
                &&& line_cols(final(self).text@.last()) == line_cols(old(self).text@.last())
                &&& final(self).column == 0
            },
    {
        let ghost w = old(self).width as nat;
        let ghost sv = spans@;
        let mut queue = spans.0;
        let mut pending: Option<Span> = None;
        let ghost mut consumed: int = 0;
        proof {
            assert(queue@.map_values(|s: Span| s@) =~= sv);
            assert(sv.subrange(0, sv.len() as int) =~= sv);
            assert forall|k: int| 0 <= k < queue@.len() implies (#[trigger] queue@[k])@
                == sv[k] by {}
            assert(doc_styled(self.text@) + pend_styled(pending) + line_styled(
                queue@.map_values(|s: Span| s@),
            ) =~= doc_styled(old(self).text@) + line_styled(sv));
            lemma_subseq_refl(doc_styled(old(self).text@) + line_styled(sv));
            if old(self).column == 0 && old(self).text@.last().len() == 0 {
                assert(sv.subrange(0, 0) =~= Seq::<SpanModel>::empty());
                assert(old(self).text@.last() =~= sv.subrange(0, 0));
                assert(self.text@ =~~= old(self).text@.update(
                    old(self).text@.len() - 1,
                    sv.subrange(0, 0),
                ));
                assert(line_cols(sv.subrange(0, 0)) == 0);
                assert(fit_line(old(self).text@.last(), w, old(self).trim));
            }
        }
        loop
            invariant
                self.wf(),
                self.width == old(self).width,
                self.trim == old(self).trim,
                w == old(self).width as nat,
                old(self).text@.len() >= 1,
                self.text@.len() >= old(self).text@.len(),
                forall|i: int|
                    0 <= i < old(self).text@.len() - 1 ==> self.text@[i] =~= old(self).text@[i],
                (line_marker_free(sv) && line_fits(sv, w)) ==> {
                    &&& (pending is Some ==> marker_free((pending->0)@.content) && clusters_fit(
                        (pending->0)@.content,
                        w,
                    ))
                    &&& (forall|k: int|
                        0 <= k < queue@.len() ==> marker_free((#[trigger] queue@[k])@.content)
                            && clusters_fit(queue@[k]@.content, w))
                },
                is_subseq(
                    doc_styled(self.text@) + pend_styled(pending) + line_styled(
                        queue@.map_values(|s: Span| s@),
                    ),
                    doc_styled(old(self).text@) + line_styled(sv),
                ),
                (line_marker_free(sv) && line_fits(sv, w)) ==> dark_styled(
                    doc_styled(self.text@) + pend_styled(pending) + line_styled(
                        queue@.map_values(|s: Span| s@),
                    ),
                ) =~= dark_styled(doc_styled(old(self).text@) + line_styled(sv)),
                (!old(self).trim && line_marker_free(sv) && line_fits(sv, w)) ==> doc_styled(
                    self.text@,
                ) + pend_styled(pending) + line_styled(queue@.map_values(|s: Span| s@))
                    =~= doc_styled(old(self).text@) + line_styled(sv),
                (old(self).column == 0 && old(self).text@.last().len() == 0 && stable_line(
                    sv,
                    w,
                    old(self).trim,
                )) ==> {
                    &&& pending is None
                    &&& 0 <= consumed <= sv.len()
                    &&& queue@.map_values(|s: Span| s@) =~= sv.subrange(consumed, sv.len() as int)
                    &&& self.text@ =~~= old(self).text@.update(
                        old(self).text@.len() - 1,
                        sv.subrange(0, consumed),
                    )
                    &&& self.column as nat == line_cols(sv.subrange(0, consumed))
                },
                (old(self).column == 0 && old(self).text@.last().len() == 0 && line_marker_free(
                    sv,
                ) && line_fits(sv, w)) ==> (forall|j: int|
                    old(self).text@.len() - 1 <= j < self.text@.len() ==> fit_line(
                        #[trigger] self.text@[j],
                        w,
                        old(self).trim,
                    )),
                (old(self).trim && old(self).column == 0 && line_all_white(sv)) ==> {
                    &&& self.text@.len() == old(self).text@.len()
                    &&& line_cols(self.text@.last()) == line_cols(old(self).text@.last())
                    &&& self.column == 0
                    &&& pending is None
                    &&& (forall|k: int|
                        0 <= k < queue@.len() ==> all_white((#[trigger] queue@[k])@.content))
                },
            ensures
                pending is None,
                queue@.len() == 0,
            decreases
                    work_units(queue@, pending),
                    front_len(queue@, pending),
                    self.column as int,
        {
            let ghost qv0 = queue@;
            let ghost pend0 = pending;
            let span: Span;
            if pending.is_some() {
                span = pending.unwrap();
                pending = None;
            } else if queue.len() > 0 {
                span = queue.remove(0);
            } else {
                break ;
            }
            let ghost pre = span@.content;
            let ghost item_style = span@.style;
            proof {
                if pend0 is Some {
                    assert(pre == (pend0->0)@.content);
                } else {
                    assert(span@ == qv0.map_values(|s: Span| s@)[0]);
                    assert(queue@ =~= qv0.subrange(1, qv0.len() as int));
                }
            }
            let mut span = span;
            let col0 = self.column;
            if col0 == 0 && self.trim {
                span.trim_start();
            }
            let ghost cont = span@.content;
            proof {
                lemma_ws_trimmed_suffix(pre);
                lemma_subseq_refl(pre);
                lemma_subseq_refl(ws_trimmed(pre));
                lemma_subseq_prepend(
                    ws_trimmed(pre),
                    pre.subrange(0, lead_white(pre) as int),
                    ws_trimmed(pre),
                );
                assert(pre.subrange(0, lead_white(pre) as int) + ws_trimmed(pre) =~= pre);
                assert(is_subseq(cont, pre));
                lemma_subseq_span_styled(cont, pre, item_style);
                let lead = pre.subrange(0, lead_white(pre) as int);
                assert(pre =~= lead + ws_trimmed(pre));
                lemma_span_styled_split(lead, ws_trimmed(pre), item_style);
                lemma_lead_white_chars(pre);
                assert forall|j: int|
                    0 <= j < span_styled(span_model(lead, item_style)).len() implies is_white(
                    (#[trigger] span_styled(span_model(lead, item_style))[j]).0,
                ) by {
                    assert(span_styled(span_model(lead, item_style))[j].0 == lead[j]);
                    assert(lead[j] == pre[j]);
                }
                lemma_dark_all_white(span_styled(span_model(lead, item_style)));
                lemma_dark_concat(
                    span_styled(span_model(lead, item_style)),
                    span_styled(span_model(ws_trimmed(pre), item_style)),
                );
                assert(span_model(pre, item_style) == span_model(lead + ws_trimmed(pre), item_style));
                assert(dark_styled(span_styled(span_model(pre, item_style))) =~= dark_styled(
                    span_styled(span_model(ws_trimmed(pre), item_style)),
                ));
                assert(dark_styled(span_styled(span_model(cont, item_style))) =~= dark_styled(
                    span_styled(span_model(pre, item_style)),
                ));
                if line_marker_free(sv) && line_fits(sv, w) {
                    if pend0 is Some {
                        assert(marker_free(pre));
                        assert(clusters_fit(pre, w));
                    } else {
                        assert(marker_free((#[trigger] qv0[0])@.content));
                        assert(clusters_fit(qv0[0]@.content, w));
                    }
                    lemma_marker_free_sub(pre, lead_white(pre) as int, pre.len() as int);
                    lemma_clusters_fit_sub(pre, lead_white(pre) as int, pre.len() as int, w);
                    assert(marker_free(cont));
                    assert(clusters_fit(cont, w));
                    lemma_clusters_fit_whole(cont, w);
                }
            }
            let Span { content, style } = span;
            let out = scan_span(
                self.width,
                col0,
                self.was_whitespace,
                self.was_linebreak,
                content,
                style,
            );
            self.was_whitespace = out.was_whitespace;
            self.was_linebreak = out.was_linebreak;
            proof {
                // Under the stable-replay hypothesis the scanned content is the
                // run itself and it fits on the open line, so the scan finishes.
                if old(self).column == 0 && old(self).text@.last().len() == 0 && stable_line(
                    sv,
                    w,
                    old(self).trim,
                ) {
                    assert(pend0 is None);
                    assert(qv0.len() > 0);
                    assert(consumed < sv.len());
                    assert(qv0.map_values(|s: Span| s@)[0] =~= sv[consumed]);
                    assert(pre =~= sv[consumed].content);
                    assert(item_style == sv[consumed].style);
                    assert(sv =~= sv.subrange(0, consumed) + sv.subrange(
                        consumed,
                        sv.len() as int,
                    ));
                    lemma_line_cols_concat(
                        sv.subrange(0, consumed),
                        sv.subrange(consumed, sv.len() as int),
                    );
                    assert(sv.subrange(consumed, sv.len() as int).first() =~= sv[consumed]);
                    assert(line_cols(sv.subrange(consumed, sv.len() as int)) >= str_cols(
                        sv[consumed].content,
                    ));
                    if old(self).trim && col0 == 0 {
                        assert(line_cols(sv.subrange(0, consumed)) == 0);
                        assert(trim_fixed_line(sv));
                        assert(ws_trimmed(pre) =~= pre);
                    }
                    assert(cont =~= pre);
                    assert(col0 as nat + str_cols(cont) <= w);
                    assert(marker_free(cont));
                    assert(clusters_fit(cont, w));
                    lemma_clusters_fit_whole(cont, w);
                    assert(out.step is Done);
                    assert(scan_done(out.step).content =~= cont);
                    assert(out.column as nat == col0 as nat + str_cols(cont));
                }
                if old(self).trim && old(self).column == 0 && line_all_white(sv) {
                    assert(pend0 is None);
                    assert(all_white((#[trigger] qv0[0])@.content));
                    assert(all_white(pre));
                    assert(col0 == 0);
                    lemma_ws_trimmed_all_white(pre);
                    assert(cont.len() == 0);
                    assert(out.step is Done);
                }
            }
            let ghost t_pre = self.text@;
            let ghost last0 = self.text@.last();
            proof {
                // Taking the front work item shifts its styled characters
                // out of the remaining-work sum.
                if pend0 is Some {
                    assert(pend_styled(pend0) =~= span_styled(span_model(pre, item_style)));
                } else {
                    let qmap0 = qv0.map_values(|s: Span| s@);
                    assert(qmap0.first() =~= span_model(pre, item_style));
                    assert(qmap0.drop_first() =~= queue@.map_values(|s: Span| s@));
                    assert(line_styled(qmap0) =~= span_styled(span_model(pre, item_style))
                        + line_styled(queue@.map_values(|s: Span| s@)));
                }
                assert((doc_styled(t_pre) + span_styled(span_model(pre, item_style)))
                    + line_styled(queue@.map_values(|s: Span| s@)) =~= doc_styled(t_pre)
                    + pend_styled(pend0) + line_styled(qv0.map_values(|s: Span| s@)));
                assert(is_subseq(
                    (doc_styled(t_pre) + span_styled(span_model(pre, item_style)))
                        + line_styled(queue@.map_values(|s: Span| s@)),
                    doc_styled(old(self).text@) + line_styled(sv),
                ));
            }
            match out.step {
                ScanStep::Done { span: sp } => {
                    self.column = out.column;
                    self.push_span(sp);
                    proof {
                        let n1 = self.text@.len() as int;
                        let nl = last0.push(sp@);
                        assert(self.text@ =~~= t_pre.update(t_pre.len() - 1, nl));
                        assert(self.text@.last() =~= nl);
                        assert(nl.drop_last() =~= last0);
                        assert(nl.last() == sp@);
                        lemma_line_cols_last(nl);
                        assert(line_cols(last0) == col0 as nat);
                        assert(line_cols(self.text@.last()) == self.column as nat);
                        assert(line_chars_fit(last0, w));
                        lemma_line_chars_fit_push(last0, sp@, w);
                        lemma_doc_chars_fit_update(t_pre, t_pre.len() - 1, nl, w);
                        assert forall|i: int|
                            0 <= i < self.text@.len() - 1 implies line_cols(
                            #[trigger] self.text@[i],
                        ) <= w by {
                            assert(self.text@[i] == t_pre[i]);
                        }
                        assert(self.wf());
                        let it_s = span_styled(span_model(pre, item_style));
                        let rest_t = line_styled(queue@.map_values(|s: Span| s@));
                        let base = doc_styled(old(self).text@) + line_styled(sv);
                        lemma_doc_styled_push_last(t_pre, sp@);
                        assert(doc_styled(self.text@) =~= doc_styled(t_pre) + span_styled(sp@));
                        assert(scan_done(out.step) == sp@);
                        assert(is_subseq(
                            span_styled(sp@),
                            span_styled(span_model(cont, item_style)),
                        ));
                        lemma_subseq_trans(
                            span_styled(sp@),
                            span_styled(span_model(cont, item_style)),
                            it_s,
                        );
                        lemma_subseq_refl(doc_styled(t_pre));
                        lemma_subseq_concat(
                            doc_styled(t_pre),
                            span_styled(sp@),
                            doc_styled(t_pre),
                            it_s,
                        );
                        lemma_subseq_refl(rest_t);
                        lemma_subseq_concat(
                            doc_styled(t_pre) + span_styled(sp@),
                            rest_t,
                            doc_styled(t_pre) + it_s,
                            rest_t,
                        );
                        lemma_subseq_trans(
                            (doc_styled(t_pre) + span_styled(sp@)) + rest_t,
                            (doc_styled(t_pre) + it_s) + rest_t,
                            base,
                        );
                        assert(doc_styled(self.text@) + pend_styled(pending) + line_styled(
                            queue@.map_values(|s: Span| s@),
                        ) =~= (doc_styled(t_pre) + span_styled(sp@)) + rest_t);
                        if line_marker_free(sv) && line_fits(sv, w) {
                            assert(sp@.content =~= cont);
                            assert(span_styled(sp@) =~= span_styled(
                                span_model(cont, item_style),
                            ));
                            lemma_dark_concat(doc_styled(t_pre) + span_styled(sp@), rest_t);
                            lemma_dark_concat(doc_styled(t_pre), span_styled(sp@));
                            lemma_dark_concat(doc_styled(t_pre) + it_s, rest_t);
                            lemma_dark_concat(doc_styled(t_pre), it_s);
                            assert(dark_styled(span_styled(sp@)) =~= dark_styled(it_s));
                            assert(dark_styled(
                                doc_styled(self.text@) + pend_styled(pending) + line_styled(
                                    queue@.map_values(|s: Span| s@),
                                ),
                            ) =~= dark_styled((doc_styled(t_pre) + it_s) + rest_t));
                        }
                        if !old(self).trim && line_marker_free(sv) && line_fits(sv, w) {
                            assert(cont == pre);
                            assert(sp@.content =~= cont);
                            assert(span_styled(sp@) =~= span_styled(span_model(pre, item_style)));
                            assert(doc_styled(self.text@) + pend_styled(pending) + line_styled(
                                queue@.map_values(|s: Span| s@),
                            ) =~= (doc_styled(t_pre) + span_styled(span_model(pre, item_style)))
                                + (pend_styled(pending) + line_styled(
                                queue@.map_values(|s: Span| s@),
                            )));
                        }
                        if old(self).column == 0 && old(self).text@.last().len() == 0
                            && stable_line(sv, w, old(self).trim) {
                            assert(sp@ =~= sv[consumed]);
                            assert(last0 =~= sv.subrange(0, consumed));
                            assert(sv.subrange(0, consumed + 1) =~= sv.subrange(0, consumed).push(
                                sv[consumed],
                            ));
                            assert((sv.subrange(0, consumed + 1)).drop_last() =~= sv.subrange(
                                0,
                                consumed,
                            ));
                            lemma_line_cols_last(sv.subrange(0, consumed + 1));
                            consumed = consumed + 1;
                            assert(self.text@ =~~= old(self).text@.update(
                                old(self).text@.len() - 1,
                                sv.subrange(0, consumed),
                            ));
                            assert(queue@.map_values(|s: Span| s@) =~= sv.subrange(
                                consumed,
                                sv.len() as int,
                            ));
                            assert(self.column as nat == line_cols(sv.subrange(0, consumed)));
                        }
                        if old(self).column == 0 && old(self).text@.last().len() == 0
                            && line_marker_free(sv) && line_fits(sv, w) {
                            assert(fit_line(last0, w, old(self).trim));
                            assert(sp@.content =~= cont);
                            if old(self).trim && col0 == 0 {
                                assert(cont == ws_trimmed(pre));
                                lemma_ws_trimmed_fix(pre);
                                assert(ws_trimmed(sp@.content) =~= sp@.content);
                            }
                            lemma_fit_line_push(last0, sp@, w, old(self).trim, col0 as nat);
                            assert forall|j: int|
                                old(self).text@.len() - 1 <= j < self.text@.len() implies fit_line(
                                #[trigger] self.text@[j],
                                w,
                                old(self).trim,
                            ) by {
                                if j == n1 - 1 {
                                    assert(self.text@[j] =~= nl);
                                } else {
                                    assert(self.text@[j] == t_pre[j]);
                                    assert(fit_line(t_pre[j], w, old(self).trim));
                                }
                            }
                        }
                        if old(self).trim && old(self).column == 0 && line_all_white(sv) {
                            assert(cont.len() == 0);
                            assert(sp@.content =~= cont);
                            assert(str_cols(sp@.content) == 0);
                            assert(line_cols(self.text@.last()) == line_cols(last0));
                            assert(self.text@.len() == t_pre.len());
                            assert(self.column == 0);
                        }
                    }
                }
                ScanStep::Split { head, tail } => {
                    self.push_span(head);
                    pending = Some(tail);
                    self.start_new_line();
                    proof {
                        let closed = last0.push(head@);
                        let mid = t_pre.update(t_pre.len() - 1, closed);
                        assert(self.text@ =~~= mid.push(Seq::<SpanModel>::empty()));
                        let n1 = self.text@.len() as int;
                        assert(self.text@.last() =~= Seq::<SpanModel>::empty());
                        assert(self.text@[n1 - 2] =~= closed);
                        assert(closed.drop_last() =~= last0);
                        assert(closed.last() == head@);
                        lemma_line_cols_last(closed);
                        assert(line_cols(last0) == col0 as nat);
                        assert(line_cols(closed) <= w);
                        lemma_empty_line_props(w, old(self).trim);
                        assert(line_chars_fit(last0, w));
                        lemma_line_chars_fit_push(last0, head@, w);
                        lemma_doc_chars_fit_update(t_pre, t_pre.len() - 1, closed, w);
                        lemma_doc_chars_fit_push(mid, Seq::<SpanModel>::empty(), w);
                        assert forall|i: int|
                            0 <= i < self.text@.len() - 1 implies line_cols(
                            #[trigger] self.text@[i],
                        ) <= w by {
                            if i == n1 - 2 {
                                assert(self.text@[i] =~= closed);
                            } else {
                                assert(self.text@[i] == t_pre[i]);
                            }
                        }
                        assert(self.wf());
                        let it_s = span_styled(span_model(pre, item_style));
                        let rest_t = line_styled(queue@.map_values(|s: Span| s@));
                        let base = doc_styled(old(self).text@) + line_styled(sv);
                        lemma_doc_styled_push_last(t_pre, head@);
                        lemma_doc_styled_push_empty(mid);
                        assert(doc_styled(self.text@) =~= doc_styled(t_pre) + span_styled(head@));
                        let pieces = span_styled(head@) + span_styled(tail@);
                        assert(scan_head(out.step) == head@);
                        assert(scan_tail(out.step) == tail@);
                        assert(is_subseq(pieces, span_styled(span_model(cont, item_style))));
                        lemma_subseq_trans(pieces, span_styled(span_model(cont, item_style)), it_s);
                        lemma_subseq_refl(doc_styled(t_pre));
                        lemma_subseq_concat(doc_styled(t_pre), pieces, doc_styled(t_pre), it_s);
                        lemma_subseq_refl(rest_t);
                        lemma_subseq_concat(
                            doc_styled(t_pre) + pieces,
                            rest_t,
                            doc_styled(t_pre) + it_s,
                            rest_t,
                        );
                        lemma_subseq_trans(
                            (doc_styled(t_pre) + pieces) + rest_t,
                            (doc_styled(t_pre) + it_s) + rest_t,
                            base,
                        );
                        assert(doc_styled(self.text@) + pend_styled(pending) + line_styled(
                            queue@.map_values(|s: Span| s@),
                        ) =~= (doc_styled(t_pre) + pieces) + rest_t);
                        if line_marker_free(sv) && line_fits(sv, w) {
                            assert(head@.content + tail@.content =~= cont);
                            lemma_span_styled_split(head@.content, tail@.content, item_style);
                            assert(span_model(cont, item_style) == span_model(
                                head@.content + tail@.content,
                                item_style,
                            ));
                            assert(pieces =~= span_styled(span_model(cont, item_style)));
                            lemma_dark_concat(doc_styled(t_pre) + pieces, rest_t);
                            lemma_dark_concat(doc_styled(t_pre), pieces);
                            lemma_dark_concat(doc_styled(t_pre) + it_s, rest_t);
                            lemma_dark_concat(doc_styled(t_pre), it_s);
                            assert(dark_styled(pieces) =~= dark_styled(it_s));
                            assert(dark_styled(
                                doc_styled(self.text@) + pend_styled(pending) + line_styled(
                                    queue@.map_values(|s: Span| s@),
                                ),
                            ) =~= dark_styled((doc_styled(t_pre) + it_s) + rest_t));
                            let hl = head@.content.len() as int;
                            assert(tail@.content =~= cont.subrange(hl, cont.len() as int));
                            assert(head@.content =~= cont.subrange(0, hl));
                            lemma_marker_free_sub(cont, hl, cont.len() as int);
                            lemma_clusters_fit_sub(cont, hl, cont.len() as int, w);
                            lemma_marker_free_sub(cont, 0, hl);
                            lemma_clusters_fit_sub(cont, 0, hl, w);
                        }
                        if !old(self).trim && line_marker_free(sv) && line_fits(sv, w) {
                            assert(cont == pre);
                            lemma_doc_styled_push_last(t_pre, head@);
                            lemma_doc_styled_push_empty(mid);
                            assert(doc_styled(self.text@) =~= doc_styled(t_pre) + span_styled(
                                head@,
                            ));
                            lemma_span_styled_split(head@.content, tail@.content, item_style);
                            assert(head@.style == item_style);
                            assert(tail@.style == item_style);
                            assert(span_styled(span_model(pre, item_style)) =~= span_styled(head@)
                                + span_styled(tail@));
                            assert(pend_styled(pending) =~= span_styled(tail@));
                            assert(doc_styled(self.text@) + pend_styled(pending) + line_styled(
                                queue@.map_values(|s: Span| s@),
                            ) =~= ((doc_styled(t_pre) + span_styled(head@)) + span_styled(tail@))
                                + line_styled(queue@.map_values(|s: Span| s@)));
                        }
                        if old(self).column == 0 && old(self).text@.last().len() == 0
                            && stable_line(sv, w, old(self).trim) {
                            assert(false);
                        }
                        if old(self).column == 0 && old(self).text@.last().len() == 0
                            && line_marker_free(sv) && line_fits(sv, w) {
                            assert(fit_line(last0, w, old(self).trim));
                            if old(self).trim && col0 == 0 {
                                assert(cont == ws_trimmed(pre));
                                lemma_ws_trimmed_fix(pre);
                                assert(ws_trimmed(cont) =~= cont);
                                assert(head@.content.len() >= 1);
                                assert(cont.len() > 0);
                                lemma_ws_fixed_first(cont);
                                assert(head@.content[0] == cont[0]);
                                assert(!is_white(head@.content[0]));
                                assert(ws_trimmed(head@.content) =~= head@.content);
                            }
                            lemma_fit_line_push(last0, head@, w, old(self).trim, col0 as nat);
                            assert forall|j: int|
                                old(self).text@.len() - 1 <= j < self.text@.len() implies fit_line(
                                #[trigger] self.text@[j],
                                w,
                                old(self).trim,
                            ) by {
                                if j == n1 - 1 {
                                    assert(self.text@[j] =~= Seq::<SpanModel>::empty());
                                } else if j == n1 - 2 {
                                    assert(self.text@[j] =~= closed);
                                } else {
                                    assert(self.text@[j] == t_pre[j]);
                                    assert(fit_line(t_pre[j], w, old(self).trim));
                                }
                            }
                        }
                        if old(self).trim && old(self).column == 0 && line_all_white(sv) {
                            assert(cont.len() == 0);
                            assert(false);
                        }
                    }
                }
                ScanStep::Carry { tail } => {
                    pending = Some(tail);
                    self.start_new_line();
                    proof {
                        assert(self.text@ =~~= t_pre.push(Seq::<SpanModel>::empty()));
                        let n1 = self.text@.len() as int;
                        assert(self.text@.last() =~= Seq::<SpanModel>::empty());
                        assert(self.text@[n1 - 2] =~= last0);
                        assert(line_cols(last0) == col0 as nat);
                        lemma_empty_line_props(w, old(self).trim);
                        lemma_doc_chars_fit_push(t_pre, Seq::<SpanModel>::empty(), w);
                        assert forall|i: int|
                            0 <= i < self.text@.len() - 1 implies line_cols(
                            #[trigger] self.text@[i],
                        ) <= w by {
                            if i == n1 - 2 {
                                assert(self.text@[i] =~= last0);
                            } else {
                                assert(self.text@[i] == t_pre[i]);
                            }
                        }
                        assert(self.wf());
                        let it_s = span_styled(span_model(pre, item_style));
                        let rest_t = line_styled(queue@.map_values(|s: Span| s@));
                        let base = doc_styled(old(self).text@) + line_styled(sv);
                        lemma_doc_styled_push_empty(t_pre);
                        assert(doc_styled(self.text@) =~= doc_styled(t_pre));
                        assert(scan_tail(out.step) == tail@);
                        assert(is_subseq(
                            span_styled(tail@),
                            span_styled(span_model(cont, item_style)),
                        ));
                        lemma_subseq_trans(
                            span_styled(tail@),
                            span_styled(span_model(cont, item_style)),
                            it_s,
                        );
                        lemma_subseq_refl(doc_styled(t_pre));
                        lemma_subseq_concat(
                            doc_styled(t_pre),
                            span_styled(tail@),
                            doc_styled(t_pre),
                            it_s,
                        );
                        lemma_subseq_refl(rest_t);
                        lemma_subseq_concat(
                            doc_styled(t_pre) + span_styled(tail@),
                            rest_t,
                            doc_styled(t_pre) + it_s,
                            rest_t,
                        );
                        lemma_subseq_trans(
                            (doc_styled(t_pre) + span_styled(tail@)) + rest_t,
                            (doc_styled(t_pre) + it_s) + rest_t,
                            base,
                        );
                        assert(doc_styled(self.text@) + pend_styled(pending) + line_styled(
                            queue@.map_values(|s: Span| s@),
                        ) =~= (doc_styled(t_pre) + span_styled(tail@)) + rest_t);
                        if line_marker_free(sv) && line_fits(sv, w) {
                            assert(tail@.content =~= cont);
                            assert(span_styled(tail@) =~= span_styled(
                                span_model(cont, item_style),
                            ));
                            lemma_dark_concat(doc_styled(t_pre) + span_styled(tail@), rest_t);
                            lemma_dark_concat(doc_styled(t_pre), span_styled(tail@));
                            lemma_dark_concat(doc_styled(t_pre) + it_s, rest_t);
                            lemma_dark_concat(doc_styled(t_pre), it_s);
                            assert(dark_styled(span_styled(tail@)) =~= dark_styled(it_s));
                            assert(dark_styled(
                                doc_styled(self.text@) + pend_styled(pending) + line_styled(
                                    queue@.map_values(|s: Span| s@),
                                ),
                            ) =~= dark_styled((doc_styled(t_pre) + it_s) + rest_t));
                        }
                        if !old(self).trim && line_marker_free(sv) && line_fits(sv, w) {
                            assert(cont == pre);
                            lemma_doc_styled_push_empty(t_pre);
                            assert(doc_styled(self.text@) =~= doc_styled(t_pre));
                            assert(span_styled(tail@) =~= span_styled(span_model(pre, item_style)));
                            assert(pend_styled(pending) =~= span_styled(tail@));
                        }
                        if old(self).column == 0 && old(self).text@.last().len() == 0
                            && stable_line(sv, w, old(self).trim) {
                            assert(false);
                        }
                        if old(self).column == 0 && old(self).text@.last().len() == 0
                            && line_marker_free(sv) && line_fits(sv, w) {
                            assert forall|j: int|
                                old(self).text@.len() - 1 <= j < self.text@.len() implies fit_line(
                                #[trigger] self.text@[j],
                                w,
                                old(self).trim,
                            ) by {
                                if j == n1 - 1 {
                                    assert(self.text@[j] =~= Seq::<SpanModel>::empty());
                                    lemma_empty_line_props(w, old(self).trim);
                                } else {
                                    assert(self.text@[j] == t_pre[j]);
                                    assert(fit_line(t_pre[j], w, old(self).trim));
                                }
                            }
                        }
                        if old(self).trim && old(self).column == 0 && line_all_white(sv) {
                            assert(cont.len() == 0);
                            assert(false);
                        }
                    }
                }
            }
        }
        proof {
            assert(queue@.map_values(|s: Span| s@) =~= Seq::<SpanModel>::empty());
            assert(line_styled(queue@.map_values(|s: Span| s@)) =~= Seq::<(char, Style)>::empty());
            assert(doc_styled(self.text@) + pend_styled(pending) + line_styled(
                queue@.map_values(|s: Span| s@),
            ) =~= doc_styled(self.text@));
            if old(self).column == 0 && old(self).text@.last().len() == 0 && stable_line(
                sv,
                w,
                old(self).trim,
            ) {
                assert(sv.subrange(consumed, sv.len() as int).len() == 0);
                assert(consumed == sv.len());
                assert(sv.subrange(0, consumed) =~= sv);
            }
        }
    }
}

/// The model of a run assembled from parts.
pub(crate) open spec fn span_model(content: Seq<char>, style: Style) -> SpanModel {
    SpanModel { content, style }
}

impl WrappedText {
    /// Feed every line of `text` into the engine, each wrapped from a fresh
    /// per-line cursor onto a fresh output line: the cursor column and both
    /// white-space and break-marker memory are reset at every source line,
    /// so the lines appended for `text` do not depend on the cursor state an
    /// earlier feed left behind, and none of the clauses below assumes
    /// anything of it.
    #[verifier::rlimit(60)]
    pub fn extend(&mut self, text: Text)
        requires
            old(self).wf(),
        ensures
            final(self).wf(),
            final(self).width == old(self).width,
            final(self).trim == old(self).trim,
            final(self).text@.len() >= old(self).text@.len() + text@.len(),
            forall|i: int|
                0 <= i < old(self).text@.len() ==> final(self).text@[i] =~= old(self).text@[i],
            is_subseq(
                doc_styled(final(self).text@),
                doc_styled(old(self).text@) + doc_styled(text@),
            ),
            (doc_marker_free(text@) && doc_fits(text@, old(self).width as nat)) ==> dark_styled(
                doc_styled(final(self).text@),
            ) =~= dark_styled(doc_styled(old(self).text@) + doc_styled(text@)),
            (!old(self).trim && doc_marker_free(text@) && doc_fits(text@, old(self).width as nat))
                ==> doc_styled(final(self).text@) =~= doc_styled(old(self).text@) + doc_styled(
                text@,
            ),
            doc_stable(text@, old(self).width as nat, old(self).trim) ==> final(self).text@
                =~~= old(self).text@ + text@,
            (doc_marker_free(text@) && doc_fits(text@, old(self).width as nat)) ==> (forall|j: int|
                old(self).text@.len() <= j < final(self).text@.len() ==> fit_line(
                    #[trigger] final(self).text@[j],
                    old(self).width as nat,
                    old(self).trim,
                )),
            (old(self).trim && doc_all_white(text@)) ==> {
                &&& final(self).text@.len() == old(self).text@.len() + text@.len()
                &&& (forall|j: int|
                    old(self).text@.len() <= j < final(self).text@.len() ==> line_cols(
                        #[trigger] final(self).text@[j],
                    ) == 0)
            },
    {
        let ghost w = old(self).width as nat;
        let ghost tv = text@;
        let mut rest = text.lines;
        let ghost mut k: int = 0;
        proof {
            assert(rest@.map_values(|l: Spans| l@) =~= tv);
            assert(tv.subrange(0, tv.len() as int) =~= tv);
            assert(tv.subrange(0, 0) =~= Seq::<Seq<SpanModel>>::empty());
            assert(doc_styled(tv.subrange(0, 0)) =~= Seq::<(char, Style)>::empty());
            assert(self.text@ =~~= old(self).text@ + tv.subrange(0, 0));
            assert(doc_styled(old(self).text@) + doc_styled(tv.subrange(0, 0)) =~= doc_styled(
                old(self).text@,
            ));
            lemma_subseq_refl(doc_styled(old(self).text@));
        }
        while rest.len() > 0
            invariant
                self.wf(),
                self.width == old(self).width,
                self.trim == old(self).trim,
                w == old(self).width as nat,
                0 <= k <= tv.len(),
                k + rest@.len() == tv.len(),
                rest@.map_values(|l: Spans| l@) =~= tv.subrange(k, tv.len() as int),
                self.text@.len() >= old(self).text@.len() + k,
                forall|i: int|
                    0 <= i < old(self).text@.len() ==> self.text@[i] =~= old(self).text@[i],
                is_subseq(
                    doc_styled(self.text@),
                    doc_styled(old(self).text@) + doc_styled(tv.subrange(0, k)),
                ),
                (doc_marker_free(tv) && doc_fits(tv, w)) ==> dark_styled(doc_styled(self.text@))
                    =~= dark_styled(doc_styled(old(self).text@) + doc_styled(tv.subrange(0, k))),
                (!old(self).trim && doc_marker_free(tv) && doc_fits(tv, w)) ==> doc_styled(
                    self.text@,
                ) =~= doc_styled(old(self).text@) + doc_styled(tv.subrange(0, k)),
                doc_stable(tv, w, old(self).trim) ==> self.text@ =~~= old(self).text@
                    + tv.subrange(0, k),
                (doc_marker_free(tv) && doc_fits(tv, w)) ==> (forall|j: int|
                    old(self).text@.len() <= j < self.text@.len() ==> fit_line(
                        #[trigger] self.text@[j],
                        w,
                        old(self).trim,
                    )),
                (old(self).trim && doc_all_white(tv)) ==> {
                    &&& self.text@.len() == old(self).text@.len() + k
                    &&& (forall|j: int|
                        old(self).text@.len() <= j < self.text@.len() ==> line_cols(
                            #[trigger] self.text@[j],
                        ) == 0)
                },
            decreases rest@.len(),
        {
            let ghost t_enter = self.text@;
            self.was_whitespace = false;
            self.was_linebreak = false;
            self.start_new_line();
            let ghost t_open = self.text@;
            proof {
                assert(t_open =~~= t_enter.push(Seq::<SpanModel>::empty()));
                lemma_empty_line_props(w, old(self).trim);
                lemma_doc_chars_fit_push(t_enter, Seq::<SpanModel>::empty(), w);
                assert forall|i: int|
                    0 <= i < t_open.len() - 1 implies line_cols(#[trigger] t_open[i]) <= w by {
                    if i == t_open.len() - 2 {
                        assert(t_open[i] =~= t_enter.last());
                    } else {
                        assert(t_open[i] == t_enter[i]);
                    }
                }
                assert(self.wf());
            }
            let ghost r0 = rest@;
            let line = rest.remove(0);
            proof {
                assert(line == r0[0]);
                assert(r0.map_values(|l: Spans| l@)[0] == line@);
                assert(line@ =~= tv[k]);
                assert(rest@ =~= r0.subrange(1, r0.len() as int));
                assert(r0.subrange(1, r0.len() as int).map_values(|l: Spans| l@) =~= r0.map_values(
                    |l: Spans| l@,
                ).subrange(1, r0.len() as int));
                assert(rest@.map_values(|l: Spans| l@) =~= tv.subrange(k + 1, tv.len() as int));
            }
            let ghost pre_len = self.text@.len() as int;
            self.push_spans(line);
            proof {
                let o_len = old(self).text@.len() as int;
                assert forall|i: int| 0 <= i < o_len implies self.text@[i] =~= old(
                    self,
                ).text@[i] by {
                    assert(self.text@[i] =~= t_open[i]);
                    assert(t_open[i] =~= t_enter[i]);
                }
                if !old(self).trim && doc_marker_free(tv) && doc_fits(tv, w) {
                    assert(line_marker_free(tv[k]));
                    assert(line_fits(tv[k], w));
                    lemma_doc_styled_push_empty(t_enter);
                    assert(doc_styled(self.text@) =~= doc_styled(t_enter) + line_styled(line@));
                    assert(tv.subrange(0, k + 1) =~= tv.subrange(0, k).push(tv[k]));
                    lemma_doc_styled_last(tv.subrange(0, k + 1));
                    assert((tv.subrange(0, k + 1)).drop_last() =~= tv.subrange(0, k));
                    assert(doc_styled(self.text@) =~= (doc_styled(old(self).text@) + doc_styled(
                        tv.subrange(0, k),
                    )) + line_styled(tv[k]));
                }
                if doc_stable(tv, w, old(self).trim) {
                    assert(stable_line(tv[k], w, old(self).trim));
                    assert(t_open.last().len() == 0);
                    assert(self.text@ =~~= t_open.update(t_open.len() - 1, tv[k]));
                    assert(tv.subrange(0, k + 1) =~= tv.subrange(0, k).push(tv[k]));
                    assert(self.text@ =~~= old(self).text@ + tv.subrange(0, k + 1));
                }
                if doc_marker_free(tv) && doc_fits(tv, w) {
                    assert(line_marker_free(tv[k]));
                    assert(line_fits(tv[k], w));
                    assert forall|j: int|
                        o_len <= j < self.text@.len() implies fit_line(
                        #[trigger] self.text@[j],
                        w,
                        old(self).trim,
                    ) by {
                        if j < pre_len - 1 {
                            assert(self.text@[j] =~= t_open[j]);
                            if j < t_enter.len() {
                                assert(t_open[j] =~= t_enter[j]);
                                assert(fit_line(t_enter[j], w, old(self).trim));
                            } else {
                                assert(t_open[j] =~= Seq::<SpanModel>::empty());
                                lemma_empty_line_props(w, old(self).trim);
                            }
                        }
                    }
                }
                if old(self).trim && doc_all_white(tv) {
                    assert(line_all_white(tv[k]));
                    assert(self.text@.len() == pre_len);
                    assert(line_cols(self.text@.last()) == line_cols(t_open.last()));
                    assert(line_cols(t_open.last()) == 0);
                    assert forall|j: int|
                        o_len <= j < self.text@.len() implies line_cols(
                        #[trigger] self.text@[j],
                    ) == 0 by {
                        if j < pre_len - 1 {
                            assert(self.text@[j] =~= t_open[j]);
                            if j < t_enter.len() {
                                assert(t_open[j] =~= t_enter[j]);
                            } else {
                                assert(t_open[j] =~= Seq::<SpanModel>::empty());
                            }
                        } else {
                            assert(j == pre_len - 1);
                            assert(self.text@[j] =~= self.text@.last());
                        }
                    }
                }
                lemma_doc_styled_push_empty(t_enter);
                assert(doc_styled(t_open) =~= doc_styled(t_enter));
                assert(is_subseq(
                    doc_styled(self.text@),
                    doc_styled(t_enter) + line_styled(tv[k]),
                ));
                if doc_marker_free(tv) && doc_fits(tv, w) {
                    assert(line_marker_free(tv[k]));
                    assert(line_fits(tv[k], w));
                    assert(dark_styled(doc_styled(self.text@)) =~= dark_styled(
                        doc_styled(t_enter) + line_styled(tv[k]),
                    ));
                    lemma_dark_concat(doc_styled(t_enter), line_styled(tv[k]));
                    lemma_dark_concat(
                        doc_styled(old(self).text@) + doc_styled(tv.subrange(0, k)),
                        line_styled(tv[k]),
                    );
                    lemma_dark_concat(doc_styled(old(self).text@), doc_styled(tv.subrange(0, k)));
                    assert(tv.subrange(0, k + 1) =~= tv.subrange(0, k).push(tv[k]));
                    lemma_doc_styled_last(tv.subrange(0, k + 1));
                    assert((tv.subrange(0, k + 1)).drop_last() =~= tv.subrange(0, k));
                    lemma_dark_concat(doc_styled(tv.subrange(0, k)), line_styled(tv[k]));
                    lemma_dark_concat(
                        doc_styled(old(self).text@),
                        doc_styled(tv.subrange(0, k + 1)),
                    );
                    assert(dark_styled(doc_styled(self.text@)) =~= dark_styled(
                        doc_styled(old(self).text@) + doc_styled(tv.subrange(0, k + 1)),
                    ));
                }
                lemma_subseq_refl(line_styled(tv[k]));
                lemma_subseq_concat(
                    doc_styled(t_enter),
                    line_styled(tv[k]),
                    doc_styled(old(self).text@) + doc_styled(tv.subrange(0, k)),
                    line_styled(tv[k]),
                );
                lemma_subseq_trans(
                    doc_styled(self.text@),
                    doc_styled(t_enter) + line_styled(tv[k]),
                    (doc_styled(old(self).text@) + doc_styled(tv.subrange(0, k))) + line_styled(
                        tv[k],
                    ),
                );
                assert(tv.subrange(0, k + 1) =~= tv.subrange(0, k).push(tv[k]));
                lemma_doc_styled_last(tv.subrange(0, k + 1));
                assert((tv.subrange(0, k + 1)).drop_last() =~= tv.subrange(0, k));
                assert((doc_styled(old(self).text@) + doc_styled(tv.subrange(0, k)))
                    + line_styled(tv[k]) =~= doc_styled(old(self).text@) + doc_styled(
                    tv.subrange(0, k + 1),
                ));
                k = k + 1;
            }
        }
        proof {
            assert(tv.subrange(0, k) =~= tv);
        }
    }
}

/// Every line a well-formed engine has accumulated fits within its width:
/// closed lines by construction, and the open line because its width is the
/// cursor column.
pub proof fn lemma_wrapped_lines_fit(wt: WrappedText)
    requires
        wt.wf(),
    ensures
        forall|i: int| 0 <= i < wt.text@.len() ==> line_cols(#[trigger] wt.text@[i]) <= wt.width as nat,
        doc_cols(wt.text@) <= wt.width as nat,
{
    assert forall|i: int| 0 <= i < wt.text@.len() implies line_cols(#[trigger] wt.text@[i])
        <= wt.width as nat by {
        if i == wt.text@.len() - 1 {
            assert(wt.text@[i] =~= wt.text@.last());
        }
    }
    lemma_doc_cols_bound(wt.text@, wt.width as nat);
}

impl Text {
    /// Reflow this text to fit within `width` display columns, breaking
    /// preferentially at word boundaries and trimming each broken line's
    /// leading white space when `trim` is set.
    ///
    /// The contract states the laws of wrapping. Unconditionally: no output
    /// line is wider than the target; no character wider than the target on
    /// its own ever reaches the output; every fed line opens at least one
    /// output line; and the output's styled characters are a subsequence of
    /// the input's, so every surviving character keeps exactly the style of
    /// the run it came from, whatever the trim policy. For input with no
    /// line-feed character and no slice that segments into a cluster wider
    /// than the target: the non-white styled characters are preserved
    /// exactly, trim on or off; with trim off the whole content is preserved
    /// exactly; and the output is stable, while wrapping any stable document
    /// reproduces it unchanged — together, idempotence. An all-white
    /// document under trimming collapses to width zero while keeping its
    /// line count.
    pub fn wrap(self, width: u16, trim: bool) -> (out: Text)
        ensures
            out@.len() >= self@.len(),
            forall|i: int|
                0 <= i < out@.len() ==> line_cols(#[trigger] out@[i]) <= width as nat,
            doc_cols(out@) <= width as nat,
            doc_chars_fit(out@, width as nat),
            is_subseq(doc_styled(out@), doc_styled(self@)),
            (doc_marker_free(self@) && doc_fits(self@, width as nat)) ==> dark_styled(
                doc_styled(out@),
            ) =~= dark_styled(doc_styled(self@)),
            (!trim && doc_marker_free(self@) && doc_fits(self@, width as nat)) ==> doc_styled(
                out@,
            ) =~= doc_styled(self@),
            (doc_marker_free(self@) && doc_fits(self@, width as nat)) ==> doc_stable(
                out@,
                width as nat,
                trim,
            ),
            doc_stable(self@, width as nat, trim) ==> out@ =~~= self@,
            (trim && doc_all_white(self@)) ==> {
                &&& out@.len() == self@.len()
                &&& doc_cols(out@) == 0
            },
    {
        let ghost tv = self@;
        let mut engine = WrappedText::new(width).trim(trim);
        engine.extend(self);
        proof {
            lemma_wrapped_lines_fit(engine);
            assert(Seq::<Seq<SpanModel>>::empty() + tv =~~= tv);
            assert(doc_styled(Seq::<Seq<SpanModel>>::empty()) =~= Seq::<(char, Style)>::empty());
            assert(doc_styled(Seq::<Seq<SpanModel>>::empty()) + doc_styled(tv) =~= doc_styled(
                tv,
            ));
            if doc_marker_free(tv) && doc_fits(tv, width as nat) {
                assert forall|i: int| 0 <= i < engine.text@.len() implies stable_line(
                    #[trigger] engine.text@[i],
                    width as nat,
                    trim,
                ) by {
                    assert(fit_line(engine.text@[i], width as nat, trim));
                    assert(line_cols(engine.text@[i]) <= width as nat);
                }
            }
            if trim && doc_all_white(tv) {
                assert forall|i: int| 0 <= i < engine.text@.len() implies line_cols(
                    #[trigger] engine.text@[i],
                ) == 0 by {}
                lemma_doc_cols_bound(engine.text@, 0);
            }
        }
        Text::from(engine)
    }
}

impl From<WrappedText> for Text {
    fn from(t: WrappedText) -> (r: Text) {
        t.text
    }
}

impl vstd::std_specs::convert::FromSpecImpl<WrappedText> for Text {
    open spec fn obeys_from_spec() -> bool {
        true
    }

    open spec fn from_spec(v: WrappedText) -> Text {
        v.text
    }
}

} // verus!
