use vstd::prelude::*;
use vstd::string::StrSliceExecFns;
use vstd::string::StringExecFns;
use crate::style::Style;
use crate::style::spec_patch;
use crate::style::unset_style;
use crate::unicode::char_cols;
use crate::unicode::str_cols;
use crate::unicode::clusters_of;
use crate::unicode::is_white;
use crate::unicode::measure_str;
use crate::unicode::split_clusters;
use crate::unicode::white_char;

verus! {

/// One user-perceived character paired with the style it renders with.
#[derive(Debug, Clone, PartialEq)]
pub struct StyledGrapheme {
    pub symbol: String,
    pub style: Style,
}

/// A single-line run of text whose characters all share one style.
#[derive(Debug, Clone, PartialEq)]
pub struct Span {
    pub content: String,
    pub style: Style,
}

/// One visual line: an ordered sequence of style runs.
#[derive(Debug, Clone, PartialEq)]
pub struct Spans(pub Vec<Span>);

/// A multi-line text value: an ordered sequence of lines.
#[derive(Debug, Clone, PartialEq)]
pub struct Text {
    pub lines: Vec<Spans>,
}

/// The mathematical value of a run: its characters and their style.
#[verifier::ext_equal]
pub ghost struct SpanModel {
    pub content: Seq<char>,
    pub style: Style,
}

impl View for Span {
    type V = SpanModel;

    open spec fn view(&self) -> SpanModel {
        SpanModel { content: self.content@, style: self.style }
    }
}

impl View for Spans {
    type V = Seq<SpanModel>;

    open spec fn view(&self) -> Seq<SpanModel> {
        self.0@.map_values(|sp: Span| sp@)
    }
}

impl View for Text {
    type V = Seq<Seq<SpanModel>>;

    open spec fn view(&self) -> Seq<Seq<SpanModel>> {
        self.lines@.map_values(|l: Spans| l@)
    }
}

impl View for StyledGrapheme {
    type V = SpanModel;

    open spec fn view(&self) -> SpanModel {
        SpanModel { content: self.symbol@, style: self.style }
    }
}

/// The display width of a line: the sum of the widths of its runs.
pub open spec fn line_cols(line: Seq<SpanModel>) -> nat
    decreases line.len(),
{
    if line.len() == 0 {
        0
    } else {
        str_cols(line.first().content) + line_cols(line.drop_first())
    }
}

/// The larger of two widths.
pub open spec fn spec_max(a: nat, b: nat) -> nat {
    if a >= b {
        a
    } else {
        b
    }
}

/// The display width of a document: the widest of its lines, 0 if empty.
pub open spec fn doc_cols(doc: Seq<Seq<SpanModel>>) -> nat
    decreases doc.len(),
{
    if doc.len() == 0 {
        0
    } else {
        spec_max(line_cols(doc.first()), doc_cols(doc.drop_first()))
    }
}

/// The characters of a line, in reading order, styling forgotten.
pub open spec fn line_chars(line: Seq<SpanModel>) -> Seq<char>
    decreases line.len(),
{
    if line.len() == 0 {
        Seq::empty()
    } else {
        line.first().content + line_chars(line.drop_first())
    }
}

/// Whether `a` is a subsequence of `b`: `a` can be obtained from `b` by
/// deleting elements, keeping the order of the rest.
pub open spec fn is_subseq<A>(a: Seq<A>, b: Seq<A>) -> bool
    decreases b.len(),
{
    if a.len() == 0 {
        true
    } else if b.len() == 0 {
        false
    } else {
        (a[0] == b[0] && is_subseq(a.drop_first(), b.drop_first())) || is_subseq(
            a,
            b.drop_first(),
        )
    }
}

/// Every sequence is a subsequence of itself.
pub proof fn lemma_subseq_refl<A>(a: Seq<A>)
    ensures
        is_subseq(a, a),
    decreases a.len(),
{
    if a.len() > 0 {
        lemma_subseq_refl(a.drop_first());
    }
}

/// A subsequence survives extra material in front of the larger sequence.
pub proof fn lemma_subseq_prepend<A>(a: Seq<A>, z: Seq<A>, b: Seq<A>)
    requires
        is_subseq(a, b),
    ensures
        is_subseq(a, z + b),
    decreases z.len(),
{
    if a.len() == 0 {
    } else if z.len() == 0 {
        assert(z + b =~= b);
    } else {
        lemma_subseq_prepend(a, z.drop_first(), b);
        assert((z + b).drop_first() =~= z.drop_first() + b);
    }
}

/// Subsequences concatenate: pieces of pieces stay in order.
pub proof fn lemma_subseq_concat<A>(a1: Seq<A>, a2: Seq<A>, b1: Seq<A>, b2: Seq<A>)
    requires
        is_subseq(a1, b1),
        is_subseq(a2, b2),
    ensures
        is_subseq(a1 + a2, b1 + b2),
    decreases b1.len(),
{
    if b1.len() == 0 {
        assert(a1.len() == 0);
        assert(a1 + a2 =~= a2);
        lemma_subseq_prepend(a2, b1, b2);
    } else if a1.len() == 0 {
        assert(a1 + a2 =~= a2);
        lemma_subseq_prepend(a2, b1, b2);
    } else {
        if a1[0] == b1[0] && is_subseq(a1.drop_first(), b1.drop_first()) {
            lemma_subseq_concat(a1.drop_first(), a2, b1.drop_first(), b2);
            assert((a1 + a2).drop_first() =~= a1.drop_first() + a2);
            assert((b1 + b2).drop_first() =~= b1.drop_first() + b2);
            assert((a1 + a2)[0] == (b1 + b2)[0]);
        } else {
            assert(is_subseq(a1, b1.drop_first()));
            lemma_subseq_concat(a1, a2, b1.drop_first(), b2);
            assert((b1 + b2).drop_first() =~= b1.drop_first() + b2);
        }
    }
}

/// Being a subsequence is transitive.
pub proof fn lemma_subseq_trans<A>(a: Seq<A>, b: Seq<A>, c: Seq<A>)
    requires
        is_subseq(a, b),
        is_subseq(b, c),
    ensures
        is_subseq(a, c),
    decreases c.len(),
{
    if a.len() == 0 {
    } else {
        assert(b.len() > 0);
        assert(c.len() > 0);
        if b[0] == c[0] && is_subseq(b.drop_first(), c.drop_first()) {
            if a[0] == b[0] && is_subseq(a.drop_first(), b.drop_first()) {
                lemma_subseq_trans(a.drop_first(), b.drop_first(), c.drop_first());
            } else {
                assert(is_subseq(a, b.drop_first()));
                lemma_subseq_trans(a, b.drop_first(), c.drop_first());
            }
        } else {
            assert(is_subseq(b, c.drop_first()));
            lemma_subseq_trans(a, b, c.drop_first());
        }
    }
}

/// The characters of a line paired with the style each renders with.
pub open spec fn span_styled(sm: SpanModel) -> Seq<(char, Style)> {
    sm.content.map_values(|c: char| (c, sm.style))
}

/// A subsequence of the characters, under one shared style, is a
/// subsequence of the styled characters.
pub proof fn lemma_subseq_span_styled(a: Seq<char>, b: Seq<char>, style: Style)
    requires
        is_subseq(a, b),
    ensures
        is_subseq(
            span_styled(SpanModel { content: a, style }),
            span_styled(SpanModel { content: b, style }),
        ),
    decreases b.len(),
{
    let sa = span_styled(SpanModel { content: a, style });
    let sb = span_styled(SpanModel { content: b, style });
    if a.len() == 0 {
        assert(sa.len() == 0);
    } else {
        assert(b.len() > 0);
        if a[0] == b[0] && is_subseq(a.drop_first(), b.drop_first()) {
            lemma_subseq_span_styled(a.drop_first(), b.drop_first(), style);
            assert(sa.drop_first() =~= span_styled(
                SpanModel { content: a.drop_first(), style },
            ));
            assert(sb.drop_first() =~= span_styled(
                SpanModel { content: b.drop_first(), style },
            ));
            assert(sa[0] == sb[0]);
            assert(is_subseq(sa, sb));
        } else {
            assert(is_subseq(a, b.drop_first()));
            lemma_subseq_span_styled(a, b.drop_first(), style);
            assert(sb.drop_first() =~= span_styled(
                SpanModel { content: b.drop_first(), style },
            ));
            assert(is_subseq(sa, sb));
        }
    }
}

/// The styled characters of a line, in reading order.
pub open spec fn line_styled(line: Seq<SpanModel>) -> Seq<(char, Style)>
    decreases line.len(),
{
    if line.len() == 0 {
        Seq::empty()
    } else {
        span_styled(line.first()) + line_styled(line.drop_first())
    }
}

/// The styled characters of a whole document, line boundaries ignored.
pub open spec fn doc_styled(doc: Seq<Seq<SpanModel>>) -> Seq<(char, Style)>
    decreases doc.len(),
{
    if doc.len() == 0 {
        Seq::empty()
    } else {
        line_styled(doc.first()) + doc_styled(doc.drop_first())
    }
}

/// Every character of the leading white run is white.
pub proof fn lemma_lead_white_chars(s: Seq<char>)
    ensures
        forall|j: int| 0 <= j < lead_white(s) ==> is_white(s[j]),
    decreases s.len(),
{
    lemma_ws_trimmed_suffix(s);
    if s.len() > 0 && is_white(s[0]) {
        lemma_lead_white_chars(s.drop_first());
        assert forall|j: int| 0 <= j < lead_white(s) implies is_white(s[j]) by {
            if j > 0 {
                assert(s.drop_first()[j - 1] == s[j]);
                assert(j - 1 < lead_white(s.drop_first()));
                assert(is_white(s.drop_first()[j - 1]));
            }
        }
    }
}

/// The styled characters that are not white space, in order.
pub open spec fn dark_styled(s: Seq<(char, Style)>) -> Seq<(char, Style)>
    decreases s.len(),
{
    if s.len() == 0 {
        Seq::empty()
    } else if is_white(s.first().0) {
        dark_styled(s.drop_first())
    } else {
        seq![s.first()] + dark_styled(s.drop_first())
    }
}

/// The dark projection distributes over concatenation.
pub proof fn lemma_dark_concat(a: Seq<(char, Style)>, b: Seq<(char, Style)>)
    ensures
        dark_styled(a + b) =~= dark_styled(a) + dark_styled(b),
    decreases a.len(),
{
    if a.len() == 0 {
        assert(a + b =~= b);
    } else {
        lemma_dark_concat(a.drop_first(), b);
        assert((a + b).drop_first() =~= a.drop_first() + b);
    }
}

/// An all-white styled run has no dark characters.
pub proof fn lemma_dark_all_white(s: Seq<(char, Style)>)
    requires
        forall|j: int| 0 <= j < s.len() ==> is_white((#[trigger] s[j]).0),
    ensures
        dark_styled(s).len() == 0,
    decreases s.len(),
{
    if s.len() > 0 {
        assert(is_white(s.first().0));
        lemma_dark_all_white(s.drop_first());
    }
}

/// Line widths add up over concatenation of lines.
pub proof fn lemma_line_cols_concat(a: Seq<SpanModel>, b: Seq<SpanModel>)
    ensures
        line_cols(a + b) == line_cols(a) + line_cols(b),
    decreases a.len(),
{
    if a.len() == 0 {
        assert(a + b =~= b);
    } else {
        lemma_line_cols_concat(a.drop_first(), b);
        assert((a + b).drop_first() =~= a.drop_first() + b);
    }
}

/// Styled characters add up over concatenation of lines.
pub proof fn lemma_line_styled_concat(a: Seq<SpanModel>, b: Seq<SpanModel>)
    ensures
        line_styled(a + b) =~= line_styled(a) + line_styled(b),
    decreases a.len(),
{
    if a.len() == 0 {
        assert(a + b =~= b);
    } else {
        lemma_line_styled_concat(a.drop_first(), b);
        assert((a + b).drop_first() =~= a.drop_first() + b);
    }
}

/// Styled characters add up over concatenation of documents.
pub proof fn lemma_doc_styled_concat(a: Seq<Seq<SpanModel>>, b: Seq<Seq<SpanModel>>)
    ensures
        doc_styled(a + b) =~= doc_styled(a) + doc_styled(b),
    decreases a.len(),
{
    if a.len() == 0 {
        assert(a + b =~= b);
    } else {
        lemma_doc_styled_concat(a.drop_first(), b);
        assert((a + b).drop_first() =~= a.drop_first() + b);
    }
}

/// The content with its longest all-white prefix removed, judging each
/// character by the Unicode white-space property.
pub open spec fn ws_trimmed(s: Seq<char>) -> Seq<char>
    decreases s.len(),
{
    if s.len() > 0 && is_white(s[0]) {
        ws_trimmed(s.drop_first())
    } else {
        s
    }
}

/// If the first `k` characters are white and the next one is not, trimming
/// removes exactly those `k`.
pub proof fn lemma_ws_trimmed_at(s: Seq<char>, k: int)
    requires
        0 <= k <= s.len(),
        forall|j: int| 0 <= j < k ==> is_white(s[j]),
        k < s.len() ==> !is_white(s[k]),
    ensures
        ws_trimmed(s) =~= s.subrange(k, s.len() as int),
    decreases k,
{
    if k == 0 {
        if s.len() > 0 {
            assert(!is_white(s[0]));
        }
        assert(s.subrange(0, s.len() as int) =~= s);
    } else {
        lemma_ws_trimmed_at(s.drop_first(), k - 1);
        assert(s.drop_first().subrange(k - 1, s.drop_first().len() as int) =~= s.subrange(
            k,
            s.len() as int,
        ));
    }
}

/// Trimming reaches a fixed point: the result is empty or starts dark.
pub proof fn lemma_ws_trimmed_fix(s: Seq<char>)
    ensures
        ws_trimmed(s).len() > 0 ==> !is_white(ws_trimmed(s)[0]),
        ws_trimmed(ws_trimmed(s)) =~= ws_trimmed(s),
    decreases s.len(),
{
    if s.len() > 0 && is_white(s[0]) {
        lemma_ws_trimmed_fix(s.drop_first());
    }
}

/// Trimming an all-white string leaves nothing.
pub proof fn lemma_ws_trimmed_all_white(s: Seq<char>)
    requires
        forall|j: int| 0 <= j < s.len() ==> is_white(s[j]),
    ensures
        ws_trimmed(s).len() == 0,
{
    lemma_ws_trimmed_at(s, s.len() as int);
}

/// How many leading characters of `s` are white space.
pub open spec fn lead_white(s: Seq<char>) -> nat
    decreases s.len(),
{
    if s.len() > 0 && is_white(s[0]) {
        1 + lead_white(s.drop_first())
    } else {
        0
    }
}

/// Trimming removes exactly the leading white run: the result is the suffix
/// from `lead_white(s)`.
pub proof fn lemma_ws_trimmed_suffix(s: Seq<char>)
    ensures
        lead_white(s) <= s.len(),
        ws_trimmed(s) =~= s.subrange(lead_white(s) as int, s.len() as int),
    decreases s.len(),
{
    if s.len() > 0 && is_white(s[0]) {
        lemma_ws_trimmed_suffix(s.drop_first());
        assert(s.drop_first().subrange(
            lead_white(s.drop_first()) as int,
            s.drop_first().len() as int,
        ) =~= s.subrange(lead_white(s) as int, s.len() as int));
    } else {
        assert(s.subrange(0, s.len() as int) =~= s);
    }
}

/// A line that is one run wide has that run's width.
pub proof fn lemma_line_cols_single(sm: SpanModel)
    ensures
        line_cols(seq![sm]) == str_cols(sm.content),
{
    let l = seq![sm];
    assert(l.len() == 1);
    assert(l.first() == sm);
    assert(l.drop_first() =~= Seq::<SpanModel>::empty());
    assert(line_cols(l.drop_first()) == 0);
    assert(line_cols(l) == str_cols(sm.content) + line_cols(l.drop_first()));
}

/// Splitting off the last run of a line splits its width.
pub proof fn lemma_line_cols_last(line: Seq<SpanModel>)
    requires
        line.len() > 0,
    ensures
        line_cols(line) == line_cols(line.drop_last()) + str_cols(line.last().content),
{
    assert(line =~= line.drop_last() + seq![line.last()]);
    lemma_line_cols_concat(line.drop_last(), seq![line.last()]);
    lemma_line_cols_single(line.last());
}

/// A line that is one run wide has that run's styled characters.
pub proof fn lemma_line_styled_single(sm: SpanModel)
    ensures
        line_styled(seq![sm]) =~= span_styled(sm),
{
    let l = seq![sm];
    assert(l.len() == 1);
    assert(l.first() == sm);
    assert(l.drop_first() =~= Seq::<SpanModel>::empty());
    assert(line_styled(l.drop_first()) =~= Seq::<(char, Style)>::empty());
    assert(line_styled(l) =~= span_styled(sm) + line_styled(l.drop_first()));
}

/// Splitting off the last run of a line splits its styled characters.
pub proof fn lemma_line_styled_last(line: Seq<SpanModel>)
    requires
        line.len() > 0,
    ensures
        line_styled(line) =~= line_styled(line.drop_last()) + span_styled(line.last()),
{
    assert(line =~= line.drop_last() + seq![line.last()]);
    lemma_line_styled_concat(line.drop_last(), seq![line.last()]);
    lemma_line_styled_single(line.last());
}

/// Splitting off the last line of a document splits its styled characters.
pub proof fn lemma_doc_styled_last(doc: Seq<Seq<SpanModel>>)
    requires
        doc.len() > 0,
    ensures
        doc_styled(doc) =~= doc_styled(doc.drop_last()) + line_styled(doc.last()),
{
    assert(doc =~= doc.drop_last() + seq![doc.last()]);
    lemma_doc_styled_concat(doc.drop_last(), seq![doc.last()]);
    let l = seq![doc.last()];
    assert(l.len() == 1);
    assert(l.first() == doc.last());
    assert(l.drop_first() =~= Seq::<Seq<SpanModel>>::empty());
    assert(doc_styled(l.drop_first()) =~= Seq::<(char, Style)>::empty());
    assert(doc_styled(l) =~= line_styled(doc.last()) + doc_styled(l.drop_first()));
}

/// A run's styled characters split where its content splits.
pub proof fn lemma_span_styled_split(a: Seq<char>, b: Seq<char>, style: Style)
    ensures
        span_styled(SpanModel { content: a + b, style }) =~= span_styled(
            SpanModel { content: a, style },
        ) + span_styled(SpanModel { content: b, style }),
{
}

/// If every line's width is at most `w`, the document's width is too.
pub proof fn lemma_doc_cols_bound(doc: Seq<Seq<SpanModel>>, w: nat)
    requires
        forall|i: int| 0 <= i < doc.len() ==> line_cols(#[trigger] doc[i]) <= w,
    ensures
        doc_cols(doc) <= w,
    decreases doc.len(),
{
    if doc.len() > 0 {
        assert(line_cols(doc[0]) <= w);
        assert(forall|i: int|
            0 <= i < doc.drop_first().len() ==> line_cols(#[trigger] doc.drop_first()[i]) <= w);
        lemma_doc_cols_bound(doc.drop_first(), w);
    }
}

/// The index of the first line feed, or the length if there is none.
pub open spec fn first_nl(s: Seq<char>) -> nat
    decreases s.len(),
{
    if s.len() == 0 {
        0
    } else if s[0] == '\n' {
        0
    } else {
        1 + first_nl(s.drop_first())
    }
}

/// A trailing carriage return removed, if present.
pub open spec fn strip_cr(s: Seq<char>) -> Seq<char> {
    if s.len() > 0 && s[s.len() - 1] == '\r' {
        s.drop_last()
    } else {
        s
    }
}

/// The lines of a string: split at each line feed, with a carriage return
/// immediately before a line feed removed, and nothing produced after a
/// final line feed.
pub open spec fn split_lines(s: Seq<char>) -> Seq<Seq<char>>
    decreases s.len(),
{
    if s.len() == 0 {
        Seq::empty()
    } else {
        let i = first_nl(s) as int;
        if i >= s.len() {
            seq![s]
        } else {
            seq![strip_cr(s.subrange(0, i))] + split_lines(s.subrange(i + 1, s.len() as int))
        }
    }
}

/// Where the first line feed lies: exactly after the line-feed-free prefix.
pub proof fn lemma_first_nl_at(s: Seq<char>, k: int)
    requires
        0 <= k <= s.len(),
        forall|j: int| 0 <= j < k ==> s[j] != '\n',
        k < s.len() ==> s[k] == '\n',
    ensures
        first_nl(s) == k,
    decreases k,
{
    if k == 0 {
    } else {
        lemma_first_nl_at(s.drop_first(), k - 1);
    }
}

/// Splitting off the first line: if the characters before position `i` hold
/// no line feed and position `i` holds one, the lines of the suffix from `a`
/// are the stripped piece before `i` followed by the lines after `i`.
pub proof fn lemma_split_lines_step(s: Seq<char>, a: int, i: int)
    requires
        0 <= a <= i < s.len(),
        s[i] == '\n',
        forall|j: int| a <= j < i ==> s[j] != '\n',
    ensures
        split_lines(s.subrange(a, s.len() as int)) =~= seq![strip_cr(s.subrange(a, i))]
            + split_lines(s.subrange(i + 1, s.len() as int)),
{
    let t = s.subrange(a, s.len() as int);
    assert(forall|j: int| 0 <= j < i - a ==> t[j] != '\n');
    lemma_first_nl_at(t, i - a);
    assert(t.subrange(0, i - a) =~= s.subrange(a, i));
    assert(t.subrange(i - a + 1, t.len() as int) =~= s.subrange(i + 1, s.len() as int));
}

/// A tail with no line feed is a single line.
pub proof fn lemma_split_lines_last(s: Seq<char>, a: int)
    requires
        0 <= a < s.len(),
        forall|j: int| a <= j < s.len() ==> s[j] != '\n',
    ensures
        split_lines(s.subrange(a, s.len() as int)) =~= seq![s.subrange(a, s.len() as int)],
{
    let t = s.subrange(a, s.len() as int);
    assert(forall|j: int| 0 <= j < t.len() ==> t[j] != '\n');
    lemma_first_nl_at(t, t.len() as int);
}

/// Find the end of the all-white prefix of a string.
fn scan_white(s: &String) -> (k: usize)
    ensures
        k <= s@.len(),
        forall|j: int| 0 <= j < k ==> is_white(s@[j]),
        k < s@.len() ==> !is_white(s@[k as int]),
{
    let n = s.as_str().unicode_len();
    let mut k: usize = 0;
    while k < n
        invariant_except_break
            k <= n,
            n == s@.len(),
            forall|j: int| 0 <= j < k ==> is_white(s@[j]),
        ensures
            k <= n,
            n == s@.len(),
            forall|j: int| 0 <= j < k ==> is_white(s@[j]),
            k < n ==> !is_white(s@[k as int]),
        decreases n - k,
    {
        if !white_char(s.as_str().get_char(k)) {
            break ;
        }
        k += 1;
    }
    k
}

impl Span {
    /// Create a run with no style.
    pub fn raw(content: &str) -> (r: Span)
        ensures
            r@ == (SpanModel { content: content@, style: unset_style() }),
    {
        Span { content: content.to_owned(), style: Style::default() }
    }

    /// Create a run with a style.
    pub fn styled(content: &str, style: Style) -> (r: Span)
        ensures
            r@ == (SpanModel { content: content@, style: style }),
    {
        Span { content: content.to_owned(), style }
    }

    /// The display width of the run's content.
    pub fn width(&self) -> (r: usize)
        ensures
            r as nat == str_cols(self.content@),
    {
        measure_str(self.content.as_str())
    }

    /// Cut the run after `mid` characters: this run keeps the head, the
    /// returned run holds the tail, both with the same style.
    pub fn split_at_in_place(&mut self, mid: usize) -> (tail: Span)
        requires
            mid <= old(self).content@.len(),
        ensures
            final(self).content@ == old(self).content@.subrange(0, mid as int),
            final(self).style == old(self).style,
            tail.content@ == old(self).content@.subrange(
                mid as int,
                old(self).content@.len() as int,
            ),
            tail.style == old(self).style,
    {
        let n = self.content.as_str().unicode_len();
        let tail_content = self.content.as_str().substring_char(mid, n).to_owned();
        let head = self.content.as_str().substring_char(0, mid).to_owned();
        self.content = head;
        Span { content: tail_content, style: self.style }
    }

    /// Remove the run's leading white space.
    ///
    /// White space is judged by the Unicode white-space property, which the
    /// no-break space has: a no-break space is deliberately treated as
    /// trimmable here, even though the wrap engine never takes it as a break
    /// candidate.
    pub fn trim_start(&mut self)
        ensures
            final(self).content@ == ws_trimmed(old(self).content@),
            final(self).style == old(self).style,
    {
        let k = scan_white(&self.content);
        proof {
            lemma_ws_trimmed_at(self.content@, k as int);
        }
        let n = self.content.as_str().unicode_len();
        let rest = self.content.as_str().substring_char(k, n).to_owned();
        self.content = rest;
    }
}

/// The clusters of a string with the bare line-feed cluster left out.
pub open spec fn visible_clusters(cs: Seq<Seq<char>>) -> Seq<Seq<char>>
    decreases cs.len(),
{
    if cs.len() == 0 {
        Seq::empty()
    } else if cs.first() == seq!['\n'] {
        visible_clusters(cs.drop_first())
    } else {
        seq![cs.first()] + visible_clusters(cs.drop_first())
    }
}

impl Span {
    /// The run broken into user-perceived characters, each carrying the
    /// style obtained by merging this run's style onto `base_style`. Bare
    /// line-feed clusters are filtered out.
    pub fn styled_graphemes(&self, base_style: Style) -> (r: Vec<StyledGrapheme>)
        ensures
            r@.map_values(|sg: StyledGrapheme| sg.symbol@) =~= visible_clusters(
                clusters_of(self.content@),
            ),
            forall|i: int|
                0 <= i < r@.len() ==> (#[trigger] r@[i]).style == spec_patch(
                    base_style,
                    self.style,
                ),
    {
        let clusters = split_clusters(self.content.as_str());
        let merged = base_style.patch(self.style);
        let mut r: Vec<StyledGrapheme> = Vec::new();
        let ghost cs = clusters@.map_values(|g: String| g@);
        let mut i: usize = 0;
        proof {
            assert(cs.subrange(0, cs.len() as int) =~= cs);
            assert(r@.map_values(|sg: StyledGrapheme| sg.symbol@) + visible_clusters(cs)
                =~= visible_clusters(cs));
        }
        while i < clusters.len()
            invariant
                i <= clusters.len(),
                merged == spec_patch(base_style, self.style),
                cs == clusters@.map_values(|g: String| g@),
                r@.map_values(|sg: StyledGrapheme| sg.symbol@) + visible_clusters(
                    cs.subrange(i as int, cs.len() as int),
                ) =~= visible_clusters(cs),
                forall|j: int|
                    0 <= j < r@.len() ==> (#[trigger] r@[j]).style == spec_patch(
                        base_style,
                        self.style,
                    ),
            decreases clusters.len() - i,
        {
            let g = &clusters[i];
            let ghost rest = cs.subrange(i as int, cs.len() as int);
            let ghost rmap0 = r@.map_values(|sg: StyledGrapheme| sg.symbol@);
            proof {
                assert(rest.drop_first() =~= cs.subrange(i + 1, cs.len() as int));
                assert(rest.first() == cs[i as int]);
            }
            let is_nl = g.as_str().unicode_len() == 1 && g.as_str().get_char(0) == '\n';
            proof {
                if is_nl {
                    assert(cs[i as int] =~= seq!['\n']);
                } else {
                    assert(!(cs[i as int] =~= seq!['\n']));
                }
            }
            if !is_nl {
                let sg = StyledGrapheme { symbol: g.clone(), style: merged };
                assert(sg.symbol@ == cs[i as int]);
                r.push(sg);
                proof {
                    assert(r@.map_values(|sg2: StyledGrapheme| sg2.symbol@) =~= rmap0.push(
                        cs[i as int],
                    ));
                    assert(rmap0.push(cs[i as int]) + visible_clusters(rest.drop_first())
                        =~= rmap0 + (seq![cs[i as int]] + visible_clusters(rest.drop_first())));
                    assert(r@.last().style == spec_patch(base_style, self.style));
                }
            }
            i += 1;
        }
        proof {
            assert(cs.subrange(cs.len() as int, cs.len() as int) =~= Seq::<Seq<char>>::empty());
        }
        r
    }
}

impl Spans {
    /// The display width of the line: the sum of its runs' widths.
    pub fn width(&self) -> (r: usize)
        requires
            line_cols(self@) <= usize::MAX,
        ensures
            r as nat == line_cols(self@),
    {
        let mut r: usize = 0;
        let mut i: usize = 0;
        proof {
            assert(self@.subrange(0, self@.len() as int) =~= self@);
        }
        while i < self.0.len()
            invariant
                i <= self.0.len(),
                line_cols(self@) <= usize::MAX,
                r + line_cols(self@.subrange(i as int, self@.len() as int)) == line_cols(self@),
            decreases self.0.len() - i,
        {
            let ghost rest = self@.subrange(i as int, self@.len() as int);
            proof {
                assert(rest.drop_first() =~= self@.subrange(i + 1, self@.len() as int));
                assert(rest.first() == self@[i as int]);
            }
            let w = self.0[i].width();
            r = r + w;
            i += 1;
        }
        proof {
            assert(self@.subrange(self@.len() as int, self@.len() as int)
                =~= Seq::<SpanModel>::empty());
        }
        r
    }
}

impl Default for Spans {
    /// The empty line.
    fn default() -> (r: Spans)
        ensures
            r@ =~= Seq::<SpanModel>::empty(),
    {
        Spans(Vec::new())
    }
}

impl Default for Text {
    /// The empty document.
    fn default() -> (r: Text)
        ensures
            r@ =~= Seq::<Seq<SpanModel>>::empty(),
    {
        Text { lines: Vec::new() }
    }
}

impl Text {
    /// Split `content` into lines, each a single unstyled run.
    pub fn raw(content: &str) -> (r: Text)
        ensures
            r@.len() == split_lines(content@).len(),
            forall|i: int|
                0 <= i < r@.len() ==> #[trigger] r@[i] =~= seq![
                    (SpanModel { content: split_lines(content@)[i], style: unset_style() }),
                ],
    {
        let ghost s = content@;
        let n = content.unicode_len();
        let mut lines: Vec<Spans> = Vec::new();
        let ghost mut pieces: Seq<Seq<char>> = Seq::empty();
        let mut start: usize = 0;
        let mut i: usize = 0;
        proof {
            assert(s.subrange(0, s.len() as int) =~= s);
            assert(pieces + split_lines(s.subrange(0, s.len() as int)) =~= split_lines(s));
        }
        while i < n
            invariant
                start <= i <= n,
                n == s.len(),
                content@ == s,
                forall|j: int| start <= j < i ==> s[j] != '\n',
                pieces.len() == lines@.len(),
                forall|k: int|
                    0 <= k < lines@.len() ==> #[trigger] lines@[k]@ =~= seq![
                        (SpanModel { content: pieces[k], style: unset_style() }),
                    ],
                split_lines(s) =~= pieces + split_lines(s.subrange(start as int, s.len() as int)),
            decreases n - i,
        {
            if content.get_char(i) == '\n' {
                let mut endpos = i;
                if i > start && content.get_char(i - 1) == '\r' {
                    endpos = i - 1;
                }
                let piece = content.substring_char(start, endpos).to_owned();
                proof {
                    lemma_split_lines_step(s, start as int, i as int);
                    if i > start && s[i - 1] == '\r' {
                        assert(strip_cr(s.subrange(start as int, i as int)) =~= s.subrange(
                            start as int,
                            i - 1,
                        ));
                    } else {
                        assert(strip_cr(s.subrange(start as int, i as int)) =~= s.subrange(
                            start as int,
                            i as int,
                        ));
                    }
                }
                let sp = Span { content: piece, style: Style::default() };
                let mut line_vec: Vec<Span> = Vec::new();
                line_vec.push(sp);
                lines.push(Spans(line_vec));
                proof {
                    pieces = pieces.push(piece@);
                    assert(lines@.last()@ =~= seq![
                        (SpanModel { content: piece@, style: unset_style() }),
                    ]);
                }
                start = i + 1;
            }
            i += 1;
        }
        if start < n {
            let piece = content.substring_char(start, n).to_owned();
            proof {
                lemma_split_lines_last(s, start as int);
            }
            let sp = Span { content: piece, style: Style::default() };
            let mut line_vec: Vec<Span> = Vec::new();
            line_vec.push(sp);
            lines.push(Spans(line_vec));
            proof {
                pieces = pieces.push(piece@);
                assert(lines@.last()@ =~= seq![
                    (SpanModel { content: piece@, style: unset_style() }),
                ]);
                assert(split_lines(s) =~= pieces);
            }
        } else {
            proof {
                assert(s.subrange(start as int, s.len() as int).len() == 0);
                assert(split_lines(s.subrange(start as int, s.len() as int))
                    =~= Seq::<Seq<char>>::empty());
                assert(split_lines(s) =~= pieces);
            }
        }
        proof {
            let r_view = lines@.map_values(|l: Spans| l@);
            assert(r_view.len() == pieces.len());
        }
        Text { lines }
    }

    /// As `raw`, then merge `style` onto every run.
    pub fn styled(content: &str, style: Style) -> (r: Text)
        ensures
            r@.len() == split_lines(content@).len(),
            forall|i: int|
                0 <= i < r@.len() ==> #[trigger] r@[i] =~= seq![
                    (SpanModel {
                        content: split_lines(content@)[i],
                        style: spec_patch(unset_style(), style),
                    }),
                ],
    {
        let mut text = Text::raw(content);
        text.patch_style(style);
        text
    }

    /// The widest of the lines, 0 for an empty document.
    pub fn width(&self) -> (r: usize)
        requires
            forall|i: int| 0 <= i < self@.len() ==> line_cols(#[trigger] self@[i]) <= usize::MAX,
        ensures
            r as nat == doc_cols(self@),
    {
        let mut r: usize = 0;
        let mut i: usize = 0;
        proof {
            assert(self@.subrange(0, self@.len() as int) =~= self@);
        }
        while i < self.lines.len()
            invariant
                i <= self.lines.len(),
                forall|k: int|
                    0 <= k < self@.len() ==> line_cols(#[trigger] self@[k]) <= usize::MAX,
                doc_cols(self@) == spec_max(
                    r as nat,
                    doc_cols(self@.subrange(i as int, self@.len() as int)),
                ),
            decreases self.lines.len() - i,
        {
            let ghost rest = self@.subrange(i as int, self@.len() as int);
            proof {
                assert(rest.drop_first() =~= self@.subrange(i + 1, self@.len() as int));
                assert(rest.first() == self@[i as int]);
            }
            let w = self.lines[i].width();
            if w > r {
                r = w;
            }
            i += 1;
        }
        proof {
            assert(self@.subrange(self@.len() as int, self@.len() as int)
                =~= Seq::<Seq<SpanModel>>::empty());
        }
        r
    }

    /// The number of lines.
    pub fn height(&self) -> (r: usize)
        ensures
            r == self@.len(),
    {
        self.lines.len()
    }

    /// Merge `style` onto every run of every line, in place. No content
    /// changes.
    pub fn patch_style(&mut self, style: Style)
        ensures
            final(self)@.len() == old(self)@.len(),
            forall|i: int|
                0 <= i < old(self)@.len() ==> (#[trigger] final(self)@[i]).len()
                    == old(self)@[i].len(),
            forall|i: int, j: int|
                (0 <= i < old(self)@.len() && 0 <= j < old(self)@[i].len())
                    ==> #[trigger] (final(self)@[i][j]) == (SpanModel {
                    content: old(self)@[i][j].content,
                    style: spec_patch(old(self)@[i][j].style, style),
                }),
    {
        let ghost orig = old(self)@;
        let mut out: Vec<Spans> = Vec::new();
        while self.lines.len() > 0
            invariant
                out@.len() + self.lines@.len() == orig.len(),
                forall|k: int|
                    0 <= k < self.lines@.len() ==> #[trigger] self.lines@[k]@ =~= orig[out@.len()
                        + k],
                forall|k: int| 0 <= k < out@.len() ==> (#[trigger] out@[k]@).len() == orig[k].len(),
                forall|k: int, j: int|
                    0 <= k < out@.len() && 0 <= j < orig[k].len() ==> #[trigger] out@[k]@[j]
                        == (SpanModel {
                        content: orig[k][j].content,
                        style: spec_patch(orig[k][j].style, style),
                    }),
            decreases self.lines@.len(),
        {
            let ghost k = out@.len() as int;
            let line = self.lines.remove(0);
            let ghost line_orig = orig[k];
            proof {
                assert(line@ =~= line_orig);
            }
            let mut src = line.0;
            let mut dst: Vec<Span> = Vec::new();
            while src.len() > 0
                invariant
                    dst@.len() + src@.len() == line_orig.len(),
                    forall|m: int|
                        0 <= m < src@.len() ==> #[trigger] src@[m]@ == line_orig[dst@.len() + m],
                    forall|m: int|
                        0 <= m < dst@.len() ==> #[trigger] dst@[m]@ == (SpanModel {
                            content: line_orig[m].content,
                            style: spec_patch(line_orig[m].style, style),
                        }),
                decreases src@.len(),
            {
                let ghost m0 = dst@.len() as int;
                let mut sp = src.remove(0);
                proof {
                    assert(sp@ == line_orig[m0]);
                }
                sp.style = sp.style.patch(style);
                dst.push(sp);
                proof {
                    assert(dst@.last()@ == (SpanModel {
                        content: line_orig[m0].content,
                        style: spec_patch(line_orig[m0].style, style),
                    }));
                }
            }
            out.push(Spans(dst));
            proof {
                assert(out@.last()@ =~= dst@.map_values(|sp: Span| sp@));
            }
        }
        self.lines = out;
    }

    /// Append the lines of `other` after the lines of this document.
    pub fn extend(&mut self, other: Text)
        ensures
            final(self)@ =~= old(self)@ + other@,
    {
        let mut rest = other.lines;
        let ghost total = old(self)@ + rest@.map_values(|l: Spans| l@);
        while rest.len() > 0
            invariant
                self@ + rest@.map_values(|l: Spans| l@) =~= total,
            decreases rest@.len(),
        {
            let line = rest.remove(0);
            self.lines.push(line);
        }
    }
}

impl From<&str> for Span {
    fn from(s: &str) -> (r: Span)
        ensures
            r@ == (SpanModel { content: s@, style: unset_style() }),
    {
        Span::raw(s)
    }
}

impl vstd::std_specs::convert::FromSpecImpl<&str> for Span {
    open spec fn obeys_from_spec() -> bool {
        false
    }

    open spec fn from_spec(v: &str) -> Span {
        arbitrary()
    }
}

impl From<String> for Span {
    fn from(s: String) -> (r: Span)
        ensures
            r@ == (SpanModel { content: s@, style: unset_style() }),
    {
        Span { content: s, style: Style::default() }
    }
}

impl vstd::std_specs::convert::FromSpecImpl<String> for Span {
    open spec fn obeys_from_spec() -> bool {
        false
    }

    open spec fn from_spec(v: String) -> Span {
        arbitrary()
    }
}

impl From<Vec<Span>> for Spans {
    fn from(spans: Vec<Span>) -> (r: Spans)
    {
        Spans(spans)
    }
}

impl vstd::std_specs::convert::FromSpecImpl<Vec<Span>> for Spans {
    open spec fn obeys_from_spec() -> bool {
        true
    }

    open spec fn from_spec(v: Vec<Span>) -> Spans {
        Spans(v)
    }
}

impl From<Span> for Spans {
    fn from(span: Span) -> (r: Spans)
        ensures
            r@ =~= seq![span@],
    {
        let mut v: Vec<Span> = Vec::new();
        v.push(span);
        Spans(v)
    }
}

impl vstd::std_specs::convert::FromSpecImpl<Span> for Spans {
    open spec fn obeys_from_spec() -> bool {
        false
    }

    open spec fn from_spec(v: Span) -> Spans {
        arbitrary()
    }
}

impl From<&str> for Spans {
    fn from(s: &str) -> (r: Spans)
        ensures
            r@ =~= seq![(SpanModel { content: s@, style: unset_style() })],
    {
        let mut v: Vec<Span> = Vec::new();
        v.push(Span::raw(s));
        Spans(v)
    }
}

impl vstd::std_specs::convert::FromSpecImpl<&str> for Spans {
    open spec fn obeys_from_spec() -> bool {
        false
    }

    open spec fn from_spec(v: &str) -> Spans {
        arbitrary()
    }
}

impl From<String> for Spans {
    fn from(s: String) -> (r: Spans)
        ensures
            r@ =~= seq![(SpanModel { content: s@, style: unset_style() })],
    {
        let mut v: Vec<Span> = Vec::new();
        v.push(Span { content: s, style: Style::default() });
        Spans(v)
    }
}

impl vstd::std_specs::convert::FromSpecImpl<String> for Spans {
    open spec fn obeys_from_spec() -> bool {
        false
    }

    open spec fn from_spec(v: String) -> Spans {
        arbitrary()
    }
}

impl From<Spans> for String {
    /// The line's plain text: its runs' contents concatenated, styling lost.
    fn from(line: Spans) -> (r: String)
        ensures
            r@ =~= line_chars(line@),
    {
        let mut r = String::new();
        let mut rest = line.0;
        let ghost lv = line@;
        let ghost mut k: int = 0;
        proof {
            assert(rest@.map_values(|sp: Span| sp@) =~= lv);
            assert(lv.subrange(0, lv.len() as int) =~= lv);
        }
        while rest.len() > 0
            invariant
                0 <= k <= lv.len(),
                k + rest@.len() == lv.len(),
                rest@.map_values(|sp: Span| sp@) =~= lv.subrange(k, lv.len() as int),
                r@ + line_chars(lv.subrange(k, lv.len() as int)) =~= line_chars(lv),
            decreases rest@.len(),
        {
            let ghost r0 = rest@;
            let sp = rest.remove(0);
            proof {
                assert(sp == r0[0]);
                assert(sp@ =~= lv[k]);
                assert(rest@ =~= r0.subrange(1, r0.len() as int));
                assert(r0.subrange(1, r0.len() as int).map_values(|sp2: Span| sp2@)
                    =~= r0.map_values(|sp2: Span| sp2@).subrange(1, r0.len() as int));
                assert(rest@.map_values(|sp2: Span| sp2@) =~= lv.subrange(k + 1, lv.len() as int));
                let tail = lv.subrange(k, lv.len() as int);
                assert(tail.first() =~= lv[k]);
                assert(tail.drop_first() =~= lv.subrange(k + 1, lv.len() as int));
            }
            r.append(sp.content.as_str());
            proof {
                k = k + 1;
            }
        }
        proof {
            assert(lv.subrange(lv.len() as int, lv.len() as int) =~= Seq::<SpanModel>::empty());
        }
        r
    }
}

impl vstd::std_specs::convert::FromSpecImpl<Spans> for String {
    open spec fn obeys_from_spec() -> bool {
        false
    }

    open spec fn from_spec(v: Spans) -> String {
        arbitrary()
    }
}

impl From<Vec<Spans>> for Text {
    fn from(lines: Vec<Spans>) -> (r: Text)
    {
        Text { lines }
    }
}

impl vstd::std_specs::convert::FromSpecImpl<Vec<Spans>> for Text {
    open spec fn obeys_from_spec() -> bool {
        true
    }

    open spec fn from_spec(v: Vec<Spans>) -> Text {
        Text { lines: v }
    }
}

impl From<Spans> for Text {
    fn from(spans: Spans) -> (r: Text)
        ensures
            r@ =~= seq![spans@],
    {
        let mut v: Vec<Spans> = Vec::new();
        v.push(spans);
        Text { lines: v }
    }
}

impl vstd::std_specs::convert::FromSpecImpl<Spans> for Text {
    open spec fn obeys_from_spec() -> bool {
        false
    }

    open spec fn from_spec(v: Spans) -> Text {
        arbitrary()
    }
}

impl From<Span> for Text {
    fn from(span: Span) -> (r: Text)
        ensures
            r@ =~~= seq![seq![span@]],
    {
        let mut v: Vec<Span> = Vec::new();
        v.push(span);
        let mut lines: Vec<Spans> = Vec::new();
        lines.push(Spans(v));
        Text { lines }
    }
}

impl vstd::std_specs::convert::FromSpecImpl<Span> for Text {
    open spec fn obeys_from_spec() -> bool {
        false
    }

    open spec fn from_spec(v: Span) -> Text {
        arbitrary()
    }
}

impl From<&str> for Text {
    fn from(s: &str) -> (r: Text)
        ensures
            r@.len() == split_lines(s@).len(),
            forall|i: int|
                0 <= i < r@.len() ==> #[trigger] r@[i] =~= seq![
                    (SpanModel { content: split_lines(s@)[i], style: unset_style() }),
                ],
    {
        Text::raw(s)
    }
}

impl vstd::std_specs::convert::FromSpecImpl<&str> for Text {
    open spec fn obeys_from_spec() -> bool {
        false
    }

    open spec fn from_spec(v: &str) -> Text {
        arbitrary()
    }
}

impl From<String> for Text {
    fn from(s: String) -> (r: Text)
        ensures
            r@.len() == split_lines(s@).len(),
            forall|i: int|
                0 <= i < r@.len() ==> #[trigger] r@[i] =~= seq![
                    (SpanModel { content: split_lines(s@)[i], style: unset_style() }),
                ],
    {
        Text::raw(s.as_str())
    }
}

impl vstd::std_specs::convert::FromSpecImpl<String> for Text {
    open spec fn obeys_from_spec() -> bool {
        false
    }

    open spec fn from_spec(v: String) -> Text {
        arbitrary()
    }
}

} // verus!
