use vstd::prelude::*;

verus! {

/// The display width, in terminal columns, that the width tables assign to a
/// single character. It depends on the character alone.
pub uninterp spec fn char_cols(c: char) -> nat;

/// The display width of a string: the sum of the widths of its characters.
/// This is how `unicode_width` measures a `&str`.
pub open spec fn str_cols(s: Seq<char>) -> nat
    decreases s.len(),
{
    if s.len() == 0 {
        0
    } else {
        char_cols(s[0]) + str_cols(s.drop_first())
    }
}

/// The extended grapheme clusters a string splits into. The segmentation
/// depends on the string alone; the clusters are non-empty, contiguous, and
/// concatenate back to the string.
pub uninterp spec fn clusters_of(s: Seq<char>) -> Seq<Seq<char>>;

/// Whether a character has the Unicode white-space property.
pub uninterp spec fn is_white(c: char) -> bool;

/// Relies on `unicode_width::UnicodeWidthStr::width`: the sum, over the
/// string's characters, of each character's column width, where a control
/// character such as a line feed counts as zero columns.
#[verifier::external_body]
pub(crate) fn measure_str(s: &str) -> (r: usize)
    ensures
        r as nat == str_cols(s@),
        s@.len() == 1 ==> r as nat == char_cols(s@[0]),
        s@ =~= seq!['\n'] ==> r == 0,
{
    unicode_width::UnicodeWidthStr::width(s)
}

/// Relies on `unicode_segmentation::UnicodeSegmentation::graphemes` with
/// extended clusters: the pieces are non-empty substrings that concatenate
/// back to the input, in order.
#[verifier::external_body]
pub(crate) fn split_clusters(s: &str) -> (r: Vec<String>)
    ensures
        r@.map_values(|g: String| g@) == clusters_of(s@),
        r@.map_values(|g: String| g@).flatten() == s@,
        forall|i: int| 0 <= i < r@.len() ==> (#[trigger] r@[i])@.len() > 0,
{
    unicode_segmentation::UnicodeSegmentation::graphemes(s, true)
        .map(|g| g.to_string())
        .collect()
}

/// Relies on `char::is_whitespace`: the Unicode white-space property of a
/// single character.
#[verifier::external_body]
pub(crate) fn white_char(c: char) -> (r: bool)
    ensures
        r == is_white(c),
{
    c.is_whitespace()
}

/// Widths add up over concatenation.
pub proof fn lemma_str_cols_concat(a: Seq<char>, b: Seq<char>)
    ensures
        str_cols(a + b) == str_cols(a) + str_cols(b),
    decreases a.len(),
{
    if a.len() == 0 {
        assert(a + b =~= b);
    } else {
        lemma_str_cols_concat(a.drop_first(), b);
        assert((a + b).drop_first() =~= a.drop_first() + b);
    }
}

/// Splitting a string at any point splits its width.
pub proof fn lemma_str_cols_split(s: Seq<char>, k: int)
    requires
        0 <= k <= s.len(),
    ensures
        str_cols(s) == str_cols(s.subrange(0, k)) + str_cols(s.subrange(k, s.len() as int)),
{
    assert(s =~= s.subrange(0, k) + s.subrange(k, s.len() as int));
    lemma_str_cols_concat(s.subrange(0, k), s.subrange(k, s.len() as int));
}

/// No character is wider than the string that holds it.
pub proof fn lemma_char_le_str(s: Seq<char>, i: int)
    requires
        0 <= i < s.len(),
    ensures
        char_cols(s[i]) <= str_cols(s),
    decreases s.len(),
{
    if i == 0 {
    } else {
        lemma_char_le_str(s.drop_first(), i - 1);
    }
}

/// A string of clusters that are all empty, or none at all, flattens to the
/// empty string; conversely a string with no clusters is empty.
pub proof fn lemma_flatten_empty(cs: Seq<Seq<char>>)
    requires
        cs.flatten().len() == 0,
        forall|i: int| 0 <= i < cs.len() ==> (#[trigger] cs[i]).len() > 0,
    ensures
        cs.len() == 0,
    decreases cs.len(),
{
    if cs.len() > 0 {
        lemma_flatten_first(cs);
    }
}

/// Flattening starts with the first piece.
pub proof fn lemma_flatten_first(cs: Seq<Seq<char>>)
    requires
        cs.len() > 0,
    ensures
        cs.flatten() =~= cs.first() + cs.drop_first().flatten(),
{
}

} // verus!
