//! Reading the same bytes at another place, or with other bytes behind them.
//!
//! A decoder that succeeds looks at the bytes it reads and at most at the one behind them. So
//! where two inputs hold the same bytes over that stretch, it reads the same from both. The
//! lemmas of this module say so for each piece of the grammar, and the theorem at the end says
//! what follows for a document that is written twice in a row.
use crate::{GroupModel, MeshModel, MeshShape, Node, Storage};
use crate::decimal::{digits_value, unsigned_at};
use crate::lexical::{
    byte_at, digit, gap_at, has_at, hspace, lemma_gap_bounds, lemma_line_end_bounds, lemma_run_end,
    lemma_run_end_is, lemma_tag_line_bounds, line_end, name_byte, run_end, solid, tag_line_at,
    Failure, Fault,
};
use crate::parser::{
    after_documents, ascii2_document_at, closing_word, coordinate_at, count_line_at, dimension_at,
    documents_at, element_at, element_records_at, element_section_at, elt_info_at, fields_at,
    first_closing_at, format_header_at, format_line_at, group_at, group_records_at,
    group_section_at, header_at, label_at, lemma_element_bounds, lemma_element_records_bounds,
    lemma_fields_bounds, lemma_first_closing, lemma_format_line_bounds, lemma_format_words,
    lemma_group_bounds, lemma_group_records_bounds, lemma_header_bounds, lemma_node_bounds,
    lemma_node_records_bounds, lemma_section_bounds, lemma_sections_bounds,
    lemma_spaced_coordinate_bounds, lemma_unsigned_bounds, lemma_words_not_empty, marker_line_at,
    name_at, node_at, node_records_at, node_section_at, one_le, section_at, section_kind_at,
    section_name_at, sections_at, spaced_coordinate_at, spaced_unsigned_at, unknown_section_at,
    version_at, EltInfo, EltRecord, Listing, Msh2Section, MshFailure, MshVersion, Reading,
};
use crate::roundtrip::lemma_no_section_at_end;
use vstd::prelude::*;
use vstd::string::StringSliceAdditionalSpecFns;

verus! {

/// From `p` on in `a`, and from `p + shift` on in `b`, the next `n` places hold the same: the
/// same byte, or the end of the input in both.
pub open spec fn agree(a: Seq<u8>, b: Seq<u8>, p: int, shift: int, n: int) -> bool {
    forall|j: int| p <= j < p + n ==> #[trigger] byte_at(a, j) == byte_at(b, j + shift)
}

/// The stretch of `n` places from `p` reaches behind `q`, or ends at `q` behind a line feed.
pub open spec fn covers(a: Seq<u8>, p: int, q: int, n: int) -> bool {
    q - p < n || (q - p == n && p < q && byte_at(a, q - 1) == Some(0x0au8))
}

/// A run ends at the same place in two inputs that agree up to behind its end.
pub proof fn lemma_run_transfer(
    a: Seq<u8>,
    b: Seq<u8>,
    p: int,
    shift: int,
    n: int,
    class: spec_fn(u8) -> bool,
)
    requires
        agree(a, b, p, shift, n),
        run_end(a, p, class) - p < n,
    ensures
        run_end(b, p + shift, class) == run_end(a, p, class) + shift,
    decreases a.len() - p,
{
    lemma_run_end(a, p, class);
    assert(byte_at(a, p) == byte_at(b, p + shift));
    if 0 <= p < a.len() && class(a[p]) {
        lemma_run_transfer(a, b, p + 1, shift, n - 1, class);
    }
}

/// Two inputs that agree over the length of a word hold it both or hold it neither.
pub proof fn lemma_has_at_transfer(
    a: Seq<u8>,
    b: Seq<u8>,
    p: int,
    shift: int,
    n: int,
    word: Seq<u8>,
)
    requires
        agree(a, b, p, shift, n),
        0 < word.len() <= n,
    ensures
        has_at(a, p, word) == has_at(b, p + shift, word),
{
    let len = word.len() as int;
    if has_at(a, p, word) {
        assert forall|i: int| 0 <= i < len implies byte_at(b, p + shift + i) == Some(word[i]) by {
            assert(a.subrange(p, p + len)[i] == word[i]);
            assert(byte_at(a, p + i) == byte_at(b, p + i + shift));
        }
        assert(byte_at(b, p + shift) == Some(word[0]));
        assert(byte_at(b, p + shift + len - 1) == Some(word[len - 1]));
        assert(b.subrange(p + shift, p + shift + len) =~= word) by {
            assert forall|i: int| 0 <= i < len implies b.subrange(p + shift, p + shift + len)[i]
                == word[i] by {
                assert(byte_at(b, p + shift + i) == Some(word[i]));
            }
        }
    }
    if has_at(b, p + shift, word) {
        assert forall|i: int| 0 <= i < len implies byte_at(a, p + i) == Some(word[i]) by {
            assert(b.subrange(p + shift, p + shift + len)[i] == word[i]);
            assert(byte_at(a, p + i) == byte_at(b, p + i + shift));
        }
        assert(byte_at(a, p) == Some(word[0]));
        assert(byte_at(a, p + len - 1) == Some(word[len - 1]));
        assert(a.subrange(p, p + len) =~= word) by {
            assert forall|i: int| 0 <= i < len implies a.subrange(p, p + len)[i] == word[i] by {
                assert(byte_at(a, p + i) == Some(word[i]));
            }
        }
    }
}

/// A line end that is read in one input is read in another that agrees with it.
pub proof fn lemma_line_end_transfer(a: Seq<u8>, b: Seq<u8>, p: int, shift: int, n: int)
    requires
        agree(a, b, p, shift, n),
        line_end(a, p) matches Ok(q) && covers(a, p, q, n),
    ensures
        line_end(b, p + shift) == Ok::<int, Failure>(line_end(a, p)->Ok_0 + shift),
{
    let r = run_end(a, p, hspace());
    lemma_run_end(a, p, hspace());
    let q = line_end(a, p)->Ok_0;
    if byte_at(a, r) is None {
        if !(q - p < n) {
            assert(hspace()(a[q - 1]));
        }
        lemma_run_transfer(a, b, p, shift, n, hspace());
        assert(byte_at(a, r) == byte_at(b, r + shift));
    } else {
        lemma_run_transfer(a, b, p, shift, n, hspace());
        assert(byte_at(a, r) == byte_at(b, r + shift));
        if byte_at(a, r) != Some(0x0au8) {
            assert(byte_at(a, r + 1) == byte_at(b, r + 1 + shift));
        }
    }
}

/// A line that goes on where it has to end does so in another input that agrees up to the
/// byte behind the one that is refused.
pub proof fn lemma_line_end_refused(a: Seq<u8>, b: Seq<u8>, p: int, shift: int, n: int)
    requires
        agree(a, b, p, shift, n),
        line_end(a, p) is Err,
        run_end(a, p, hspace()) + 1 - p < n,
    ensures
        line_end(b, p + shift) is Err,
{
    let r = run_end(a, p, hspace());
    lemma_run_end(a, p, hspace());
    lemma_run_transfer(a, b, p, shift, n, hspace());
    assert(byte_at(a, r) == byte_at(b, r + shift));
    assert(byte_at(a, r + 1) == byte_at(b, r + 1 + shift));
}

/// A line of one word that is read in one input is read in another that agrees with it.
pub proof fn lemma_tag_line_transfer(
    a: Seq<u8>,
    b: Seq<u8>,
    p: int,
    shift: int,
    n: int,
    word: Seq<u8>,
)
    requires
        agree(a, b, p, shift, n),
        word.len() > 0,
        word.last() != 0x0a,
        tag_line_at(a, p, word) matches Ok(q) && covers(a, p, q, n),
    ensures
        tag_line_at(b, p + shift, word) == Ok::<int, Failure>(
            tag_line_at(a, p, word)->Ok_0 + shift,
        ),
{
    let len = word.len() as int;
    let q = tag_line_at(a, p, word)->Ok_0;
    lemma_run_end(a, p + len, hspace());
    assert(a.subrange(p, p + len)[len - 1] == word[len - 1]);
    lemma_has_at_transfer(a, b, p, shift, n, word);
    lemma_line_end_transfer(a, b, p + len, shift, n - len);
}

/// The digits of two inputs that agree write the same number.
pub proof fn lemma_digits_value_transfer(a: Seq<u8>, b: Seq<u8>, from: int, to: int, shift: int)
    requires
        agree(a, b, from, shift, to - from),
        0 <= from,
        to <= a.len(),
    ensures
        digits_value(b, from + shift, to + shift) == digits_value(a, from, to),
    decreases to - from,
{
    if from < to {
        lemma_digits_value_transfer(a, b, from, to - 1, shift);
        assert(byte_at(a, to - 1) == byte_at(b, to - 1 + shift));
    }
}

/// An unsigned number that is read in one input is read in another that agrees up to behind
/// it.
pub proof fn lemma_unsigned_transfer(a: Seq<u8>, b: Seq<u8>, p: int, shift: int, n: int)
    requires
        agree(a, b, p, shift, n),
        unsigned_at(a, p) matches Ok((q, _)) && q - p < n,
    ensures
        unsigned_at(b, p + shift) == Ok::<(int, u64), Failure>(
            (unsigned_at(a, p)->Ok_0.0 + shift, unsigned_at(a, p)->Ok_0.1),
        ),
        byte_at(a, unsigned_at(a, p)->Ok_0.0 - 1) matches Some(c) && c != 0x0a,
        p < unsigned_at(a, p)->Ok_0.0,
{
    let q = run_end(a, p, digit());
    lemma_run_end(a, p, digit());
    lemma_run_transfer(a, b, p, shift, n, digit());
    lemma_digits_value_transfer(a, b, p, q, shift);
    assert(digit()(a[q - 1]));
}

/// A gap that is read in one input is read in another that agrees up to behind it.
pub proof fn lemma_gap_transfer(a: Seq<u8>, b: Seq<u8>, p: int, shift: int, n: int)
    requires
        agree(a, b, p, shift, n),
        gap_at(a, p) matches Ok(q) && q - p < n,
    ensures
        gap_at(b, p + shift) == Ok::<int, Failure>(gap_at(a, p)->Ok_0 + shift),
        p < gap_at(a, p)->Ok_0,
{
    lemma_run_end(a, p, hspace());
    lemma_run_transfer(a, b, p, shift, n, hspace());
}

/// The bytes of a stretch are the same in two inputs that agree over it.
pub proof fn lemma_subrange_transfer(a: Seq<u8>, b: Seq<u8>, p: int, q: int, shift: int)
    requires
        agree(a, b, p, shift, q - p),
        0 <= p <= q <= a.len(),
    ensures
        p < q ==> b.subrange(p + shift, q + shift) == a.subrange(p, q),
        p < q ==> 0 <= p + shift && q + shift <= b.len(),
{
    if p < q {
        assert(byte_at(a, p) == byte_at(b, p + shift));
        assert(byte_at(a, q - 1) == byte_at(b, q - 1 + shift));
        assert(b.subrange(p + shift, q + shift) =~= a.subrange(p, q)) by {
            assert forall|i: int| 0 <= i < q - p implies b.subrange(p + shift, q + shift)[i]
                == a.subrange(p, q)[i] by {
                assert(byte_at(a, p + i) == byte_at(b, p + i + shift));
            }
        }
    }
}

/// A coordinate that is read in one input is read in another that agrees up to behind it.
pub proof fn lemma_coordinate_transfer(a: Seq<u8>, b: Seq<u8>, p: int, shift: int, n: int)
    requires
        agree(a, b, p, shift, n),
        coordinate_at(a, p) matches Ok((q, _)) && q - p < n,
    ensures
        coordinate_at(b, p + shift) == Ok::<(int, u64), Failure>(
            (coordinate_at(a, p)->Ok_0.0 + shift, coordinate_at(a, p)->Ok_0.1),
        ),
        byte_at(a, coordinate_at(a, p)->Ok_0.0 - 1) matches Some(c) && c != 0x0a,
        p < coordinate_at(a, p)->Ok_0.0,
{
    let q = run_end(a, p, solid());
    lemma_run_end(a, p, solid());
    lemma_run_transfer(a, b, p, shift, n, solid());
    lemma_subrange_transfer(a, b, p, q, shift);
    assert(solid()(a[q - 1]));
}

/// A coordinate behind its gap that is read in one input is read in another that agrees up to
/// behind it.
pub proof fn lemma_spaced_coordinate_transfer(a: Seq<u8>, b: Seq<u8>, p: int, shift: int, n: int)
    requires
        agree(a, b, p, shift, n),
        spaced_coordinate_at(a, p) matches Ok((q, _)) && q - p < n,
    ensures
        spaced_coordinate_at(b, p + shift) == Ok::<(int, u64), Failure>(
            (spaced_coordinate_at(a, p)->Ok_0.0 + shift, spaced_coordinate_at(a, p)->Ok_0.1),
        ),
        byte_at(a, spaced_coordinate_at(a, p)->Ok_0.0 - 1) matches Some(c) && c != 0x0a,
        p < spaced_coordinate_at(a, p)->Ok_0.0,
{
    let g = gap_at(a, p)->Ok_0;
    lemma_run_end(a, g, solid());
    lemma_gap_transfer(a, b, p, shift, n);
    lemma_coordinate_transfer(a, b, g, shift, n - (g - p));
}

/// An unsigned number behind its gap that is read in one input is read in another that agrees
/// up to behind it.
pub proof fn lemma_spaced_unsigned_transfer(a: Seq<u8>, b: Seq<u8>, p: int, shift: int, n: int)
    requires
        agree(a, b, p, shift, n),
        spaced_unsigned_at(a, p) matches Ok((q, _)) && q - p < n,
    ensures
        spaced_unsigned_at(b, p + shift) == Ok::<(int, u64), Failure>(
            (spaced_unsigned_at(a, p)->Ok_0.0 + shift, spaced_unsigned_at(a, p)->Ok_0.1),
        ),
        byte_at(a, spaced_unsigned_at(a, p)->Ok_0.0 - 1) matches Some(c) && c != 0x0a,
        p < spaced_unsigned_at(a, p)->Ok_0.0,
{
    let g = gap_at(a, p)->Ok_0;
    lemma_run_end(a, g, digit());
    lemma_gap_transfer(a, b, p, shift, n);
    lemma_unsigned_transfer(a, b, g, shift, n - (g - p));
}

/// Where a line end follows bytes that do not end in a line feed, the stretch reaches behind
/// these bytes, and what is left of it covers the line end.
pub proof fn lemma_before_line_end(a: Seq<u8>, p: int, m: int, n: int)
    requires
        p < m,
        0 <= m <= a.len(),
        byte_at(a, m - 1) matches Some(c) && c != 0x0a,
        line_end(a, m) matches Ok(q) && covers(a, p, q, n),
    ensures
        m - p < n,
        covers(a, m, line_end(a, m)->Ok_0, n - (m - p)),
{
    lemma_line_end_bounds(a, m);
}

/// Numbers behind their gaps end in a digit.
pub proof fn lemma_fields_last(a: Seq<u8>, p: int, count: nat)
    requires
        count > 0,
        fields_at(a, p, count) is Ok,
    ensures
        p < fields_at(a, p, count)->Ok_0.0 <= a.len(),
        byte_at(a, fields_at(a, p, count)->Ok_0.0 - 1) matches Some(c) && c != 0x0a,
    decreases count,
{
    lemma_gap_bounds(a, p);
    let g = gap_at(a, p)->Ok_0;
    lemma_run_end(a, g, digit());
    let (m, _) = unsigned_at(a, g)->Ok_0;
    assert(digit()(a[m - 1]));
    if count > 1 {
        lemma_fields_last(a, m, (count - 1) as nat);
    }
}

/// Numbers behind their gaps that are read in one input are read in another that agrees up
/// to behind them.
pub proof fn lemma_fields_transfer(a: Seq<u8>, b: Seq<u8>, p: int, shift: int, n: int, count: nat)
    requires
        agree(a, b, p, shift, n),
        0 <= p <= a.len(),
        fields_at(a, p, count) matches Ok((q, _)) && q - p < n,
    ensures
        fields_at(b, p + shift, count) == Ok::<(int, Seq<u64>), Failure>(
            (fields_at(a, p, count)->Ok_0.0 + shift, fields_at(a, p, count)->Ok_0.1),
        ),
    decreases count,
{
    if count > 0 {
        let (m, first) = spaced_unsigned_at(a, p)->Ok_0;
        lemma_gap_bounds(a, p);
        lemma_unsigned_bounds(a, gap_at(a, p)->Ok_0);
        lemma_fields_bounds(a, m, (count - 1) as nat);
        lemma_spaced_unsigned_transfer(a, b, p, shift, n);
        lemma_fields_transfer(a, b, m, shift, n - (m - p), (count - 1) as nat);
    }
}

/// A node record that is read in one input is read in another that agrees with it.
pub proof fn lemma_node_transfer(a: Seq<u8>, b: Seq<u8>, p: int, shift: int, n: int)
    requires
        agree(a, b, p, shift, n),
        node_at(a, p) matches Ok((q, _)) && covers(a, p, q, n),
    ensures
        node_at(b, p + shift) == Ok::<(int, Node), Failure>(
            (node_at(a, p)->Ok_0.0 + shift, node_at(a, p)->Ok_0.1),
        ),
{
    let (p1, _) = unsigned_at(a, p)->Ok_0;
    let (p2, _) = spaced_coordinate_at(a, p1)->Ok_0;
    let (p3, _) = spaced_coordinate_at(a, p2)->Ok_0;
    let (p4, _) = spaced_coordinate_at(a, p3)->Ok_0;
    lemma_unsigned_bounds(a, p);
    lemma_spaced_coordinate_bounds(a, p1);
    lemma_spaced_coordinate_bounds(a, p2);
    lemma_spaced_coordinate_bounds(a, p3);
    lemma_gap_bounds(a, p3);
    let g = gap_at(a, p3)->Ok_0;
    lemma_run_end(a, g, solid());
    assert(solid()(a[p4 - 1]));
    lemma_before_line_end(a, p, p4, n);
    lemma_unsigned_transfer(a, b, p, shift, n);
    lemma_spaced_coordinate_transfer(a, b, p1, shift, n - (p1 - p));
    lemma_spaced_coordinate_transfer(a, b, p2, shift, n - (p2 - p));
    lemma_spaced_coordinate_transfer(a, b, p3, shift, n - (p3 - p));
    lemma_line_end_transfer(a, b, p4, shift, n - (p4 - p));
}

/// A type label that is read in one input is read in another that agrees up to behind it.
pub proof fn lemma_label_transfer(a: Seq<u8>, b: Seq<u8>, p: int, shift: int, n: int)
    requires
        agree(a, b, p, shift, n),
        label_at(a, p) matches Ok((q, _)) && q - p < n,
    ensures
        label_at(b, p + shift) == Ok::<(int, MeshShape), Failure>(
            (label_at(a, p)->Ok_0.0 + shift, label_at(a, p)->Ok_0.1),
        ),
        0 <= p < label_at(a, p)->Ok_0.0 <= a.len(),
{
    let q = run_end(a, p, digit());
    lemma_run_end(a, p, digit());
    lemma_run_transfer(a, b, p, shift, n, digit());
    lemma_subrange_transfer(a, b, p, q, shift);
}

/// The tags of an element that are read in one input are read in another that agrees up to
/// behind them.
pub proof fn lemma_elt_info_transfer(a: Seq<u8>, b: Seq<u8>, p: int, shift: int, n: int)
    requires
        agree(a, b, p, shift, n),
        elt_info_at(a, p) matches Ok((q, _)) && q - p < n,
    ensures
        elt_info_at(b, p + shift) == Ok::<(int, EltInfo), Failure>(
            (elt_info_at(a, p)->Ok_0.0 + shift, elt_info_at(a, p)->Ok_0.1),
        ),
        0 <= p < elt_info_at(a, p)->Ok_0.0 <= a.len(),
{
    let (m, count) = unsigned_at(a, p)->Ok_0;
    lemma_unsigned_bounds(a, p);
    lemma_fields_bounds(a, m, count as nat);
    lemma_unsigned_transfer(a, b, p, shift, n);
    lemma_fields_transfer(a, b, m, shift, n - (m - p), count as nat);
}

/// An element record that is read in one input is read in another that agrees with it.
#[verifier::rlimit(40)]
pub proof fn lemma_element_transfer(a: Seq<u8>, b: Seq<u8>, p: int, shift: int, n: int)
    requires
        agree(a, b, p, shift, n),
        element_at(a, p) matches Ok((q, _)) && covers(a, p, q, n),
    ensures
        element_at(b, p + shift) == Ok::<(int, EltRecord), Failure>(
            (element_at(a, p)->Ok_0.0 + shift, element_at(a, p)->Ok_0.1),
        ),
{
    let (p1, _) = unsigned_at(a, p)->Ok_0;
    lemma_unsigned_bounds(a, p);
    let g1 = gap_at(a, p1)->Ok_0;
    lemma_gap_bounds(a, p1);
    let (p2, ty) = label_at(a, g1)->Ok_0;
    lemma_run_end(a, g1, digit());
    let g2 = gap_at(a, p2)->Ok_0;
    lemma_gap_bounds(a, p2);
    let (p3, _) = elt_info_at(a, g2)->Ok_0;
    let (m, count) = unsigned_at(a, g2)->Ok_0;
    lemma_unsigned_bounds(a, g2);
    lemma_fields_bounds(a, m, count as nat);
    let (p4, _) = fields_at(a, p3, ty.arity())->Ok_0;
    lemma_fields_last(a, p3, ty.arity());
    lemma_before_line_end(a, p, p4, n);
    lemma_unsigned_transfer(a, b, p, shift, n);
    lemma_gap_transfer(a, b, p1, shift, n - (p1 - p));
    lemma_label_transfer(a, b, g1, shift, n - (g1 - p));
    lemma_gap_transfer(a, b, p2, shift, n - (p2 - p));
    lemma_elt_info_transfer(a, b, g2, shift, n - (g2 - p));
    lemma_fields_transfer(a, b, p3, shift, n - (p3 - p), ty.arity());
    lemma_line_end_transfer(a, b, p4, shift, n - (p4 - p));
}

/// A name that is read in one input is read in another that agrees up to behind it.
pub proof fn lemma_name_transfer(a: Seq<u8>, b: Seq<u8>, p: int, shift: int, n: int)
    requires
        agree(a, b, p, shift, n),
        name_at(a, p) matches Ok((q, _)) && q - p < n,
    ensures
        name_at(b, p + shift) == Ok::<(int, Seq<char>), Failure>(
            (name_at(a, p)->Ok_0.0 + shift, name_at(a, p)->Ok_0.1),
        ),
        0 <= p < name_at(a, p)->Ok_0.0 <= a.len(),
        byte_at(a, name_at(a, p)->Ok_0.0 - 1) == Some(0x22u8),
{
    let end = run_end(a, p + 1, name_byte());
    lemma_run_end(a, p + 1, name_byte());
    assert(byte_at(a, p) == byte_at(b, p + shift));
    lemma_run_transfer(a, b, p + 1, shift, n - 1, name_byte());
    assert(byte_at(a, end) == byte_at(b, end + shift));
    lemma_subrange_transfer(a, b, p + 1, end, shift);
    if p + 1 == end {
        assert(a.subrange(p + 1, end) =~= Seq::<u8>::empty());
        assert(b.subrange(p + 1 + shift, end + shift) =~= Seq::<u8>::empty());
    }
}

/// A physical-group record that is read in one input is read in another that agrees with it.
pub proof fn lemma_group_transfer(a: Seq<u8>, b: Seq<u8>, p: int, shift: int, n: int)
    requires
        agree(a, b, p, shift, n),
        group_at(a, p) matches Ok((q, _)) && covers(a, p, q, n),
    ensures
        group_at(b, p + shift) == Ok::<(int, GroupModel), Failure>(
            (group_at(a, p)->Ok_0.0 + shift, group_at(a, p)->Ok_0.1),
        ),
{
    let (p1, _) = dimension_at(a, p)->Ok_0;
    let g1 = gap_at(a, p1)->Ok_0;
    lemma_gap_bounds(a, p1);
    let (p2, _) = unsigned_at(a, g1)->Ok_0;
    lemma_unsigned_bounds(a, g1);
    let g2 = gap_at(a, p2)->Ok_0;
    lemma_gap_bounds(a, p2);
    let (p3, _) = name_at(a, g2)->Ok_0;
    lemma_run_end(a, g2 + 1, name_byte());
    lemma_before_line_end(a, p, p3, n);
    assert(byte_at(a, p) == byte_at(b, p + shift));
    lemma_gap_transfer(a, b, p1, shift, n - (p1 - p));
    lemma_unsigned_transfer(a, b, g1, shift, n - (g1 - p));
    lemma_gap_transfer(a, b, p2, shift, n - (p2 - p));
    lemma_name_transfer(a, b, g2, shift, n - (g2 - p));
    lemma_line_end_transfer(a, b, p3, shift, n - (p3 - p));
}

/// A count line that is read in one input is read in another that agrees with it.
pub proof fn lemma_count_line_transfer(a: Seq<u8>, b: Seq<u8>, p: int, shift: int, n: int)
    requires
        agree(a, b, p, shift, n),
        count_line_at(a, p) matches Ok((q, _)) && covers(a, p, q, n),
    ensures
        count_line_at(b, p + shift) == Ok::<(int, u64), Failure>(
            (count_line_at(a, p)->Ok_0.0 + shift, count_line_at(a, p)->Ok_0.1),
        ),
        0 <= p < count_line_at(a, p)->Ok_0.0 <= a.len(),
{
    let (m, _) = unsigned_at(a, p)->Ok_0;
    lemma_unsigned_bounds(a, p);
    lemma_run_end(a, p, digit());
    assert(digit()(a[m - 1]));
    lemma_line_end_bounds(a, m);
    lemma_before_line_end(a, p, m, n);
    lemma_unsigned_transfer(a, b, p, shift, n);
    lemma_line_end_transfer(a, b, m, shift, n - (m - p));
}

/// Where a digit stands, no word stands that starts with a dollar sign.
pub proof fn lemma_digit_is_no_word(b: Seq<u8>, p: int, word: Seq<u8>)
    requires
        word.len() > 0,
        word[0] == 0x24,
        byte_at(b, p) matches Some(c) && 0x30 <= c <= 0x39,
    ensures
        tag_line_at(b, p, word) is Err,
{
    if has_at(b, p, word) {
        assert(b.subrange(p, p + word.len())[0] == word[0]);
    }
}

/// Node records that are read in one input are read in another that agrees with it.
pub proof fn lemma_node_records_transfer(a: Seq<u8>, b: Seq<u8>, p: int, shift: int, n: int)
    requires
        agree(a, b, p, shift, n),
        node_records_at(a, p) matches Ok((q, _)) && covers(a, p, q, n),
    ensures
        node_records_at(b, p + shift) == Ok::<(int, Seq<Node>), Failure>(
            (node_records_at(a, p)->Ok_0.0 + shift, node_records_at(a, p)->Ok_0.1),
        ),
    decreases a.len() - p,
{
    lemma_format_words();
    let word = "$EndNodes".spec_bytes();
    if tag_line_at(a, p, word) is Ok {
        lemma_tag_line_transfer(a, b, p, shift, n, word);
    } else {
        let (m, _) = node_at(a, p)->Ok_0;
        lemma_node_bounds(a, p);
        lemma_node_records_bounds(a, m);
        lemma_run_end(a, p, digit());
        assert(byte_at(a, p) == byte_at(b, p + shift));
        lemma_digit_is_no_word(b, p + shift, word);
        lemma_node_transfer(a, b, p, shift, n);
        lemma_node_records_transfer(a, b, m, shift, n - (m - p));
    }
}

/// Element records that are read in one input are read in another that agrees with it.
pub proof fn lemma_element_records_transfer(a: Seq<u8>, b: Seq<u8>, p: int, shift: int, n: int)
    requires
        agree(a, b, p, shift, n),
        element_records_at(a, p) matches Ok((q, _)) && covers(a, p, q, n),
    ensures
        element_records_at(b, p + shift) == Ok::<(int, Seq<EltRecord>), Failure>(
            (element_records_at(a, p)->Ok_0.0 + shift, element_records_at(a, p)->Ok_0.1),
        ),
    decreases a.len() - p,
{
    lemma_format_words();
    let word = "$EndElements".spec_bytes();
    if tag_line_at(a, p, word) is Ok {
        lemma_tag_line_transfer(a, b, p, shift, n, word);
    } else {
        let (m, _) = element_at(a, p)->Ok_0;
        lemma_element_bounds(a, p);
        lemma_element_records_bounds(a, m);
        lemma_run_end(a, p, digit());
        assert(byte_at(a, p) == byte_at(b, p + shift));
        lemma_digit_is_no_word(b, p + shift, word);
        lemma_element_transfer(a, b, p, shift, n);
        lemma_element_records_transfer(a, b, m, shift, n - (m - p));
    }
}

/// Physical-group records that are read in one input are read in another that agrees with it.
pub proof fn lemma_group_records_transfer(a: Seq<u8>, b: Seq<u8>, p: int, shift: int, n: int)
    requires
        agree(a, b, p, shift, n),
        group_records_at(a, p) matches Ok((q, _)) && covers(a, p, q, n),
    ensures
        group_records_at(b, p + shift) == Ok::<(int, Seq<GroupModel>), Failure>(
            (group_records_at(a, p)->Ok_0.0 + shift, group_records_at(a, p)->Ok_0.1),
        ),
    decreases a.len() - p,
{
    lemma_format_words();
    let word = "$EndPhysicalNames".spec_bytes();
    if tag_line_at(a, p, word) is Ok {
        lemma_tag_line_transfer(a, b, p, shift, n, word);
    } else {
        let (m, _) = group_at(a, p)->Ok_0;
        lemma_group_bounds(a, p);
        lemma_group_records_bounds(a, m);
        assert(byte_at(a, p) == byte_at(b, p + shift));
        lemma_digit_is_no_word(b, p + shift, word);
        lemma_group_transfer(a, b, p, shift, n);
        lemma_group_records_transfer(a, b, m, shift, n - (m - p));
    }
}

/// A node section that is read in one input is read in another that agrees with it.
pub proof fn lemma_node_section_transfer(a: Seq<u8>, b: Seq<u8>, p: int, shift: int, n: int)
    requires
        agree(a, b, p, shift, n),
        node_section_at(a, p) matches Ok((q, _)) && covers(a, p, q, n),
    ensures
        node_section_at(b, p + shift) == Ok::<(int, Listing<Node>), Failure>(
            (node_section_at(a, p)->Ok_0.0 + shift, node_section_at(a, p)->Ok_0.1),
        ),
{
    lemma_format_words();
    let word = "$Nodes".spec_bytes();
    let p1 = tag_line_at(a, p, word)->Ok_0;
    lemma_tag_line_bounds(a, p, word);
    let (p2, _) = count_line_at(a, p1)->Ok_0;
    lemma_unsigned_bounds(a, p1);
    lemma_line_end_bounds(a, unsigned_at(a, p1)->Ok_0.0);
    lemma_node_records_bounds(a, p2);
    lemma_tag_line_transfer(a, b, p, shift, n, word);
    lemma_count_line_transfer(a, b, p1, shift, n - (p1 - p));
    lemma_node_records_transfer(a, b, p2, shift, n - (p2 - p));
}

/// An element section that is read in one input is read in another that agrees with it.
pub proof fn lemma_element_section_transfer(a: Seq<u8>, b: Seq<u8>, p: int, shift: int, n: int)
    requires
        agree(a, b, p, shift, n),
        element_section_at(a, p) matches Ok((q, _)) && covers(a, p, q, n),
    ensures
        element_section_at(b, p + shift) == Ok::<(int, Listing<EltRecord>), Failure>(
            (element_section_at(a, p)->Ok_0.0 + shift, element_section_at(a, p)->Ok_0.1),
        ),
{
    lemma_format_words();
    let word = "$Elements".spec_bytes();
    let p1 = tag_line_at(a, p, word)->Ok_0;
    lemma_tag_line_bounds(a, p, word);
    let (p2, _) = count_line_at(a, p1)->Ok_0;
    lemma_unsigned_bounds(a, p1);
    lemma_line_end_bounds(a, unsigned_at(a, p1)->Ok_0.0);
    lemma_element_records_bounds(a, p2);
    lemma_tag_line_transfer(a, b, p, shift, n, word);
    lemma_count_line_transfer(a, b, p1, shift, n - (p1 - p));
    lemma_element_records_transfer(a, b, p2, shift, n - (p2 - p));
}

/// A section of physical groups that is read in one input is read in another that agrees
/// with it.
pub proof fn lemma_group_section_transfer(a: Seq<u8>, b: Seq<u8>, p: int, shift: int, n: int)
    requires
        agree(a, b, p, shift, n),
        group_section_at(a, p) matches Ok((q, _)) && covers(a, p, q, n),
    ensures
        group_section_at(b, p + shift) == Ok::<(int, Listing<GroupModel>), Failure>(
            (group_section_at(a, p)->Ok_0.0 + shift, group_section_at(a, p)->Ok_0.1),
        ),
{
    lemma_format_words();
    let word = "$PhysicalNames".spec_bytes();
    let p1 = tag_line_at(a, p, word)->Ok_0;
    lemma_tag_line_bounds(a, p, word);
    let (p2, _) = count_line_at(a, p1)->Ok_0;
    lemma_unsigned_bounds(a, p1);
    lemma_line_end_bounds(a, unsigned_at(a, p1)->Ok_0.0);
    lemma_group_records_bounds(a, p2);
    lemma_tag_line_transfer(a, b, p, shift, n, word);
    lemma_count_line_transfer(a, b, p1, shift, n - (p1 - p));
    lemma_group_records_transfer(a, b, p2, shift, n - (p2 - p));
}

/// The line that opens a section, read in one input, is read in another that agrees with it.
pub proof fn lemma_section_name_transfer(a: Seq<u8>, b: Seq<u8>, p: int, shift: int, n: int)
    requires
        agree(a, b, p, shift, n),
        section_name_at(a, p) matches Ok((q, _)) && covers(a, p, q, n),
    ensures
        section_name_at(b, p + shift) == Ok::<(int, Seq<u8>), Failure>(
            (section_name_at(a, p)->Ok_0.0 + shift, section_name_at(a, p)->Ok_0.1),
        ),
        0 <= p < section_name_at(a, p)->Ok_0.0 <= a.len(),
        section_name_at(a, p)->Ok_0.1.len() > 0,
        forall|i: int|
            0 <= i < section_name_at(a, p)->Ok_0.1.len() ==> solid()(
                #[trigger] section_name_at(a, p)->Ok_0.1[i],
            ),
{
    let end = run_end(a, p + 1, solid());
    lemma_run_end(a, p + 1, solid());
    lemma_line_end_bounds(a, end);
    assert(solid()(a[end - 1]));
    lemma_before_line_end(a, p, end, n);
    assert(byte_at(a, p) == byte_at(b, p + shift));
    lemma_run_transfer(a, b, p + 1, shift, n - 1, solid());
    lemma_subrange_transfer(a, b, p + 1, end, shift);
    lemma_line_end_transfer(a, b, end, shift, n - (end - p));
    let name = a.subrange(p + 1, end);
    assert forall|i: int| 0 <= i < name.len() implies solid()(#[trigger] name[i]) by {
        assert(solid()(a[p + 1 + i]));
    }
}

/// The word that a dollar sign and a name make.
pub open spec fn dollar(name: Seq<u8>) -> Seq<u8> {
    seq![0x24u8] + name
}

/// A line holds the word of a name and nothing else if and only if it opens a section of
/// that name, and then the two readings end at the same place.
pub proof fn lemma_tag_line_is_name(s: Seq<u8>, p: int, name: Seq<u8>)
    requires
        name.len() > 0,
        forall|i: int| 0 <= i < name.len() ==> solid()(#[trigger] name[i]),
    ensures
        tag_line_at(s, p, dollar(name)) matches Ok(q) ==> section_name_at(s, p) == Ok::<
            (int, Seq<u8>),
            Failure,
        >((q, name)),
        section_name_at(s, p) matches Ok((_, found)) && found == name ==> tag_line_at(
            s,
            p,
            dollar(name),
        ) == Ok::<int, Failure>(section_name_at(s, p)->Ok_0.0),
{
    let word = dollar(name);
    let len = name.len() as int;
    if tag_line_at(s, p, word) is Ok {
        assert(s.subrange(p, p + len + 1)[0] == word[0]);
        assert forall|j: int| p + 1 <= j < p + 1 + len implies solid()(#[trigger] s[j]) by {
            assert(s.subrange(p, p + len + 1)[j - p] == word[j - p]);
            assert(word[j - p] == name[j - p - 1]);
        }
        lemma_run_end(s, p + 1 + len, hspace());
        lemma_run_end_is(s, p + 1, p + 1 + len, solid());
        assert(s.subrange(p + 1, p + 1 + len) =~= name) by {
            assert forall|i: int| 0 <= i < len implies s.subrange(p + 1, p + 1 + len)[i]
                == name[i] by {
                assert(s.subrange(p, p + len + 1)[i + 1] == word[i + 1]);
            }
        }
    }
    if let Ok((q, found)) = section_name_at(s, p) {
        if found == name {
            lemma_run_end(s, p + 1, solid());
            let end = run_end(s, p + 1, solid());
            assert(end == p + 1 + len);
            assert(s.subrange(p, p + len + 1) =~= word) by {
                assert forall|i: int| 0 <= i < len + 1 implies s.subrange(p, p + len + 1)[i]
                    == word[i] by {
                    if i > 0 {
                        assert(s.subrange(p + 1, end)[i - 1] == name[i - 1]);
                    }
                }
            }
        }
    }
}

/// The word that closes a section starts with a dollar sign and holds no space, tab or line
/// break.
pub proof fn lemma_closing_word(name: Seq<u8>)
    requires
        forall|i: int| 0 <= i < name.len() ==> solid()(#[trigger] name[i]),
    ensures
        closing_word(name).len() == 4 + name.len(),
        closing_word(name)[0] == 0x24,
        forall|i: int|
            0 <= i < closing_word(name).len() ==> solid()(#[trigger] closing_word(name)[i]),
{
    lemma_format_words();
    let word = closing_word(name);
    assert forall|i: int| 0 <= i < word.len() implies solid()(#[trigger] word[i]) by {
        if i >= 4 {
            assert(word[i] == name[i - 4]);
        }
    }
}

/// The first closing line of one input is the first closing line of another that agrees with
/// it up to the end of that line.
#[verifier::rlimit(40)]
pub proof fn lemma_first_closing_transfer(
    a: Seq<u8>,
    b: Seq<u8>,
    from: int,
    shift: int,
    n: int,
    word: Seq<u8>,
)
    requires
        agree(a, b, from, shift, n),
        0 <= from,
        word.len() >= 2,
        word[0] == 0x24,
        forall|i: int| 0 <= i < word.len() ==> solid()(#[trigger] word[i]),
        first_closing_at(a, from, word) matches Some(c) && (tag_line_at(a, c, word) matches Ok(q)
            && covers(a, from, q, n)),
    ensures
        first_closing_at(b, from + shift, word) == Some(first_closing_at(a, from, word)->0 + shift),
        tag_line_at(b, first_closing_at(a, from, word)->0 + shift, word) == Ok::<int, Failure>(
            tag_line_at(a, first_closing_at(a, from, word)->0, word)->Ok_0 + shift,
        ),
    decreases a.len() - from,
{
    let len = word.len() as int;
    let c = first_closing_at(a, from, word)->0;
    let q = tag_line_at(a, c, word)->Ok_0;
    lemma_first_closing(a, from, word);
    lemma_tag_line_bounds(a, c, word);
    lemma_line_end_bounds(a, c + len);
    assert(solid()(word[len - 1]));
    assert(a.subrange(c, c + len)[len - 1] == word[len - 1]);
    assert(a.subrange(c, c + len)[0] == word[0]);
    assert(byte_at(a, from) == byte_at(b, from + shift));
    if tag_line_at(a, from, word) is Ok {
        lemma_tag_line_transfer(a, b, from, shift, n, word);
    } else {
        assert(from < c);
        if has_at(a, from, word) {
            let e = run_end(a, from + len, hspace());
            lemma_run_end(a, from + len, hspace());
            if from + len <= c {
                if e > c {
                    assert(hspace()(a[c]));
                }
            } else {
                assert(a.subrange(c, c + len)[from + len - c] == word[from + len - c]);
                assert(solid()(word[from + len - c]));
            }
            assert(e + 1 <= c + len);
            lemma_has_at_transfer(a, b, from, shift, n, word);
            lemma_line_end_refused(a, b, from + len, shift, n - len);
        } else {
            lemma_has_at_transfer(a, b, from, shift, n, word);
        }
        lemma_first_closing_transfer(a, b, from + 1, shift, n - 1, word);
    }
}

/// A section that is skipped in one input is skipped in another that agrees with it.
pub proof fn lemma_unknown_section_transfer(a: Seq<u8>, b: Seq<u8>, p: int, shift: int, n: int)
    requires
        agree(a, b, p, shift, n),
        unknown_section_at(a, p) matches Ok((q, _)) && covers(a, p, q, n),
    ensures
        unknown_section_at(b, p + shift) == Ok::<(int, ()), Failure>(
            (unknown_section_at(a, p)->Ok_0.0 + shift, ()),
        ),
{
    let (body, name) = section_name_at(a, p)->Ok_0;
    let word = closing_word(name);
    let c = first_closing_at(a, body, word)->0;
    lemma_run_end(a, p + 1, solid());
    lemma_line_end_bounds(a, run_end(a, p + 1, solid()));
    assert forall|i: int| 0 <= i < name.len() implies solid()(#[trigger] name[i]) by {
        assert(solid()(a[p + 1 + i]));
    }
    lemma_closing_word(name);
    lemma_first_closing(a, body, word);
    lemma_tag_line_bounds(a, c, word);
    lemma_section_name_transfer(a, b, p, shift, n);
    lemma_first_closing_transfer(a, b, body, shift, n - (body - p), word);
}

/// A word without its first byte.
pub open spec fn tail(word: Seq<u8>) -> Seq<u8> {
    word.subrange(1, word.len() as int)
}

/// The kind of section that a name stands for. The name of the format block stands for none.
pub open spec fn kind_of_name(name: Seq<u8>) -> Option<Msh2Section> {
    if name == tail("$Nodes".spec_bytes()) {
        Some(Msh2Section::Nodes)
    } else if name == tail("$Elements".spec_bytes()) {
        Some(Msh2Section::Elements)
    } else if name == tail("$PhysicalNames".spec_bytes()) {
        Some(Msh2Section::PhysicalGroups)
    } else if name == "MeshFormat".spec_bytes() {
        None
    } else {
        Some(Msh2Section::Unknown)
    }
}

/// The word `word` is a dollar sign before a name that holds no space, tab or line break.
pub open spec fn is_section_word(word: Seq<u8>) -> bool {
    &&& word.len() >= 2
    &&& word == dollar(tail(word))
    &&& forall|i: int| 0 <= i < tail(word).len() ==> solid()(#[trigger] tail(word)[i])
}

/// The words that open the known sections and the format block are section words.
pub proof fn lemma_section_words()
    ensures
        is_section_word("$Nodes".spec_bytes()),
        is_section_word("$Elements".spec_bytes()),
        is_section_word("$PhysicalNames".spec_bytes()),
        is_section_word("$MeshFormat".spec_bytes()),
        tail("$MeshFormat".spec_bytes()) == "MeshFormat".spec_bytes(),
        tail("$Nodes".spec_bytes()).len() == 5,
        tail("$Elements".spec_bytes()).len() == 8,
        tail("$PhysicalNames".spec_bytes()).len() == 13,
        "MeshFormat".spec_bytes().len() == 10,
{
    lemma_format_words();
    let nodes = "$Nodes".spec_bytes();
    let elements = "$Elements".spec_bytes();
    let names = "$PhysicalNames".spec_bytes();
    let format = "$MeshFormat".spec_bytes();
    assert(nodes =~= dollar(tail(nodes)));
    assert(elements =~= dollar(tail(elements)));
    assert(names =~= dollar(tail(names)));
    assert(format =~= dollar(tail(format)));
    assert(tail(format) =~= "MeshFormat".spec_bytes());
}

/// What opens at a place is told by the name on the line that opens there.
pub proof fn lemma_section_kind_by_name(s: Seq<u8>, p: int)
    ensures
        section_kind_at(s, p) == (match section_name_at(s, p) {
            Ok((_, name)) => match kind_of_name(name) {
                Some(kind) => Ok::<(int, Msh2Section), Failure>((p, kind)),
                None => Err(Failure { fault: Fault::Literal, at: p }),
            },
            Err(_) => Err(Failure { fault: Fault::Literal, at: p }),
        }),
{
    reveal(section_kind_at);
    lemma_section_words();
    lemma_tag_line_is_name(s, p, tail("$Nodes".spec_bytes()));
    lemma_tag_line_is_name(s, p, tail("$Elements".spec_bytes()));
    lemma_tag_line_is_name(s, p, tail("$PhysicalNames".spec_bytes()));
}

/// No section opens where a format block opens.
pub proof fn lemma_no_section_at_header(s: Seq<u8>, p: int)
    requires
        header_at(s, p) is Ok,
    ensures
        section_kind_at(s, p) is Err,
        has_at(s, p, "$MeshFormat".spec_bytes()),
{
    lemma_section_words();
    lemma_section_kind_by_name(s, p);
    lemma_tag_line_is_name(s, p, tail("$MeshFormat".spec_bytes()));
}

/// The line that opens a section ends before the section does.
pub proof fn lemma_opening_line(a: Seq<u8>, p: int, mesh: MeshModel)
    requires
        section_kind_at(a, p) matches Ok((_, kind)) && section_at(a, p, kind, mesh) is Ok,
    ensures
        section_name_at(a, p) matches Ok((q, _)) && 0 <= p < q < section_at(
            a,
            p,
            section_kind_at(a, p)->Ok_0.1,
            mesh,
        )->Ok_0.0,
{
    reveal(section_at);
    lemma_section_words();
    lemma_section_kind_by_name(a, p);
    let kind = section_kind_at(a, p)->Ok_0.1;
    let (q, name) = section_name_at(a, p)->Ok_0;
    lemma_run_end(a, p + 1, solid());
    lemma_line_end_bounds(a, run_end(a, p + 1, solid()));
    match kind {
        Msh2Section::Nodes => {
            lemma_tag_line_is_name(a, p, tail("$Nodes".spec_bytes()));
            lemma_unsigned_bounds(a, q);
            lemma_line_end_bounds(a, unsigned_at(a, q)->Ok_0.0);
            lemma_node_records_bounds(a, count_line_at(a, q)->Ok_0.0);
        },
        Msh2Section::Elements => {
            lemma_tag_line_is_name(a, p, tail("$Elements".spec_bytes()));
            lemma_unsigned_bounds(a, q);
            lemma_line_end_bounds(a, unsigned_at(a, q)->Ok_0.0);
            lemma_element_records_bounds(a, count_line_at(a, q)->Ok_0.0);
        },
        Msh2Section::PhysicalGroups => {
            lemma_tag_line_is_name(a, p, tail("$PhysicalNames".spec_bytes()));
            lemma_unsigned_bounds(a, q);
            lemma_line_end_bounds(a, unsigned_at(a, q)->Ok_0.0);
            lemma_group_records_bounds(a, count_line_at(a, q)->Ok_0.0);
        },
        Msh2Section::Unknown => {
            assert forall|i: int| 0 <= i < name.len() implies solid()(#[trigger] name[i]) by {
                assert(solid()(a[p + 1 + i]));
            }
            lemma_closing_word(name);
            lemma_first_closing(a, q, closing_word(name));
            lemma_tag_line_bounds(
                a,
                first_closing_at(a, q, closing_word(name))->0,
                closing_word(name),
            );
        },
    }
}

/// A section that is read in one input is read in another that agrees with it.
pub proof fn lemma_section_transfer(
    a: Seq<u8>,
    b: Seq<u8>,
    p: int,
    shift: int,
    n: int,
    kind: Msh2Section,
    mesh: MeshModel,
)
    requires
        agree(a, b, p, shift, n),
        section_at(a, p, kind, mesh) matches Ok((q, _)) && covers(a, p, q, n),
    ensures
        section_at(b, p + shift, kind, mesh) == Ok::<(int, Reading), Failure>(
            (section_at(a, p, kind, mesh)->Ok_0.0 + shift, section_at(a, p, kind, mesh)->Ok_0.1),
        ),
{
    reveal(section_at);
    match kind {
        Msh2Section::Nodes => lemma_node_section_transfer(a, b, p, shift, n),
        Msh2Section::Elements => lemma_element_section_transfer(a, b, p, shift, n),
        Msh2Section::PhysicalGroups => lemma_group_section_transfer(a, b, p, shift, n),
        Msh2Section::Unknown => lemma_unknown_section_transfer(a, b, p, shift, n),
    }
}

/// Sections that are read in one input are read in another that agrees with it, if no
/// section opens in the other where they end.
#[verifier::rlimit(40)]
pub proof fn lemma_sections_transfer(
    a: Seq<u8>,
    b: Seq<u8>,
    p: int,
    shift: int,
    n: int,
    so_far: Reading,
)
    requires
        agree(a, b, p, shift, n),
        0 <= p <= a.len(),
        sections_at(a, p, so_far) matches Ok((q, _)) && (q == p || covers(a, p, q, n))
            && section_kind_at(b, q + shift) is Err,
    ensures
        sections_at(b, p + shift, so_far) == Ok::<(int, Reading), Failure>(
            (sections_at(a, p, so_far)->Ok_0.0 + shift, sections_at(a, p, so_far)->Ok_0.1),
        ),
    decreases a.len() - p,
{
    if let Ok((_, kind)) = section_kind_at(a, p) {
        let (m, read) = section_at(a, p, kind, so_far.mesh)->Ok_0;
        let next = Reading { mesh: read.mesh, warnings: so_far.warnings + read.warnings };
        let q = sections_at(a, p, so_far)->Ok_0.0;
        lemma_section_bounds(a, p, kind, so_far.mesh);
        lemma_sections_bounds(a, m, next);
        lemma_opening_line(a, p, so_far.mesh);
        lemma_section_kind_by_name(a, p);
        lemma_section_kind_by_name(b, p + shift);
        lemma_section_name_transfer(a, b, p, shift, n);
        lemma_section_transfer(a, b, p, shift, n, kind, so_far.mesh);
        lemma_sections_transfer(a, b, m, shift, n - (m - p), next);
    }
}

/// The line that names the dialect, read in one input, is read in another that agrees with
/// it.
pub proof fn lemma_format_line_transfer(a: Seq<u8>, b: Seq<u8>, p: int, shift: int, n: int)
    requires
        agree(a, b, p, shift, n),
        format_line_at(a, p) matches Ok((q, _)) && covers(a, p, q, n),
    ensures
        format_line_at(b, p + shift) == Ok::<(int, MshVersion), Failure>(
            (format_line_at(a, p)->Ok_0.0 + shift, format_line_at(a, p)->Ok_0.1),
        ),
{
    lemma_format_words();
    let (p1, _) = version_at(a, p)->Ok_0;
    let p2 = gap_at(a, p1)->Ok_0;
    lemma_gap_bounds(a, p1);
    let p4 = gap_at(a, p2 + 1)->Ok_0;
    lemma_gap_bounds(a, p2 + 1);
    let p5 = p4 + 1;
    lemma_before_line_end(a, p, p5, n);
    lemma_has_at_transfer(a, b, p, shift, n, "2.2".spec_bytes());
    lemma_has_at_transfer(a, b, p, shift, n, "4.1".spec_bytes());
    lemma_gap_transfer(a, b, p1, shift, n - (p1 - p));
    assert(byte_at(a, p2) == byte_at(b, p2 + shift));
    lemma_gap_transfer(a, b, p2 + 1, shift, n - (p2 + 1 - p));
    assert(byte_at(a, p4) == byte_at(b, p4 + shift));
    lemma_line_end_transfer(a, b, p5, shift, n - (p5 - p));
}

/// The byte-order line that is read in one input is read in another that agrees with it.
pub proof fn lemma_marker_line_transfer(a: Seq<u8>, b: Seq<u8>, p: int, shift: int, n: int)
    requires
        agree(a, b, p, shift, n),
        marker_line_at(a, p) matches Ok(q) && covers(a, p, q, n),
    ensures
        marker_line_at(b, p + shift) == Ok::<int, Failure>(marker_line_at(a, p)->Ok_0 + shift),
        p < marker_line_at(a, p)->Ok_0,
{
    lemma_line_end_bounds(a, p + 4);
    let q = line_end(a, p + 4)->Ok_0;
    if !(q - p < n) && q == p + 4 {
        assert(a.subrange(p, p + 4)[3] == one_le()[3]);
    }
    lemma_has_at_transfer(a, b, p, shift, n, one_le());
    lemma_line_end_transfer(a, b, p + 4, shift, n - 4);
}

/// A format block that is read in one input is read in another that agrees with it.
#[verifier::rlimit(40)]
pub proof fn lemma_header_transfer(a: Seq<u8>, b: Seq<u8>, p: int, shift: int, n: int)
    requires
        agree(a, b, p, shift, n),
        header_at(a, p) matches Ok((q, _)) && covers(a, p, q, n),
    ensures
        header_at(b, p + shift) == Ok::<(int, MshVersion), Failure>(
            (header_at(a, p)->Ok_0.0 + shift, header_at(a, p)->Ok_0.1),
        ),
{
    lemma_format_words();
    let open = "$MeshFormat".spec_bytes();
    let close = "$EndMeshFormat".spec_bytes();
    let p1 = format_header_at(a, p)->Ok_0;
    lemma_tag_line_bounds(a, p, open);
    let (p2, dialect) = format_line_at(a, p1)->Ok_0;
    lemma_format_line_bounds(a, p1);
    let p3 = if dialect.spec_storage() == Storage::Ascii {
        p2
    } else {
        marker_line_at(a, p2)->Ok_0
    };
    lemma_line_end_bounds(a, p2 + 4);
    lemma_tag_line_bounds(a, p3, close);
    lemma_tag_line_transfer(a, b, p, shift, n, open);
    lemma_format_line_transfer(a, b, p1, shift, n - (p1 - p));
    if dialect.spec_storage() != Storage::Ascii {
        lemma_marker_line_transfer(a, b, p2, shift, n - (p2 - p));
    }
    lemma_tag_line_transfer(a, b, p3, shift, n - (p3 - p), close);
}

/// A text document of version 2.2 that is read in one input is read in another that agrees
/// with it, if no section opens in the other where the document ends.
#[verifier::rlimit(40)]
pub proof fn lemma_document_transfer(a: Seq<u8>, b: Seq<u8>, p: int, shift: int, n: int)
    requires
        agree(a, b, p, shift, n),
        ascii2_document_at(a, p) matches Ok((q, _)) && covers(a, p, q, n) && section_kind_at(
            b,
            q + shift,
        ) is Err,
    ensures
        ascii2_document_at(b, p + shift) == Ok::<(int, Reading), MshFailure>(
            (ascii2_document_at(a, p)->Ok_0.0 + shift, ascii2_document_at(a, p)->Ok_0.1),
        ),
        header_at(b, p + shift) matches Ok((_, dialect)) && dialect == MshVersion::AsciiV22,
{
    let (h, _) = header_at(a, p)->Ok_0;
    lemma_header_bounds(a, p);
    lemma_sections_bounds(a, h, Reading::start());
    lemma_header_transfer(a, b, p, shift, n);
    lemma_sections_transfer(a, b, h, shift, n - (h - p), Reading::start());
}

/// A document is the first of the documents that are read where it opens.
pub proof fn lemma_documents_step(s: Seq<u8>, p: int)
    requires
        ascii2_document_at(s, p) is Ok,
    ensures
        documents_at(s, p) == after_documents(
            seq![ascii2_document_at(s, p)->Ok_0.1],
            documents_at(s, ascii2_document_at(s, p)->Ok_0.0),
        ),
{
    lemma_no_section_at_header(s, p);
}

/// No document is read at the end of the input.
pub proof fn lemma_no_document_at_end(s: Seq<u8>)
    ensures
        documents_at(s, s.len() as int) == Ok::<Seq<Reading>, MshFailure>(Seq::empty()),
{
    lemma_words_not_empty();
}

/// An input agrees with itself written twice: from the start, and from the start of the
/// second copy on up to the end.
pub proof fn lemma_twice_agrees(d: Seq<u8>)
    ensures
        agree(d, d + d, 0, 0, d.len() as int),
        agree(d, d + d, 0, d.len() as int, d.len() as int + 1),
{
}

/// The second of two copies of a document is read as the document alone, behind the first.
#[verifier::rlimit(40)]
pub proof fn lemma_second_copy(d: Seq<u8>)
    requires
        ascii2_document_at(d, 0) matches Ok((q, _)) && q == d.len(),
    ensures
        ascii2_document_at(d + d, d.len() as int) == Ok::<(int, Reading), MshFailure>(
            (2 * (d.len() as int), ascii2_document_at(d, 0)->Ok_0.1),
        ),
        header_at(d + d, d.len() as int) is Ok,
{
    let s = d + d;
    let len = d.len() as int;
    lemma_twice_agrees(d);
    lemma_no_section_at_end(s);
    lemma_document_transfer(d, s, 0, len, len + 1);
}

/// The first of two copies of a document is read as the document alone.
#[verifier::rlimit(40)]
pub proof fn lemma_first_copy(d: Seq<u8>)
    requires
        ascii2_document_at(d, 0) matches Ok((q, _)) && q == d.len(),
        d.len() > 0,
        d.last() == 0x0a,
    ensures
        ascii2_document_at(d + d, 0) == ascii2_document_at(d, 0),
{
    let s = d + d;
    let len = d.len() as int;
    lemma_twice_agrees(d);
    lemma_second_copy(d);
    lemma_no_section_at_header(s, len);
    lemma_document_transfer(d, s, 0, 0, len);
}

/// A document twice: where an input is one text document of version 2.2, from its first byte
/// to its last, and ends with a line feed, the input written twice in a row is read as two
/// documents, each the same as the one that the input alone is read as.
#[verifier::rlimit(40)]
pub proof fn theorem_document_twice(d: Seq<u8>, read: Reading)
    requires
        ascii2_document_at(d, 0) == Ok::<(int, Reading), MshFailure>((d.len() as int, read)),
        d.len() > 0,
        d.last() == 0x0a,
    ensures
        documents_at(d, 0) == Ok::<Seq<Reading>, MshFailure>(seq![read]),
        documents_at(d + d, 0) == Ok::<Seq<Reading>, MshFailure>(seq![read, read]),
{
    let s = d + d;
    let len = d.len() as int;
    lemma_first_copy(d);
    lemma_second_copy(d);
    lemma_documents_step(d, 0);
    lemma_no_document_at_end(d);
    lemma_documents_step(s, 0);
    lemma_documents_step(s, len);
    lemma_no_document_at_end(s);
    assert(seq![read] + Seq::<Reading>::empty() =~= seq![read]);
    assert(seq![read] + seq![read] =~= seq![read, read]);
}

} // verus!
