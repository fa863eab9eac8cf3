//! General properties of the transformation, stated and proved over the
//! model in `text`.

use vstd::prelude::*;

use crate::text::align_line;
use crate::text::align_text;
use crate::text::aligned_lines;
use crate::text::join_lines;
use crate::text::last_symbol_pos;
use crate::text::lemma_align_line_eligible;
use crate::text::lemma_align_line_len_ge;
use crate::text::lemma_align_line_no_newline;
use crate::text::lemma_join_split;
use crate::text::lemma_last_symbol_pos_bounds;
use crate::text::lemma_max_line_len_ge;
use crate::text::lemma_split_join;
use crate::text::lemma_split_lines_len;
use crate::text::lemma_split_lines_no_newline;
use crate::text::lemma_split_lines_single_nonempty;
use crate::text::line_eligible;
use crate::text::lines_of;
use crate::text::max_line_len;
use crate::text::spaces;
use crate::text::split_lines;

verus! {

/// The lines of the output are exactly the input's lines, each aligned
/// against the one target column computed from the input.
pub proof fn lemma_output_lines(s: Seq<char>)
    ensures
        lines_of(align_text(s)) == aligned_lines(lines_of(s)),
{
    if s.len() == 0 {
        assert(aligned_lines(lines_of(s)).len() == 0);
        assert(lines_of(align_text(s)) =~~= aligned_lines(lines_of(s)));
    } else {
        let ls = split_lines(s);
        let m = max_line_len(ls);
        let al = aligned_lines(ls);
        lemma_split_lines_len(s);
        lemma_split_lines_no_newline(s);
        lemma_max_line_len_ge(ls);
        assert(al.len() == ls.len());
        assert forall|i: int, j: int|
            0 <= i < al.len() && 0 <= j < al[i].len() implies al[i][j] != '\n' by {
            assert(al[i] == align_line(ls[i], m));
            lemma_align_line_no_newline(ls[i], m);
        }
        lemma_split_join(al);
        if al.len() == 1 {
            lemma_split_lines_single_nonempty(s);
            assert(al[0] == align_line(ls[0], m));
            lemma_align_line_len_ge(ls[0], m);
            assert(join_lines(al) == al[0]);
            assert(join_lines(al).len() > 0);
        } else {
            assert(join_lines(al) == al[0] + seq!['\n'] + join_lines(al.skip(1)));
            assert(join_lines(al).len() > 0);
        }
        assert(lines_of(align_text(s)) == split_lines(join_lines(al)));
    }
}

/// Line-count preservation: the output has exactly as many lines as the
/// input.
pub proof fn lemma_line_count_preserved(s: Seq<char>)
    ensures
        lines_of(align_text(s)).len() == lines_of(s).len(),
{
    lemma_output_lines(s);
}

/// `r` is `l` with one run of spaces inserted at one position: no character
/// is added but spaces, none is removed, none is reordered.
pub open spec fn space_insertion(l: Seq<char>, r: Seq<char>) -> bool {
    exists|p: int, k: nat| 0 <= p <= l.len() && r == l.take(p) + spaces(k) + l.skip(p)
}

/// Content preservation: every output line is its input line with a single
/// run of inserted spaces, so removing exactly the inserted padding
/// reconstructs the input.
pub proof fn lemma_content_preserved(s: Seq<char>)
    ensures
        lines_of(align_text(s)).len() == lines_of(s).len(),
        forall|i: int|
            0 <= i < lines_of(s).len() ==> space_insertion(
                lines_of(s)[i],
                lines_of(align_text(s))[i],
            ),
{
    lemma_output_lines(s);
    let ls = lines_of(s);
    let m = max_line_len(ls);
    assert forall|i: int| 0 <= i < ls.len() implies space_insertion(
        ls[i],
        lines_of(align_text(s))[i],
    ) by {
        let l = ls[i];
        let r = align_line(l, m);
        assert(lines_of(align_text(s))[i] == r);
        if line_eligible(l) && 0 <= last_symbol_pos(l) <= m {
            let p = last_symbol_pos(l);
            lemma_last_symbol_pos_bounds(l);
            let k = (m - p) as nat;
            assert(0 <= p <= l.len() && r == l.take(p) + spaces(k) + l.skip(p));
        } else {
            let p = 0int;
            let k = 0nat;
            assert(l.take(p) + spaces(k) + l.skip(p) =~= l);
            assert(0 <= p <= l.len() && r == l.take(p) + spaces(k) + l.skip(p));
        }
    }
}

/// Alignment correctness: in the output, every line whose right-trimmed form
/// ends in a recognized symbol carries that symbol exactly at the target
/// column computed from the input's line lengths.
pub proof fn lemma_alignment_correct(s: Seq<char>)
    ensures
        lines_of(align_text(s)).len() == lines_of(s).len(),
        forall|i: int|
            0 <= i < lines_of(align_text(s)).len() && line_eligible(lines_of(align_text(s))[i])
                ==> last_symbol_pos(lines_of(align_text(s))[i]) == max_line_len(lines_of(s)),
{
    lemma_output_lines(s);
    let ls = lines_of(s);
    let m = max_line_len(ls);
    lemma_max_line_len_ge(ls);
    assert forall|i: int|
        0 <= i < lines_of(align_text(s)).len() && line_eligible(
            lines_of(align_text(s))[i],
        ) implies last_symbol_pos(lines_of(align_text(s))[i]) == m by {
        let l = ls[i];
        assert(lines_of(align_text(s))[i] == align_line(l, m));
        if line_eligible(l) {
            lemma_align_line_eligible(l, m);
        }
    }
}

/// No-op on non-symbol lines: a line whose right-trimmed form does not end
/// in `{`, `}`, `;` or `,` is identical before and after.
pub proof fn lemma_non_symbol_line_unchanged(s: Seq<char>)
    ensures
        lines_of(align_text(s)).len() == lines_of(s).len(),
        forall|i: int|
            0 <= i < lines_of(s).len() && !line_eligible(lines_of(s)[i]) ==> lines_of(
                align_text(s),
            )[i] == lines_of(s)[i],
{
    lemma_output_lines(s);
}

/// Empty input is left empty: it has no lines, so nothing is aligned.
pub proof fn lemma_empty_input()
    ensures
        align_text(Seq::<char>::empty()) == Seq::<char>::empty(),
{
}

/// On text with no eligible line the transformation is the identity, and
/// therefore a fixed point of itself. In general a second pass is not a
/// no-op: an aligned line grows past the old target column, so the target
/// of the second pass is larger and eligible lines are padded again.
pub proof fn lemma_fixed_point_without_eligible_lines(s: Seq<char>)
    requires
        forall|i: int| 0 <= i < lines_of(s).len() ==> !line_eligible(lines_of(s)[i]),
    ensures
        align_text(s) == s,
        align_text(align_text(s)) == align_text(s),
{
    if s.len() == 0 {
        lemma_empty_input();
    } else {
        let ls = split_lines(s);
        lemma_split_lines_len(s);
        assert forall|i: int| 0 <= i < ls.len() implies aligned_lines(ls)[i] == ls[i] by {
            assert(ls[i] == lines_of(s)[i]);
            assert(!line_eligible(ls[i]));
            assert(aligned_lines(ls)[i] == align_line(ls[i], max_line_len(ls)));
        }
        assert(aligned_lines(ls) =~~= ls);
        lemma_join_split(s);
        assert(align_text(s) == s);
    }
}

} // verus!
