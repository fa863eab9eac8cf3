//! The mathematical model of the transformation: splitting text into lines,
//! joining lines back, trimming trailing whitespace, locating the last
//! alignment symbol, and padding a line to a target column.

use vstd::prelude::*;

verus! {

/// The fixed set of alignment symbols: open brace, close brace, semicolon, comma.
pub open spec fn is_align_symbol(c: char) -> bool {
    c == '{' || c == '}' || c == ';' || c == ','
}

/// The whitespace characters removed by right-trimming.
pub open spec fn is_trim_space(c: char) -> bool {
    c == ' ' || c == '\t' || c == '\r' || c == '\n' || c == '\u{b}' || c == '\u{c}'
}

/// Splits text into lines at `'\n'` boundaries. Every text has at least one
/// line; a terminator at the end of the text opens a final empty line, so
/// that joining the lines with `'\n'` reconstructs the text exactly.
pub open spec fn split_lines(s: Seq<char>) -> Seq<Seq<char>>
    decreases s.len(),
{
    if s.len() == 0 {
        seq![Seq::<char>::empty()]
    } else if s[0] == '\n' {
        seq![Seq::<char>::empty()] + split_lines(s.skip(1))
    } else {
        let rest = split_lines(s.skip(1));
        seq![seq![s[0]] + rest[0]] + rest.skip(1)
    }
}

/// The line sequence of a text: empty text has no lines, any other text
/// splits at `'\n'` boundaries.
pub open spec fn lines_of(s: Seq<char>) -> Seq<Seq<char>> {
    if s.len() == 0 {
        Seq::<Seq<char>>::empty()
    } else {
        split_lines(s)
    }
}

/// Joins lines with a single `'\n'` between consecutive lines.
pub open spec fn join_lines(ls: Seq<Seq<char>>) -> Seq<char>
    decreases ls.len(),
{
    if ls.len() == 0 {
        Seq::<char>::empty()
    } else if ls.len() == 1 {
        ls[0]
    } else {
        ls[0] + seq!['\n'] + join_lines(ls.skip(1))
    }
}

/// The length of a line once trailing whitespace is removed.
pub open spec fn trimmed_len(l: Seq<char>) -> nat
    decreases l.len(),
{
    if l.len() == 0 {
        0
    } else if is_trim_space(l.last()) {
        trimmed_len(l.drop_last())
    } else {
        l.len()
    }
}

/// A line is eligible for alignment when its right-trimmed form is nonempty
/// and ends in an alignment symbol.
pub open spec fn line_eligible(l: Seq<char>) -> bool {
    trimmed_len(l) > 0 && is_align_symbol(l[trimmed_len(l) - 1])
}

/// The position of the last alignment symbol in a line, or `-1` when the
/// line holds none.
pub open spec fn last_symbol_pos(l: Seq<char>) -> int
    decreases l.len(),
{
    if l.len() == 0 {
        -1
    } else if is_align_symbol(l.last()) {
        l.len() - 1
    } else {
        last_symbol_pos(l.drop_last())
    }
}

/// A run of `n` space characters.
pub open spec fn spaces(n: nat) -> Seq<char> {
    Seq::new(n, |i: int| ' ')
}

/// One line aligned to the target column: an eligible line receives
/// `target - pos` spaces immediately before its last alignment symbol, any
/// other line passes through unchanged.
pub open spec fn align_line(l: Seq<char>, target: nat) -> Seq<char> {
    if line_eligible(l) && 0 <= last_symbol_pos(l) <= target {
        let p = last_symbol_pos(l);
        l.take(p) + spaces((target - p) as nat) + l.skip(p)
    } else {
        l
    }
}

/// The maximum line length over a sequence of lines; `0` when there are none.
pub open spec fn max_line_len(ls: Seq<Seq<char>>) -> nat
    decreases ls.len(),
{
    if ls.len() == 0 {
        0
    } else {
        let m = max_line_len(ls.drop_last());
        if ls.last().len() > m {
            ls.last().len()
        } else {
            m
        }
    }
}

/// Every line aligned against the one target column computed from the
/// original line lengths.
pub open spec fn aligned_lines(ls: Seq<Seq<char>>) -> Seq<Seq<char>> {
    ls.map_values(|l: Seq<char>| align_line(l, max_line_len(ls)))
}

/// The whole transformation: split, align every line against the common
/// target column, and join.
pub open spec fn align_text(s: Seq<char>) -> Seq<char> {
    join_lines(aligned_lines(lines_of(s)))
}

/// Splitting always yields at least one line.
pub proof fn lemma_split_lines_len(s: Seq<char>)
    ensures
        split_lines(s).len() >= 1,
    decreases s.len(),
{
    if s.len() == 0 {
    } else {
        lemma_split_lines_len(s.skip(1));
    }
}

/// No line produced by splitting contains a line break.
pub proof fn lemma_split_lines_no_newline(s: Seq<char>)
    ensures
        forall|i: int, j: int|
            0 <= i < split_lines(s).len() && 0 <= j < split_lines(s)[i].len()
                ==> split_lines(s)[i][j] != '\n',
    decreases s.len(),
{
    if s.len() == 0 {
    } else if s[0] == '\n' {
        lemma_split_lines_no_newline(s.skip(1));
        let rest = split_lines(s.skip(1));
        assert forall|i: int, j: int|
            0 <= i < split_lines(s).len() && 0 <= j < split_lines(s)[i].len()
                implies split_lines(s)[i][j] != '\n' by {
            if i >= 1 {
                assert(split_lines(s)[i] == rest[i - 1]);
            }
        }
    } else {
        lemma_split_lines_no_newline(s.skip(1));
        lemma_split_lines_len(s.skip(1));
        let rest = split_lines(s.skip(1));
        assert forall|i: int, j: int|
            0 <= i < split_lines(s).len() && 0 <= j < split_lines(s)[i].len()
                implies split_lines(s)[i][j] != '\n' by {
            if i == 0 {
                if j >= 1 {
                    assert(split_lines(s)[0][j] == rest[0][j - 1]);
                }
            } else {
                assert(split_lines(s)[i] == rest.skip(1)[i - 1]);
                assert(rest.skip(1)[i - 1] == rest[i]);
            }
        }
    }
}

/// Text without a line break splits into that single line.
pub proof fn lemma_split_lines_without_newline(s: Seq<char>)
    requires
        forall|j: int| 0 <= j < s.len() ==> s[j] != '\n',
    ensures
        split_lines(s) == seq![s],
    decreases s.len(),
{
    if s.len() == 0 {
        assert(split_lines(s) =~~= seq![s]);
    } else {
        assert(forall|j: int| 0 <= j < s.skip(1).len() ==> s.skip(1)[j] == s[j + 1]);
        lemma_split_lines_without_newline(s.skip(1));
        assert(seq![s[0]] + s.skip(1) =~= s);
        assert(split_lines(s) =~~= seq![s]);
    }
}

/// Splitting distributes over a line break: a break-free prefix becomes the
/// first line, and the remainder splits on its own.
pub proof fn lemma_split_lines_concat(s: Seq<char>, t: Seq<char>)
    requires
        forall|j: int| 0 <= j < s.len() ==> s[j] != '\n',
    ensures
        split_lines(s + seq!['\n'] + t) == seq![s] + split_lines(t),
    decreases s.len(),
{
    let u = s + seq!['\n'] + t;
    if s.len() == 0 {
        assert(u[0] == '\n');
        assert(u.skip(1) =~= t);
        assert(seq![s] + split_lines(t) =~~= seq![Seq::<char>::empty()] + split_lines(t));
        assert(split_lines(u) =~~= seq![s] + split_lines(t));
    } else {
        assert(u[0] == s[0]);
        assert(u.skip(1) =~= s.skip(1) + seq!['\n'] + t);
        assert(forall|j: int| 0 <= j < s.skip(1).len() ==> s.skip(1)[j] == s[j + 1]);
        lemma_split_lines_concat(s.skip(1), t);
        let rest = split_lines(u.skip(1));
        lemma_split_lines_len(t);
        assert(rest[0] == s.skip(1));
        assert(rest.skip(1) =~~= split_lines(t));
        assert(seq![u[0]] + rest[0] =~= s);
        assert(split_lines(u) =~~= seq![s] + split_lines(t));
    }
}

/// Joining the lines of a text reconstructs the text exactly.
pub proof fn lemma_join_split(s: Seq<char>)
    ensures
        join_lines(split_lines(s)) == s,
    decreases s.len(),
{
    if s.len() == 0 {
    } else if s[0] == '\n' {
        lemma_join_split(s.skip(1));
        lemma_split_lines_len(s.skip(1));
        let rest = split_lines(s.skip(1));
        let sp = split_lines(s);
        assert(sp == seq![Seq::<char>::empty()] + rest);
        assert(sp.len() >= 2);
        assert(sp.skip(1) =~~= rest);
        assert(join_lines(sp) == sp[0] + seq!['\n'] + join_lines(rest));
        assert(sp[0] + seq!['\n'] + s.skip(1) =~= s);
    } else {
        lemma_join_split(s.skip(1));
        lemma_split_lines_len(s.skip(1));
        let rest = split_lines(s.skip(1));
        let sp = split_lines(s);
        assert(sp == seq![seq![s[0]] + rest[0]] + rest.skip(1));
        if rest.len() == 1 {
            assert(sp.len() == 1);
            assert(join_lines(sp) == sp[0]);
            assert(join_lines(rest) == rest[0]);
            assert(sp[0] =~= s);
        } else {
            assert(sp.len() >= 2);
            assert(sp.skip(1) =~~= rest.skip(1));
            assert(join_lines(sp) == sp[0] + seq!['\n'] + join_lines(rest.skip(1)));
            assert(join_lines(rest) == rest[0] + seq!['\n'] + join_lines(rest.skip(1)));
            assert(sp[0] + seq!['\n'] + join_lines(rest.skip(1)) =~= seq![s[0]] + (rest[0]
                + seq!['\n'] + join_lines(rest.skip(1))));
            assert(seq![s[0]] + s.skip(1) =~= s);
        }
    }
}

/// Splitting the join of break-free lines recovers exactly those lines.
pub proof fn lemma_split_join(ls: Seq<Seq<char>>)
    requires
        ls.len() >= 1,
        forall|i: int, j: int|
            0 <= i < ls.len() && 0 <= j < ls[i].len() ==> ls[i][j] != '\n',
    ensures
        split_lines(join_lines(ls)) == ls,
    decreases ls.len(),
{
    if ls.len() == 1 {
        lemma_split_lines_without_newline(ls[0]);
        assert(seq![ls[0]] =~~= ls);
    } else {
        assert(forall|i: int, j: int|
            0 <= i < ls.skip(1).len() && 0 <= j < ls.skip(1)[i].len()
                ==> ls.skip(1)[i] == ls[i + 1] && ls.skip(1)[i][j] != '\n');
        lemma_split_join(ls.skip(1));
        lemma_split_lines_concat(ls[0], join_lines(ls.skip(1)));
        assert(seq![ls[0]] + ls.skip(1) =~~= ls);
    }
}

/// Appending one line to a nonempty line sequence appends a break and the
/// line to the join.
pub proof fn lemma_join_lines_push(ls: Seq<Seq<char>>, l: Seq<char>)
    requires
        ls.len() >= 1,
    ensures
        join_lines(ls.push(l)) == join_lines(ls) + seq!['\n'] + l,
    decreases ls.len(),
{
    let p = ls.push(l);
    if ls.len() == 1 {
        assert(p.skip(1) =~~= seq![l]);
        assert(join_lines(p) == p[0] + seq!['\n'] + join_lines(p.skip(1)));
        assert(join_lines(seq![l]) == l);
        assert(p[0] == ls[0]);
    } else {
        lemma_join_lines_push(ls.skip(1), l);
        assert(p.skip(1) =~~= ls.skip(1).push(l));
        assert(join_lines(p) == p[0] + seq!['\n'] + join_lines(ls.skip(1).push(l)));
        assert(p[0] == ls[0]);
        assert(ls[0] + seq!['\n'] + (join_lines(ls.skip(1)) + seq!['\n'] + l) =~= (ls[0]
            + seq!['\n'] + join_lines(ls.skip(1))) + seq!['\n'] + l);
    }
}

/// Trimming never lengthens a line.
pub proof fn lemma_trimmed_len_le(l: Seq<char>)
    ensures
        trimmed_len(l) <= l.len(),
    decreases l.len(),
{
    if l.len() == 0 {
    } else if is_trim_space(l.last()) {
        lemma_trimmed_len_le(l.drop_last());
    }
}

/// Everything past the trimmed length is whitespace.
pub proof fn lemma_trailing_is_space(l: Seq<char>)
    ensures
        forall|j: int| trimmed_len(l) <= j < l.len() ==> is_trim_space(l[j]),
    decreases l.len(),
{
    if l.len() == 0 {
    } else if is_trim_space(l.last()) {
        lemma_trimmed_len_le(l.drop_last());
        lemma_trailing_is_space(l.drop_last());
        assert forall|j: int| trimmed_len(l) <= j < l.len() implies is_trim_space(l[j]) by {
            if j < l.len() - 1 {
                assert(l[j] == l.drop_last()[j]);
            } else {
                assert(l[j] == l.last());
            }
        }
    }
}

/// The last-symbol position is a valid index holding a symbol, or `-1`.
pub proof fn lemma_last_symbol_pos_bounds(l: Seq<char>)
    ensures
        -1 <= last_symbol_pos(l) < l.len(),
        last_symbol_pos(l) >= 0 ==> is_align_symbol(l[last_symbol_pos(l)]),
    decreases l.len(),
{
    if l.len() == 0 {
    } else if is_align_symbol(l.last()) {
    } else {
        lemma_last_symbol_pos_bounds(l.drop_last());
        if last_symbol_pos(l) >= 0 {
            assert(l[last_symbol_pos(l)] == l.drop_last()[last_symbol_pos(l)]);
        }
    }
}

/// No symbol stands past the last-symbol position.
pub proof fn lemma_no_symbol_after(l: Seq<char>)
    ensures
        forall|j: int| last_symbol_pos(l) < j < l.len() ==> !is_align_symbol(l[j]),
    decreases l.len(),
{
    if l.len() == 0 {
    } else if is_align_symbol(l.last()) {
    } else {
        lemma_no_symbol_after(l.drop_last());
        lemma_last_symbol_pos_bounds(l.drop_last());
        assert forall|j: int| last_symbol_pos(l) < j < l.len() implies !is_align_symbol(l[j]) by {
            if j < l.len() - 1 {
                assert(l[j] == l.drop_last()[j]);
            } else {
                assert(l[j] == l.last());
            }
        }
    }
}

/// On an eligible line, the last symbol sits exactly where the trimmed form
/// ends: trailing whitespace holds no symbol.
pub proof fn lemma_eligible_symbol_pos(l: Seq<char>)
    requires
        line_eligible(l),
    ensures
        last_symbol_pos(l) == trimmed_len(l) - 1,
    decreases l.len(),
{
    if l.len() == 0 {
    } else if is_trim_space(l.last()) {
        assert(!is_align_symbol(l.last()));
        lemma_trimmed_len_le(l.drop_last());
        assert(l[trimmed_len(l) - 1] == l.drop_last()[trimmed_len(l) - 1]);
        lemma_eligible_symbol_pos(l.drop_last());
    }
}

/// A symbol with only non-symbols after it is the last symbol.
pub proof fn lemma_last_symbol_pos_from_witness(l: Seq<char>, q: int)
    requires
        0 <= q < l.len(),
        is_align_symbol(l[q]),
        forall|j: int| q < j < l.len() ==> !is_align_symbol(l[j]),
    ensures
        last_symbol_pos(l) == q,
    decreases l.len(),
{
    if q == l.len() - 1 {
    } else {
        assert(!is_align_symbol(l.last()));
        assert(l.drop_last()[q] == l[q]);
        assert(forall|j: int|
            q < j < l.drop_last().len() ==> l.drop_last()[j] == l[j] && !is_align_symbol(
            l.drop_last()[j]));
        lemma_last_symbol_pos_from_witness(l.drop_last(), q);
    }
}

/// A non-space character followed only by whitespace marks the trimmed end.
pub proof fn lemma_trimmed_len_from_witness(l: Seq<char>, q: int)
    requires
        0 <= q < l.len(),
        !is_trim_space(l[q]),
        forall|j: int| q < j < l.len() ==> is_trim_space(l[j]),
    ensures
        trimmed_len(l) == q + 1,
    decreases l.len(),
{
    if q == l.len() - 1 {
    } else {
        assert(is_trim_space(l.last()));
        assert(l.drop_last()[q] == l[q]);
        assert(forall|j: int|
            q < j < l.drop_last().len() ==> l.drop_last()[j] == l[j] && is_trim_space(
            l.drop_last()[j]));
        lemma_trimmed_len_from_witness(l.drop_last(), q);
    }
}

/// Aligning an eligible line moves its last symbol to the target column,
/// keeps it eligible, and lengthens it by exactly the inserted padding.
pub proof fn lemma_align_line_eligible(l: Seq<char>, target: nat)
    requires
        line_eligible(l),
        l.len() <= target,
    ensures
        line_eligible(align_line(l, target)),
        last_symbol_pos(align_line(l, target)) == target,
        align_line(l, target).len() == l.len() + target - last_symbol_pos(l),
{
    lemma_eligible_symbol_pos(l);
    lemma_trimmed_len_le(l);
    lemma_trailing_is_space(l);
    lemma_no_symbol_after(l);
    let p = last_symbol_pos(l);
    assert(0 <= p < l.len());
    let r = align_line(l, target);
    assert(r == l.take(p) + spaces((target - p) as nat) + l.skip(p));
    assert(r.len() == l.len() + target - p);
    assert(r[target as int] == l.skip(p)[0]);
    assert(l.skip(p)[0] == l[p]);
    assert(is_align_symbol(r[target as int]));
    assert(!is_trim_space(r[target as int]));
    assert forall|j: int| target < j < r.len() implies is_trim_space(r[j]) && !is_align_symbol(
        r[j]) by {
        assert(r[j] == l.skip(p)[j - target]);
        assert(l.skip(p)[j - target] == l[p + (j - target)]);
        assert(trimmed_len(l) <= p + (j - target) < l.len());
    }
    lemma_last_symbol_pos_from_witness(r, target as int);
    lemma_trimmed_len_from_witness(r, target as int);
}

/// Aligning inserts line breaks nowhere.
pub proof fn lemma_align_line_no_newline(l: Seq<char>, target: nat)
    requires
        forall|j: int| 0 <= j < l.len() ==> l[j] != '\n',
    ensures
        forall|j: int| 0 <= j < align_line(l, target).len() ==> align_line(l, target)[j] != '\n',
{
    if line_eligible(l) && 0 <= last_symbol_pos(l) <= target {
        lemma_last_symbol_pos_bounds(l);
        let p = last_symbol_pos(l);
        let r = align_line(l, target);
        assert forall|j: int| 0 <= j < r.len() implies r[j] != '\n' by {
            if j < p {
                assert(r[j] == l.take(p)[j]);
                assert(l.take(p)[j] == l[j]);
            } else if j < target {
                assert(r[j] == spaces((target - p) as nat)[j - p]);
                assert(spaces((target - p) as nat)[j - p] == ' ');
            } else {
                assert(r[j] == l.skip(p)[j - target]);
                assert(l.skip(p)[j - target] == l[p + (j - target)]);
            }
        }
    }
}

/// Aligning never shortens a line.
pub proof fn lemma_align_line_len_ge(l: Seq<char>, target: nat)
    requires
        l.len() <= target,
    ensures
        align_line(l, target).len() >= l.len(),
{
    if line_eligible(l) && 0 <= last_symbol_pos(l) <= target {
        lemma_last_symbol_pos_bounds(l);
    }
}

/// Nonempty text that splits into a single line has a nonempty line.
pub proof fn lemma_split_lines_single_nonempty(s: Seq<char>)
    requires
        s.len() > 0,
        split_lines(s).len() == 1,
    ensures
        split_lines(s)[0].len() > 0,
{
    lemma_split_lines_len(s.skip(1));
    if s[0] == '\n' {
        assert(split_lines(s).len() >= 2);
    } else {
        assert(split_lines(s)[0] == seq![s[0]] + split_lines(s.skip(1))[0]);
    }
}

/// Every line is at most the maximum line length.
pub proof fn lemma_max_line_len_ge(ls: Seq<Seq<char>>)
    ensures
        forall|i: int| 0 <= i < ls.len() ==> ls[i].len() <= max_line_len(ls),
    decreases ls.len(),
{
    if ls.len() == 0 {
    } else {
        lemma_max_line_len_ge(ls.drop_last());
        assert forall|i: int| 0 <= i < ls.len() implies ls[i].len() <= max_line_len(ls) by {
            if i < ls.len() - 1 {
                assert(ls[i] == ls.drop_last()[i]);
            }
        }
    }
}

} // verus!
