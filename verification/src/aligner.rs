//! The executable transformation, verified against the model in `text`.

use vstd::prelude::*;

use crate::text::align_line;
use crate::text::align_text;
use crate::text::aligned_lines;
use crate::text::is_align_symbol;
use crate::text::is_trim_space;
use crate::text::join_lines;
use crate::text::lemma_eligible_symbol_pos;
use crate::text::lemma_max_line_len_ge;
use crate::text::lemma_join_lines_push;
use crate::text::lemma_split_lines_len;
use crate::text::lemma_trimmed_len_le;
use crate::text::lines_of;
use crate::text::max_line_len;
use crate::text::spaces;
use crate::text::split_lines;
use crate::text::trimmed_len;

verus! {

/// Whether `c` is one of the alignment symbols `{`, `}`, `;`, `,`.
fn is_symbol_char(c: char) -> (b: bool)
    ensures
        b == is_align_symbol(c),
{
    c == '{' || c == '}' || c == ';' || c == ','
}

/// Whether `c` is whitespace for the purpose of right-trimming.
fn is_space_char(c: char) -> (b: bool)
    ensures
        b == is_trim_space(c),
{
    c == ' ' || c == '\t' || c == '\r' || c == '\n' || c == '\u{b}' || c == '\u{c}'
}

/// Splits the text into its lines, cutting at each `'\n'`.
fn split_into_lines(s: &str) -> (r: Vec<String>)
    ensures
        r.deep_view() == split_lines(s@),
{
    let n = s.unicode_len();
    let mut done: Vec<String> = Vec::new();
    let mut cur = String::new();
    let mut j: usize = 0;
    proof {
        lemma_split_lines_len(s@);
        assert(s@.skip(0) =~= s@);
        assert(done.deep_view() + seq![cur@ + split_lines(s@)[0]] + split_lines(s@).skip(1)
            =~~= split_lines(s@));
    }
    while j < n
        invariant
            n == s@.len(),
            j <= n,
            split_lines(s@) == done.deep_view() + seq![cur@ + split_lines(s@.skip(j as int))[0]]
                + split_lines(s@.skip(j as int)).skip(1),
        decreases n - j,
    {
        let ghost old_done = done.deep_view();
        let ghost old_cur = cur@;
        let ghost sp = split_lines(s@.skip(j as int));
        let ghost spn = split_lines(s@.skip(j as int + 1));
        let c = s.get_char(j);
        proof {
            lemma_split_lines_len(s@.skip(j as int + 1));
            assert(s@.skip(j as int)[0] == s@[j as int]);
            assert(s@.skip(j as int).skip(1) =~= s@.skip(j as int + 1));
        }
        if c == '\n' {
            done.push(cur);
            cur = String::new();
            proof {
                assert(sp == seq![Seq::<char>::empty()] + spn);
                assert(sp[0] =~= Seq::<char>::empty());
                assert(sp.skip(1) =~~= spn);
                assert(old_cur + sp[0] =~= old_cur);
                assert(done.deep_view() =~~= old_done.push(old_cur));
                assert(old_done + seq![old_cur] + spn =~~= old_done.push(old_cur) + seq![
                    cur@ + spn[0]] + spn.skip(1));
            }
        } else {
            cur.append(s.substring_char(j, j + 1));
            proof {
                assert(s@.subrange(j as int, j as int + 1) =~= seq![s@[j as int]]);
                assert(cur@ == old_cur + seq![s@[j as int]]);
                assert(sp == seq![seq![s@[j as int]] + spn[0]] + spn.skip(1));
                assert(sp[0] == seq![s@[j as int]] + spn[0]);
                assert(sp.skip(1) =~~= spn.skip(1));
                assert(old_cur + sp[0] =~= cur@ + spn[0]);
            }
        }
        j = j + 1;
    }
    proof {
        assert(s@.skip(n as int) =~= Seq::<char>::empty());
        assert(split_lines(s@) == done.deep_view() + seq![cur@ + Seq::<char>::empty()] + seq![
            Seq::<char>::empty()].skip(1));
        assert(cur@ + Seq::<char>::empty() =~= cur@);
        assert(seq![Seq::<char>::empty()].skip(1) =~~= Seq::<Seq<char>>::empty());
    }
    let ghost last_done = done.deep_view();
    let ghost last_cur = cur@;
    done.push(cur);
    proof {
        assert(done.deep_view() =~~= last_done.push(last_cur));
        assert(last_done + seq![last_cur] + Seq::<Seq<char>>::empty() =~~= last_done.push(
            last_cur));
    }
    done
}

/// The maximum character length over the given lines; `0` when there are none.
fn max_of_lines(lines: &Vec<String>) -> (m: usize)
    ensures
        m as nat == max_line_len(lines.deep_view()),
{
    let mut m: usize = 0;
    let mut i: usize = 0;
    proof {
        assert(lines.deep_view().take(0) =~~= Seq::<Seq<char>>::empty());
    }
    while i < lines.len()
        invariant
            i <= lines@.len(),
            m as nat == max_line_len(lines.deep_view().take(i as int)),
        decreases lines@.len() - i,
    {
        let li = lines[i].as_str().unicode_len();
        proof {
            assert(lines.deep_view()[i as int] == lines@[i as int]@);
            assert(lines.deep_view().take(i as int + 1).drop_last() =~~= lines.deep_view().take(
                i as int));
            assert(lines.deep_view().take(i as int + 1).last() == lines.deep_view()[i as int]);
        }
        if li > m {
            m = li;
        }
        i = i + 1;
    }
    proof {
        assert(lines.deep_view().take(lines@.len() as int) =~~= lines.deep_view());
    }
    m
}

/// Pads one line so that its last alignment symbol lands at the target
/// column; a line whose right-trimmed form does not end in a symbol passes
/// through unchanged.
fn align_single_line(line: &str, target: usize) -> (r: String)
    requires
        line@.len() <= target as nat,
    ensures
        r@ == align_line(line@, target as nat),
{
    let n = line.unicode_len();
    let mut t: usize = n;
    proof {
        assert(line@.take(n as int) =~= line@);
        lemma_trimmed_len_le(line@.take(n as int));
    }
    while t > 0 && is_space_char(line.get_char(t - 1))
        invariant
            n == line@.len(),
            t <= n,
            trimmed_len(line@) == trimmed_len(line@.take(t as int)),
            trimmed_len(line@.take(t as int)) <= t as nat,
        decreases t,
    {
        proof {
            assert(line@.take(t as int).last() == line@[t as int - 1]);
            assert(line@.take(t as int).drop_last() =~= line@.take(t as int - 1));
            lemma_trimmed_len_le(line@.take(t as int - 1));
        }
        t = t - 1;
    }
    proof {
        if t > 0 {
            assert(line@.take(t as int).last() == line@[t as int - 1]);
        }
        assert(trimmed_len(line@) == t as nat);
    }
    if t == 0 {
        return String::from_str(line);
    }
    let last = line.get_char(t - 1);
    if !is_symbol_char(last) {
        return String::from_str(line);
    }
    proof {
        lemma_eligible_symbol_pos(line@);
    }
    let p = t - 1;
    let pad = target - p;
    let mut r = String::new();
    r.append(line.substring_char(0, p));
    proof {
        assert(line@.subrange(0, p as int) =~= line@.take(p as int));
        assert(Seq::<char>::empty() + line@.take(p as int) =~= line@.take(p as int));
        assert(r@ == line@.take(p as int) + spaces(0));
    }
    let mut k: usize = 0;
    while k < pad
        invariant
            k <= pad,
            r@ == line@.take(p as int) + spaces(k as nat),
        decreases pad - k,
    {
        r.append(" ");
        proof {
            reveal_strlit(" ");
            assert(spaces(k as nat + 1) =~= spaces(k as nat) + " "@);
        }
        k = k + 1;
    }
    r.append(line.substring_char(p, n));
    proof {
        assert(line@.subrange(p as int, n as int) =~= line@.skip(p as int));
        assert(r@ == line@.take(p as int) + spaces(pad as nat) + line@.skip(p as int));
    }
    r
}

/// Joins lines with a single `'\n'` between consecutive lines.
fn join_into_text(lines: &Vec<String>) -> (r: String)
    ensures
        r@ == join_lines(lines.deep_view()),
{
    if lines.len() == 0 {
        return String::new();
    }
    let mut r = String::from_str(lines[0].as_str());
    let mut i: usize = 1;
    proof {
        assert(lines.deep_view().take(1).len() == 1);
        assert(lines.deep_view().take(1)[0] == lines@[0]@);
    }
    while i < lines.len()
        invariant
            1 <= i <= lines@.len(),
            r@ == join_lines(lines.deep_view().take(i as int)),
        decreases lines@.len() - i,
    {
        r.append("\n");
        r.append(lines[i].as_str());
        proof {
            reveal_strlit("\n");
            assert("\n"@ =~= seq!['\n']);
            lemma_join_lines_push(lines.deep_view().take(i as int), lines.deep_view()[i as int]);
            assert(lines.deep_view().take(i as int).push(lines.deep_view()[i as int])
                =~~= lines.deep_view().take(i as int + 1));
            assert(lines.deep_view()[i as int] == lines@[i as int]@);
        }
        i = i + 1;
    }
    proof {
        assert(lines.deep_view().take(lines@.len() as int) =~~= lines.deep_view());
    }
    r
}

/// Aligns the trailing `{`, `}`, `;`, `,` symbols of the input vertically.
///
/// The text is split into lines; the target column is the greatest line
/// length; every line whose right-trimmed form ends in one of the symbols
/// receives spaces immediately before its last symbol, moving that symbol to
/// the target column; every other line is left as it is; the lines are then
/// joined with single `'\n'` separators.
pub fn transform_code(input: &str) -> (r: String)
    ensures
        r@ == align_text(input@),
{
    if input.unicode_len() == 0 {
        proof {
            assert(aligned_lines(lines_of(input@)).len() == 0);
        }
        return String::new();
    }
    let lines = split_into_lines(input);
    let target = max_of_lines(&lines);
    proof {
        lemma_max_line_len_ge(lines.deep_view());
    }
    let mut out: Vec<String> = Vec::new();
    let mut i: usize = 0;
    while i < lines.len()
        invariant
            i <= lines@.len(),
            out.deep_view().len() == i as int,
            forall|k: int|
                0 <= k < i as int ==> out.deep_view()[k] == align_line(
                    lines.deep_view()[k],
                    target as nat,
                ),
            target as nat == max_line_len(lines.deep_view()),
            forall|k: int|
                0 <= k < lines@.len() ==> lines.deep_view()[k].len() <= target as nat,
        decreases lines@.len() - i,
    {
        proof {
            assert(lines.deep_view()[i as int] == lines@[i as int]@);
        }
        let a = align_single_line(lines[i].as_str(), target);
        let ghost old_out = out.deep_view();
        out.push(a);
        proof {
            assert(out.deep_view() =~~= old_out.push(a@));
        }
        i = i + 1;
    }
    let r = join_into_text(&out);
    proof {
        assert(out.deep_view() =~~= aligned_lines(lines.deep_view()));
        assert(lines_of(input@) == split_lines(input@));
    }
    r
}

} // verus!
