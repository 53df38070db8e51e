//! Texts laid out as words and lines, and what reading them gives.
use crate::text::{
    contents, joined, lemma_prefix_len, nonspaces, other_than, prefix_len, space, spaces,
    string_views, text_lines, trimmed, without_suffix, word, words,
};
use crate::text_laws::{blank, lemma_first_word, lemma_words_after_space};
use vstd::prelude::*;

verus! {

/// The characters that are white space, by their numbers.
pub proof fn law_white_space(c: char)
    ensures
        space(c) <==> set![
            9int, 10, 11, 12, 13, 32, 0x85, 0xA0, 0x1680, 0x2000, 0x2001, 0x2002, 0x2003, 0x2004,
            0x2005, 0x2006, 0x2007, 0x2008, 0x2009, 0x200A, 0x2028, 0x2029, 0x202F, 0x205F, 0x3000,
        ].contains(c as int),
{
}

/// The words one behind the other, each behind its gap.
pub open spec fn laid_out(gaps: Seq<Seq<char>>, ws: Seq<Seq<char>>) -> Seq<char>
    decreases ws.len(),
{
    if ws.len() == 0 {
        Seq::empty()
    } else {
        gaps[0] + (ws[0] + laid_out(gaps.skip(1), ws.skip(1)))
    }
}

/// Whether words can be told apart by the gaps in front of them: each gap is
/// white space, and only the first may be empty.
pub open spec fn apart(gaps: Seq<Seq<char>>, ws: Seq<Seq<char>>) -> bool {
    &&& gaps.len() == ws.len()
    &&& forall|i: int| 0 <= i < ws.len() ==> word(#[trigger] ws[i])
    &&& forall|i: int| 0 <= i < gaps.len() ==> blank(#[trigger] gaps[i])
    &&& forall|i: int| 1 <= i < gaps.len() ==> (#[trigger] gaps[i]).len() > 0
}

/// White space in front of a text makes no difference to its words.
pub proof fn lemma_words_after_blank(b: Seq<char>, s: Seq<char>)
    requires
        blank(b),
    ensures
        words(b + s) == words(s),
    decreases b.len(),
{
    if b.len() == 0 {
        assert(b + s =~= s);
    } else {
        let rest = b.skip(1);
        assert forall|i: int| 0 <= i < rest.len() implies space(#[trigger] rest[i]) by {
            assert(rest[i] == b[i + 1]);
        }
        lemma_words_after_blank(rest, s);
        assert(space(b[0]));
        lemma_words_after_space(b[0], rest + s);
        assert(seq![b[0]] + (rest + s) =~= b + s);
    }
}

/// Words that are set apart by white space, as much of it as there may be and
/// of whatever kind, read as those words.
pub proof fn law_words_set_apart_come_back(
    gaps: Seq<Seq<char>>,
    ws: Seq<Seq<char>>,
    tail: Seq<char>,
)
    requires
        apart(gaps, ws),
        blank(tail),
    ensures
        words(laid_out(gaps, ws) + tail) == ws,
    decreases ws.len(),
{
    if ws.len() == 0 {
        assert(laid_out(gaps, ws) + tail =~= tail + Seq::empty());
        lemma_words_after_blank(tail, Seq::empty());
        assert(words(Seq::<char>::empty()) =~= Seq::empty());
        assert(ws =~= Seq::empty());
    } else {
        let (g, w) = (gaps.skip(1), ws.skip(1));
        assert forall|i: int| 0 <= i < w.len() implies word(#[trigger] w[i]) by {
            assert(w[i] == ws[i + 1]);
        }
        assert forall|i: int| 0 <= i < g.len() implies blank(#[trigger] g[i]) && g[i].len() > 0 by {
            assert(g[i] == gaps[i + 1]);
        }
        law_words_set_apart_come_back(g, w, tail);
        let rest = laid_out(g, w) + tail;
        if w.len() > 0 {
            assert(g[0].len() > 0 && blank(g[0]));
            assert(rest[0] == g[0][0]);
        } else {
            assert(rest =~= tail);
        }
        assert(word(ws[0]) && blank(gaps[0]));
        lemma_first_word(ws[0], rest);
        lemma_words_after_blank(gaps[0], ws[0] + rest);
        assert(laid_out(gaps, ws) + tail =~= gaps[0] + (ws[0] + rest));
        assert(seq![ws[0]] + w =~= ws);
    }
}

/// White space behind a text makes no difference to its words.
proof fn lemma_words_before_space(s: Seq<char>, c: char)
    requires
        space(c),
    ensures
        words(s.push(c)) == words(s),
    decreases s.len(),
{
    let n = prefix_len(s, spaces());
    let u = s.push(c);
    lemma_prefix_len(s, spaces(), n);
    assert forall|i: int| 0 <= i < n implies spaces()(#[trigger] u[i]) by {
        assert(u[i] == s[i]);
    }
    if n == s.len() {
        assert forall|i: int| 0 <= i < u.len() implies spaces()(#[trigger] u[i]) by {
            if i < s.len() {
                assert(spaces()(s[i]));
            }
        }
        lemma_prefix_len(u, spaces(), u.len());
    } else {
        assert(u[n as int] == s[n as int]);
        lemma_prefix_len(u, spaces(), n);
        let t = s.skip(n as int);
        let k = prefix_len(t, nonspaces());
        lemma_prefix_len(t, nonspaces(), k);
        assert(u.skip(n as int) =~= t.push(c));
        assert forall|i: int| 0 <= i < k implies nonspaces()(#[trigger] t.push(c)[i]) by {
            assert(t.push(c)[i] == t[i]);
        }
        lemma_prefix_len(t.push(c), nonspaces(), k);
        assert(t.push(c).take(k as int) =~= t.take(k as int));
        assert(t.push(c).skip(k as int) =~= t.skip(k as int).push(c));
        assert(t[0] == s[n as int]);
        assert(nonspaces()(t[0]));
        lemma_words_before_space(t.skip(k as int), c);
    }
}

/// What stands in front of the first line feed is the first line, and has its
/// words.
pub proof fn law_first_line(line: Seq<char>, rest: Seq<char>)
    requires
        !line.contains('\n'),
        rest.len() == 0 || rest[0] == '\n',
        line.len() + rest.len() > 0,
    ensures
        text_lines(line + rest).len() > 0,
        words(text_lines(line + rest)[0]) == words(line),
        line.len() == 0 || line.last() != '\r' || rest.len() == 0 ==> text_lines(line + rest)[0]
            == line,
        rest.len() > 0 ==> text_lines(line + rest).skip(1) == text_lines(rest.skip(1)),
        rest.len() == 0 ==> text_lines(line + rest).len() == 1,
{
    let text = line + rest;
    let p = other_than('\n');
    assert forall|i: int| 0 <= i < line.len() implies p(#[trigger] text[i]) by {
        assert(text[i] == line[i]);
        assert(line.contains(line[i]));
    }
    if rest.len() > 0 {
        assert(text[line.len() as int] == '\n');
    }
    lemma_prefix_len(text, p, line.len());
    assert(text.take(line.len() as int) =~= line);
    if rest.len() > 0 {
        assert(text.skip(line.len() as int + 1) =~= rest.skip(1));
        assert(text_lines(text).skip(1) =~= text_lines(rest.skip(1)));
        if line.len() > 0 && line.last() == '\r' {
            lemma_words_before_space(line.drop_last(), '\r');
            assert(line.drop_last().push('\r') =~= line);
        }
    } else {
        assert(text =~= line);
    }
}

/// A line ending: a line feed, and a carriage return before it or not.
pub open spec fn ending(carriage_return: bool) -> Seq<char> {
    if carriage_return {
        seq!['\r', '\n']
    } else {
        seq!['\n']
    }
}

/// A line in front of an ending is the first line, and the rest of the text has
/// the other lines.
pub proof fn law_line_and_ending(line: Seq<char>, carriage_return: bool, rest: Seq<char>)
    requires
        !line.contains('\n'),
        carriage_return || line.len() == 0 || line.last() != '\r',
    ensures
        text_lines(line + (ending(carriage_return) + rest)) == seq![line] + text_lines(rest),
{
    let text = line + (ending(carriage_return) + rest);
    let below = seq!['\n'] + rest;
    assert(below.skip(1) =~= rest);
    if carriage_return {
        let longer = line.push('\r');
        assert(!longer.contains('\n')) by {
            assert forall|i: int| 0 <= i < longer.len() implies longer[i] != '\n' by {
                if i < line.len() {
                    assert(line.contains(line[i]));
                }
            }
        }
        law_first_line(longer, below);
        assert(text =~= longer + below);
        assert(text_lines(text)[0] == line) by {
            let p = other_than('\n');
            assert forall|i: int| 0 <= i < longer.len() implies p(#[trigger] text[i]) by {
                assert(text[i] == longer[i]);
                assert(longer.contains(longer[i]));
            }
            lemma_prefix_len(text, p, longer.len());
            assert(text.take(longer.len() as int) =~= longer);
            assert(longer.drop_last() =~= line);
        }
    } else {
        law_first_line(line, below);
        assert(text =~= line + below);
    }
    assert(text_lines(text) =~= seq![line] + text_lines(rest));
}

/// The lines one behind the other, each with its ending.
pub open spec fn with_endings(ls: Seq<Seq<char>>, marks: Seq<bool>) -> Seq<char>
    decreases ls.len(),
{
    if ls.len() == 0 {
        Seq::empty()
    } else {
        ls[0] + (ending(marks[0]) + with_endings(ls.skip(1), marks.skip(1)))
    }
}

/// Whether the lines can be told apart by those endings: none holds a line
/// feed, nor a carriage return right in front of a bare one.
pub open spec fn endable(ls: Seq<Seq<char>>, marks: Seq<bool>) -> bool {
    &&& ls.len() == marks.len()
    &&& forall|i: int|
        0 <= i < ls.len() ==> !(#[trigger] ls[i]).contains('\n') && (marks[i] || ls[i].len() == 0
            || ls[i].last() != '\r')
}

/// Lines that are written with either ending read as those lines, and so does a
/// last one without ending, if there is anything in it.
pub proof fn law_written_lines_come_back(
    ls: Seq<Seq<char>>,
    marks: Seq<bool>,
    last: Seq<char>,
)
    requires
        endable(ls, marks),
        !last.contains('\n'),
    ensures
        text_lines(with_endings(ls, marks) + last) == if last.len() == 0 {
            ls
        } else {
            ls.push(last)
        },
    decreases ls.len(),
{
    let text = with_endings(ls, marks) + last;
    if ls.len() == 0 {
        assert(text =~= last);
        if last.len() > 0 {
            law_first_line(last, Seq::empty());
            assert(last + Seq::empty() =~= last);
            assert(text_lines(last) =~= ls.push(last));
        } else {
            assert(text_lines(text) =~= ls);
        }
    } else {
        let (l, r) = (ls.skip(1), marks.skip(1));
        assert forall|i: int| 0 <= i < l.len() implies !(#[trigger] l[i]).contains('\n') && (r[i]
            || l[i].len() == 0 || l[i].last() != '\r') by {
            assert(l[i] == ls[i + 1] && r[i] == marks[i + 1]);
        }
        law_written_lines_come_back(l, r, last);
        let rest = with_endings(l, r) + last;
        let line = ls[0];
        assert(!line.contains('\n') && (marks[0] || line.len() == 0 || line.last() != '\r'));
        law_line_and_ending(line, marks[0], rest);
        assert(text =~= line + (ending(marks[0]) + rest));
        if last.len() == 0 {
            assert(seq![line] + l =~= ls);
        } else {
            assert(seq![line] + l.push(last) =~= ls.push(last));
        }
    }
}

/// Joining lists one behind the other is joining each, with a separator between
/// them; one part alone stays as it is, and nothing stays nothing.
pub proof fn law_joined_lists_add_up(a: Seq<Seq<char>>, b: Seq<Seq<char>>, sep: char)
    ensures
        a.len() > 0 && b.len() > 0 ==> joined(a + b, sep) == joined(a, sep).push(sep) + joined(
            b,
            sep,
        ),
        a.len() == 1 ==> joined(a, sep) == a[0],
        a.len() == 0 ==> joined(a, sep) == Seq::<char>::empty(),
    decreases b.len(),
{
    if a.len() > 0 && b.len() > 0 {
        assert((a + b).drop_last() =~= a + b.drop_last());
        assert((a + b).last() == b.last());
        if b.len() == 1 {
            assert(a + b.drop_last() =~= a);
        } else {
            law_joined_lists_add_up(a, b.drop_last(), sep);
            assert(joined(a + b, sep) =~= joined(a, sep).push(sep) + joined(b, sep));
        }
    }
}

/// Taking characters off the end takes all that satisfy the condition, and
/// stops in front of the last that does not.
pub proof fn law_suffix_goes(s: Seq<char>, t: Seq<char>, p: spec_fn(char) -> bool)
    requires
        s.len() == 0 || !p(s.last()),
        forall|i: int| 0 <= i < t.len() ==> p(#[trigger] t[i]),
    ensures
        without_suffix(s + t, p) == s,
    decreases t.len(),
{
    if t.len() == 0 {
        assert(s + t =~= s);
    } else {
        let u = t.drop_last();
        assert forall|i: int| 0 <= i < u.len() implies p(#[trigger] u[i]) by {
            assert(u[i] == t[i]);
        }
        law_suffix_goes(s, u, p);
        assert((s + t).drop_last() =~= s + u);
        assert((s + t).last() == t[t.len() - 1]);
    }
}

/// Trimming takes the white space at both ends and nothing else: what is left
/// has none there, and what was taken is nothing but white space.
pub proof fn law_trimming(before: Seq<char>, s: Seq<char>, after: Seq<char>)
    requires
        blank(before),
        blank(after),
        s.len() > 0 ==> !space(s[0]) && !space(s.last()),
    ensures
        trimmed(before + s + after) == s,
{
    crate::text_laws::law_padding_is_trimmed(before, s, after);
    crate::text_laws::lemma_trimmed(s, 0, s.len() as int);
    assert(s.subrange(0, s.len() as int) =~= s);
}

/// What a list of slices holds is what each of them holds.
pub proof fn law_contents(v: Seq<&[char]>)
    ensures
        contents(v).len() == v.len(),
        forall|i: int| 0 <= i < v.len() ==> #[trigger] contents(v)[i] == v[i]@,
{
}

/// What a list of strings holds is what each of them holds.
pub proof fn law_string_views(v: Seq<String>)
    ensures
        string_views(v).len() == v.len(),
        forall|i: int| 0 <= i < v.len() ==> #[trigger] string_views(v)[i] == v[i]@,
{
}

} // verus!
