//! What cutting, joining and trimming have to do with one another.
use crate::text::{
    joined, lemma_prefix_len, nonspaces, other_than, pieces, prefix_len, space, spaces, trimmed,
    without_suffix, word, words,
};
use vstd::prelude::*;

verus! {

/// A text without the separator is one piece.
pub proof fn lemma_one_piece(s: Seq<char>, sep: char)
    requires
        !s.contains(sep),
    ensures
        pieces(s, sep) == seq![s],
{
    assert forall|i: int| 0 <= i < s.len() implies other_than(sep)(#[trigger] s[i]) by {
        assert(s.contains(s[i]));
    }
    lemma_prefix_len(s, other_than(sep), s.len());
}

/// Cutting at a separator that stands between two texts cuts each by itself.
pub proof fn law_pieces_of_two(a: Seq<char>, b: Seq<char>, sep: char)
    ensures
        pieces(a.push(sep) + b, sep) == pieces(a, sep) + pieces(b, sep),
    decreases a.len(),
{
    let p = other_than(sep);
    let both = a.push(sep) + b;
    let k = prefix_len(a, p);
    lemma_prefix_len(a, p, k);
    assert forall|i: int| 0 <= i < k implies p(#[trigger] both[i]) by {
        assert(both[i] == a[i]);
    }
    assert(both[k as int] == sep);
    lemma_prefix_len(both, p, k);
    assert(both.take(k as int) =~= a.take(k as int));
    if k == a.len() {
        assert(a.take(k as int) =~= a);
        assert(both.skip(k as int + 1) =~= b);
        assert(pieces(both, sep) =~= pieces(a, sep) + pieces(b, sep));
    } else {
        let rest = a.skip(k as int + 1);
        assert(both.skip(k as int + 1) =~= rest.push(sep) + b);
        law_pieces_of_two(rest, b, sep);
        assert(pieces(both, sep) =~= pieces(a, sep) + pieces(b, sep));
    }
}

/// Cutting joined parts at the separator gives the parts back, where none
/// holds the separator.
pub proof fn law_joined_parts_come_back(parts: Seq<Seq<char>>, sep: char)
    requires
        parts.len() > 0,
        forall|i: int| 0 <= i < parts.len() ==> !(#[trigger] parts[i]).contains(sep),
    ensures
        pieces(joined(parts, sep), sep) == parts,
    decreases parts.len(),
{
    let last = parts.last();
    assert(!parts[parts.len() - 1].contains(sep));
    lemma_one_piece(last, sep);
    if parts.len() == 1 {
        assert(parts =~= seq![last]);
    } else {
        let front = parts.drop_last();
        assert forall|i: int| 0 <= i < front.len() implies !(#[trigger] front[i]).contains(
            sep,
        ) by {
            assert(front[i] == parts[i]);
        }
        law_joined_parts_come_back(front, sep);
        law_pieces_of_two(joined(front, sep), last, sep);
        assert(front + seq![last] =~= parts);
    }
}

/// Whether all of the text is white space.
pub open spec fn blank(s: Seq<char>) -> bool {
    forall|i: int| 0 <= i < s.len() ==> space(#[trigger] s[i])
}

/// What trimming leaves runs from the first character that is no white space
/// to the last.
pub proof fn lemma_trimmed(s: Seq<char>, i: int, j: int)
    requires
        0 <= i <= j <= s.len(),
        blank(s.take(i)),
        blank(s.skip(j)),
        i < j ==> !space(s[i]) && !space(s[j - 1]),
    ensures
        trimmed(s) == s.subrange(i, j),
{
    if i == j {
        assert forall|k: int| 0 <= k < s.len() implies spaces()(#[trigger] s[k]) by {
            if k < i {
                assert(s.take(i)[k] == s[k]);
            } else {
                assert(s.skip(j)[k - j] == s[k]);
            }
        }
        lemma_prefix_len(s, spaces(), s.len());
        assert(s.skip(s.len() as int) =~= s.subrange(i, j));
    } else {
        assert forall|k: int| 0 <= k < i implies spaces()(#[trigger] s[k]) by {
            assert(s.take(i)[k] == s[k]);
        }
        lemma_prefix_len(s, spaces(), i as nat);
        let rest = s.skip(i);
        assert forall|k: int| j - i <= k < rest.len() implies space(#[trigger] rest[k]) by {
            assert(s.skip(j)[k - (j - i)] == rest[k]);
        }
        lemma_without_suffix(rest, spaces(), j - i);
        assert(rest.take(j - i) =~= s.subrange(i, j));
    }
}

proof fn lemma_without_suffix(s: Seq<char>, p: spec_fn(char) -> bool, n: int)
    requires
        0 <= n <= s.len(),
        n > 0 ==> !p(s[n - 1]),
        forall|k: int| n <= k < s.len() ==> p(#[trigger] s[k]),
    ensures
        without_suffix(s, p) == s.take(n),
    decreases s.len(),
{
    if n < s.len() {
        let front = s.drop_last();
        assert forall|k: int| n <= k < front.len() implies p(#[trigger] front[k]) by {
            assert(front[k] == s[k]);
        }
        lemma_without_suffix(front, p, n);
        assert(front.take(n) =~= s.take(n));
    } else {
        assert(s.take(n) =~= s);
    }
}

/// Where trimming cuts: from the first character that is no white space to
/// behind the last.
pub proof fn lemma_trim_bounds(s: Seq<char>) -> (r: (int, int))
    ensures
        0 <= r.0 <= r.1 <= s.len(),
        blank(s.take(r.0)),
        blank(s.skip(r.1)),
        r.0 < r.1 ==> !space(s[r.0]) && !space(s[r.1 - 1]),
    decreases s.len(),
{
    if s.len() == 0 {
        (0, 0)
    } else if space(s.last()) {
        let front = s.drop_last();
        let r = lemma_trim_bounds(front);
        assert(front.take(r.0) =~= s.take(r.0));
        assert forall|k: int| 0 <= k < s.skip(r.1).len() implies space(
            #[trigger] s.skip(r.1)[k],
        ) by {
            if k < front.skip(r.1).len() {
                assert(front.skip(r.1)[k] == s.skip(r.1)[k]);
            }
        }
        r
    } else {
        let n = prefix_len(s, spaces());
        lemma_prefix_len(s, spaces(), n);
        assert forall|k: int| 0 <= k < s.take(n as int).len() implies space(
            #[trigger] s.take(n as int)[k],
        ) by {
            assert(spaces()(s[k]));
        }
        if n == s.len() {
            assert(spaces()(s[s.len() - 1]));
        }
        (n as int, s.len() as int)
    }
}

/// White space put around a text makes no difference once it is trimmed.
pub proof fn law_padding_is_trimmed(before: Seq<char>, s: Seq<char>, after: Seq<char>)
    requires
        blank(before),
        blank(after),
    ensures
        trimmed(before + s + after) == trimmed(s),
{
    let (i, j) = lemma_trim_bounds(s);
    lemma_trimmed(s, i, j);
    let whole = before + s + after;
    let n = before.len() as int;
    assert forall|k: int| 0 <= k < whole.take(n + i).len() implies space(
        #[trigger] whole.take(n + i)[k],
    ) by {
        if k < n {
            assert(whole[k] == before[k]);
        } else {
            assert(whole[k] == s.take(i)[k - n]);
        }
    }
    assert forall|k: int| 0 <= k < whole.skip(n + j).len() implies space(
        #[trigger] whole.skip(n + j)[k],
    ) by {
        if k < s.len() - j {
            assert(whole.skip(n + j)[k] == s.skip(j)[k]);
        } else {
            assert(whole.skip(n + j)[k] == after[k - (s.len() - j)]);
        }
    }
    lemma_trimmed(whole, n + i, n + j);
    assert(whole.subrange(n + i, n + j) =~= s.subrange(i, j));
}

/// A word that the text starts with is its first word.
pub proof fn lemma_first_word(w: Seq<char>, rest: Seq<char>)
    requires
        word(w),
        rest.len() == 0 || space(rest[0]),
    ensures
        words(w + rest) == seq![w] + words(rest),
{
    let s = w + rest;
    assert(s[0] == w[0]);
    lemma_prefix_len(s, spaces(), 0);
    assert(s.skip(0) =~= s);
    assert forall|i: int| 0 <= i < w.len() implies nonspaces()(#[trigger] s[i]) by {
        assert(s[i] == w[i]);
    }
    if rest.len() > 0 {
        assert(s[w.len() as int] == rest[0]);
    }
    lemma_prefix_len(s, nonspaces(), w.len());
    assert(s.take(w.len() as int) =~= w);
    assert(s.skip(w.len() as int) =~= rest);
}

/// White space in front of a text makes no difference to its words.
pub proof fn lemma_words_after_space(c: char, s: Seq<char>)
    requires
        space(c),
    ensures
        words(seq![c] + s) == words(s),
{
    let t = seq![c] + s;
    let n = prefix_len(s, spaces());
    assert(t.skip(1) =~= s);
    assert(spaces()(t[0]));
    assert(prefix_len(t, spaces()) == n + 1);
    if n < s.len() {
        assert(t.skip((n + 1) as int) =~= s.skip(n as int));
    }
}

/// The words one behind the other, each with a space in front.
pub open spec fn spaced(ws: Seq<Seq<char>>) -> Seq<char>
    decreases ws.len(),
{
    if ws.len() == 0 {
        Seq::empty()
    } else {
        seq![' '] + (ws[0] + spaced(ws.skip(1)))
    }
}

/// Words that are written with spaces between them read as those words.
pub proof fn law_spaced_words_come_back(ws: Seq<Seq<char>>)
    requires
        forall|i: int| 0 <= i < ws.len() ==> word(#[trigger] ws[i]),
    ensures
        words(spaced(ws)) == ws,
    decreases ws.len(),
{
    if ws.len() == 0 {
        assert(words(spaced(ws)) =~= ws);
    } else {
        let rest = ws.skip(1);
        assert forall|i: int| 0 <= i < rest.len() implies word(#[trigger] rest[i]) by {
            assert(rest[i] == ws[i + 1]);
        }
        law_spaced_words_come_back(rest);
        assert(word(ws[0]));
        assert(rest.len() > 0 ==> spaced(rest)[0] == ' ');
        lemma_words_after_space(' ', ws[0] + spaced(rest));
        lemma_first_word(ws[0], spaced(rest));
        assert(seq![ws[0]] + rest =~= ws);
    }
}

/// Words that are written with spaces between them stand in one line.
pub proof fn lemma_spaced_in_one_line(ws: Seq<Seq<char>>)
    requires
        forall|i: int| 0 <= i < ws.len() ==> word(#[trigger] ws[i]),
    ensures
        !spaced(ws).contains('\n'),
        !spaced(ws).contains('\r'),
    decreases ws.len(),
{
    if ws.len() > 0 {
        let rest = ws.skip(1);
        assert forall|i: int| 0 <= i < rest.len() implies word(#[trigger] rest[i]) by {
            assert(rest[i] == ws[i + 1]);
        }
        lemma_spaced_in_one_line(rest);
        let s = spaced(ws);
        let n = ws[0].len() as int;
        assert(word(ws[0]));
        assert forall|i: int| 0 <= i < s.len() implies s[i] != '\n' && s[i] != '\r' by {
            if 1 <= i <= n {
                assert(s[i] == ws[0][i - 1]);
            } else if i > n {
                assert(s[i] == spaced(rest)[i - n - 1]);
                assert(spaced(rest).contains(spaced(rest)[i - n - 1]));
            }
        }
    }
}

} // verus!
