//! Cutting text into pieces, trimming them, and joining them.
use vstd::prelude::*;
use vstd::slice::slice_subrange;

verus! {

/// `String::push` puts the character behind the text.
pub assume_specification[ String::push ](s: &mut String, c: char)
    ensures
        final(s)@ == old(s)@.push(c),
;

/// The number of characters at the front of `s` that satisfy `p`, up to the
/// first that does not.
pub open spec fn prefix_len(s: Seq<char>, p: spec_fn(char) -> bool) -> nat
    decreases s.len(),
{
    if s.len() == 0 || !p(s[0]) {
        0
    } else {
        1 + prefix_len(s.skip(1), p)
    }
}

/// `n` is the length of the longest prefix that satisfies `p` just when all
/// before `n` satisfies it and what stands at `n`, if anything, does not.
pub proof fn lemma_prefix_len(s: Seq<char>, p: spec_fn(char) -> bool, n: nat)
    ensures
        n == prefix_len(s, p) <==> {
            &&& n <= s.len()
            &&& forall|i: int| 0 <= i < n ==> p(#[trigger] s[i])
            &&& n < s.len() ==> !p(s[n as int])
        },
    decreases s.len(),
{
    if s.len() == 0 || !p(s[0]) {
    } else {
        let rest = s.skip(1);
        if n > 0 {
            lemma_prefix_len(rest, p, (n - 1) as nat);
            if n - 1 == prefix_len(rest, p) {
                assert forall|i: int| 0 <= i < n implies p(#[trigger] s[i]) by {
                    if i > 0 {
                        assert(rest[i - 1] == s[i]);
                    }
                }
            }
            assert forall|i: int| 0 <= i < n - 1 && n <= s.len() implies rest[i] == s[i + 1] by {}
        }
    }
}

/// Whether `c` has the Unicode property White_Space.
pub open spec fn space(c: char) -> bool {
    ||| '\u{9}' <= c <= '\u{D}'
    ||| c == ' '
    ||| c == '\u{85}'
    ||| c == '\u{A0}'
    ||| c == '\u{1680}'
    ||| '\u{2000}' <= c <= '\u{200A}'
    ||| c == '\u{2028}'
    ||| c == '\u{2029}'
    ||| c == '\u{202F}'
    ||| c == '\u{205F}'
    ||| c == '\u{3000}'
}

/// Whether `c` is white space.
pub fn is_space(c: char) -> (r: bool)
    ensures
        r == space(c),
{
    ('\u{9}' <= c && c <= '\u{D}') || c == ' ' || c == '\u{85}' || c == '\u{A0}' || c == '\u{1680}'
        || ('\u{2000}' <= c && c <= '\u{200A}') || c == '\u{2028}' || c == '\u{2029}'
        || c == '\u{202F}' || c == '\u{205F}' || c == '\u{3000}'
}

/// The characters of a string.
pub fn chars_of(s: &str) -> (v: Vec<char>)
    ensures
        v@ == s@,
{
    let mut v: Vec<char> = Vec::new();
    for c in it: s.chars()
        invariant
            v@ == it.seq().take(it.index()),
            it.seq() == s@,
    {
        v.push(c);
    }
    v
}

/// The string of the given characters.
pub fn string_of(chars: &[char]) -> (s: String)
    ensures
        s@ == chars@,
{
    let mut s = String::new();
    let mut i: usize = 0;
    while i < chars.len()
        invariant
            i <= chars@.len(),
            s@ == chars@.take(i as int),
        decreases chars@.len() - i,
    {
        s.push(chars[i]);
        i += 1;
    }
    s
}

/// Whether the characters spell `word`.
pub fn spells(chars: &[char], word: &str) -> (r: bool)
    ensures
        r == (chars@ == word@),
{
    let w = chars_of(word);
    if chars.len() != w.len() {
        return false;
    }
    let mut i: usize = 0;
    while i < chars.len()
        invariant
            i <= chars@.len(),
            chars@.len() == w@.len(),
            w@ == word@,
            forall|j: int| 0 <= j < i ==> chars@[j] == w@[j],
        decreases chars@.len() - i,
    {
        if chars[i] != w[i] {
            return false;
        }
        i += 1;
    }
    assert(chars@ =~= w@);
    true
}

/// Holds of white space.
pub open spec fn spaces() -> spec_fn(char) -> bool {
    |c: char| space(c)
}

/// Holds of all but white space.
pub open spec fn nonspaces() -> spec_fn(char) -> bool {
    |c: char| !space(c)
}

/// Holds of all characters but `sep`.
pub open spec fn other_than(sep: char) -> spec_fn(char) -> bool {
    |c: char| c != sep
}

fn count_spaces(s: &[char]) -> (n: usize)
    ensures
        n == prefix_len(s@, spaces()),
        n <= s@.len(),
{
    let mut n: usize = 0;
    while n < s.len() && is_space(s[n])
        invariant
            n <= s@.len(),
            forall|i: int| 0 <= i < n ==> space(s@[i]),
        decreases s@.len() - n,
    {
        n += 1;
    }
    proof {
        lemma_prefix_len(s@, spaces(), n as nat);
    }
    n
}

fn count_nonspaces(s: &[char]) -> (n: usize)
    ensures
        n == prefix_len(s@, nonspaces()),
        n <= s@.len(),
{
    let mut n: usize = 0;
    while n < s.len() && !is_space(s[n])
        invariant
            n <= s@.len(),
            forall|i: int| 0 <= i < n ==> !space(s@[i]),
        decreases s@.len() - n,
    {
        n += 1;
    }
    proof {
        lemma_prefix_len(s@, nonspaces(), n as nat);
    }
    n
}

fn count_before(s: &[char], sep: char) -> (n: usize)
    ensures
        n == prefix_len(s@, other_than(sep)),
        n <= s@.len(),
{
    let mut n: usize = 0;
    while n < s.len() && s[n] != sep
        invariant
            n <= s@.len(),
            forall|i: int| 0 <= i < n ==> s@[i] != sep,
        decreases s@.len() - n,
    {
        n += 1;
    }
    proof {
        lemma_prefix_len(s@, other_than(sep), n as nat);
    }
    n
}

/// `s` without the characters at its end that satisfy `p`.
pub open spec fn without_suffix(s: Seq<char>, p: spec_fn(char) -> bool) -> Seq<char>
    decreases s.len(),
{
    if s.len() > 0 && p(s.last()) {
        without_suffix(s.drop_last(), p)
    } else {
        s
    }
}

/// `s` without the white space at its two ends.
pub open spec fn trimmed(s: Seq<char>) -> Seq<char> {
    without_suffix(s.skip(prefix_len(s, spaces()) as int), spaces())
}

/// The text without the white space at its two ends.
pub fn trim<'a>(s: &'a [char]) -> (r: &'a [char])
    ensures
        r@ == trimmed(s@),
{
    let start = count_spaces(s);
    let mut end: usize = s.len();
    let ghost rest = s@.skip(start as int);
    assert(s@.subrange(start as int, end as int) =~= rest);
    while end > start && is_space(s[end - 1])
        invariant
            start <= end <= s@.len(),
            without_suffix(s@.subrange(start as int, end as int), spaces()) == without_suffix(
                rest,
                spaces(),
            ),
        decreases end,
    {
        assert(s@.subrange(start as int, end as int).drop_last() =~= s@.subrange(
            start as int,
            end - 1,
        ));
        end -= 1;
    }
    slice_subrange(s, start, end)
}

/// Holds of `c` alone.
pub open spec fn just(c: char) -> spec_fn(char) -> bool {
    |d: char| d == c
}

/// The text without any `c` at its end.
pub fn trim_end_matches<'a>(s: &'a [char], c: char) -> (r: &'a [char])
    ensures
        r@ == without_suffix(s@, just(c)),
{
    let mut end: usize = s.len();
    assert(s@.subrange(0, end as int) =~= s@);
    while end > 0 && s[end - 1] == c
        invariant
            end <= s@.len(),
            without_suffix(s@.subrange(0, end as int), just(c)) == without_suffix(s@, just(c)),
        decreases end,
    {
        assert(s@.subrange(0, end as int).drop_last() =~= s@.subrange(0, end - 1));
        end -= 1;
    }
    slice_subrange(s, 0, end)
}

/// What each of the slices holds.
pub open spec fn contents(v: Seq<&[char]>) -> Seq<Seq<char>> {
    v.map_values(|s: &[char]| s@)
}

/// The pieces of `s` between the separators, in order; empty ones count.
pub open spec fn pieces(s: Seq<char>, sep: char) -> Seq<Seq<char>>
    decreases s.len(),
{
    let k = prefix_len(s, other_than(sep)) as int;
    if k >= s.len() {
        seq![s]
    } else {
        seq![s.take(k)] + pieces(s.skip(k + 1), sep)
    }
}

/// The pieces of the text between the separators, in order; empty ones count.
pub fn split<'a>(s: &'a [char], sep: char) -> (r: Vec<&'a [char]>)
    ensures
        contents(r@) == pieces(s@, sep),
        r@.len() > 0,
{
    let mut r: Vec<&'a [char]> = Vec::new();
    let mut rest: &'a [char] = s;
    assert(contents(r@) + pieces(rest@, sep) =~= pieces(s@, sep));
    loop
        invariant_except_break
            contents(r@) + pieces(rest@, sep) == pieces(s@, sep),
        ensures
            contents(r@) == pieces(s@, sep),
            r@.len() > 0,
        decreases rest@.len(),
    {
        let ghost before = r@;
        let ghost tail = pieces(rest@, sep);
        let n = count_before(rest, sep);
        if n == rest.len() {
            r.push(rest);
            assert(contents(r@) =~= contents(before) + tail);
            break;
        }
        let piece = slice_subrange(rest, 0, n);
        r.push(piece);
        let next = slice_subrange(rest, n + 1, rest.len());
        proof {
            assert(piece@ =~= rest@.take(n as int));
            assert(next@ =~= rest@.skip(n + 1));
            assert(contents(r@) =~= contents(before) + seq![rest@.take(n as int)]);
            assert(contents(before) + tail =~= contents(r@) + pieces(next@, sep));
        }
        rest = next;
    }
    r
}

/// The stretches of `s` between white space, in order; none is empty.
pub open spec fn words(s: Seq<char>) -> Seq<Seq<char>>
    decreases s.len(),
{
    let n = prefix_len(s, spaces());
    if n >= s.len() {
        Seq::empty()
    } else {
        let t = s.skip(n as int);
        let k = prefix_len(t, nonspaces());
        proof {
            lemma_prefix_len(s, spaces(), n);
            lemma_prefix_len(t, nonspaces(), k);
        }
        seq![t.take(k as int)] + words(t.skip(k as int))
    }
}

/// The stretches of the text between white space, in order.
pub fn split_whitespace<'a>(s: &'a [char]) -> (r: Vec<&'a [char]>)
    ensures
        contents(r@) == words(s@),
{
    let mut r: Vec<&'a [char]> = Vec::new();
    let mut rest: &'a [char] = s;
    assert(contents(r@) + words(rest@) =~= words(s@));
    loop
        invariant
            contents(r@) + words(rest@) == words(s@),
        ensures
            contents(r@) == words(s@),
        decreases rest@.len(),
    {
        let ghost before = r@;
        let ghost tail = words(rest@);
        let n = count_spaces(rest);
        if n == rest.len() {
            assert(contents(r@) =~= contents(before) + tail);
            break;
        }
        let front = slice_subrange(rest, n, rest.len());
        assert(front@ =~= rest@.skip(n as int));
        let k = count_nonspaces(front);
        proof {
            lemma_prefix_len(rest@, spaces(), n as nat);
            assert(front@[0] == rest@[n as int]);
            lemma_prefix_len(front@, nonspaces(), k as nat);
        }
        let word = slice_subrange(front, 0, k);
        r.push(word);
        let next = slice_subrange(front, k, front.len());
        proof {
            assert(word@ =~= front@.take(k as int));
            assert(next@ =~= front@.skip(k as int));
            assert(contents(r@) =~= contents(before) + seq![front@.take(k as int)]);
            assert(contents(before) + tail =~= contents(r@) + words(next@));
        }
        rest = next;
    }
    r
}

/// A line without the carriage return that ends it, if one does.
pub open spec fn without_return(s: Seq<char>) -> Seq<char> {
    if s.len() > 0 && s.last() == '\r' {
        s.drop_last()
    } else {
        s
    }
}

/// The lines of `s`, each without its ending: a line feed, or a carriage
/// return and a line feed. The last line needs no ending.
pub open spec fn text_lines(s: Seq<char>) -> Seq<Seq<char>>
    decreases s.len(),
{
    let k = prefix_len(s, other_than('\n')) as int;
    if s.len() == 0 {
        Seq::empty()
    } else if k >= s.len() {
        seq![s]
    } else {
        seq![without_return(s.take(k))] + text_lines(s.skip(k + 1))
    }
}

/// The lines of the text, each without its ending.
pub fn lines<'a>(s: &'a [char]) -> (r: Vec<&'a [char]>)
    ensures
        contents(r@) == text_lines(s@),
{
    let mut r: Vec<&'a [char]> = Vec::new();
    let mut rest: &'a [char] = s;
    assert(contents(r@) + text_lines(rest@) =~= text_lines(s@));
    while rest.len() > 0
        invariant
            contents(r@) + text_lines(rest@) == text_lines(s@),
        decreases rest@.len(),
    {
        let ghost before = r@;
        let ghost tail = text_lines(rest@);
        let n = count_before(rest, '\n');
        if n == rest.len() {
            r.push(rest);
            let next = slice_subrange(rest, n, n);
            proof {
                assert(text_lines(next@) =~= Seq::empty());
                assert(contents(r@) =~= contents(before) + seq![rest@]);
                assert(contents(before) + tail =~= contents(r@) + text_lines(next@));
            }
            rest = next;
        } else {
            let end: usize = if n > 0 && rest[n - 1] == '\r' {
                n - 1
            } else {
                n
            };
            let line = slice_subrange(rest, 0, end);
            r.push(line);
            let next = slice_subrange(rest, n + 1, rest.len());
            proof {
                assert(line@ =~= without_return(rest@.take(n as int)));
                assert(next@ =~= rest@.skip(n + 1));
                assert(contents(r@) =~= contents(before) + seq![
                    without_return(rest@.take(n as int)),
                ]);
                assert(contents(before) + tail =~= contents(r@) + text_lines(next@));
            }
            rest = next;
        }
    }
    assert(contents(r@) =~= contents(r@) + text_lines(rest@));
    r
}

/// The parts one behind the other, with the separator between them.
pub open spec fn joined(parts: Seq<Seq<char>>, sep: char) -> Seq<char>
    decreases parts.len(),
{
    if parts.len() == 0 {
        Seq::empty()
    } else if parts.len() == 1 {
        parts[0]
    } else {
        joined(parts.drop_last(), sep).push(sep) + parts.last()
    }
}

/// What each of the strings holds.
pub open spec fn string_views(v: Seq<String>) -> Seq<Seq<char>> {
    v.map_values(|s: String| s@)
}

/// Puts the strings behind the text, with the separator between them.
pub fn push_joined(out: &mut String, parts: &Vec<String>, sep: char)
    ensures
        final(out)@ == old(out)@ + joined(string_views(parts@), sep),
{
    let ghost all = string_views(parts@);
    let mut i: usize = 0;
    assert(out@ =~= old(out)@ + joined(all.take(0), sep));
    while i < parts.len()
        invariant
            i <= parts@.len(),
            all == string_views(parts@),
            out@ == old(out)@ + joined(all.take(i as int), sep),
        decreases parts@.len() - i,
    {
        let ghost before = all.take(i as int);
        let ghost now = all.take(i + 1);
        assert(now.drop_last() =~= before);
        assert(now.last() == parts@[i as int]@);
        if i > 0 {
            out.push(sep);
        }
        out.append(parts[i].as_str());
        assert(out@ =~= old(out)@ + joined(now, sep));
        i += 1;
    }
    assert(all.take(i as int) =~= all);
}

/// Whether the text is one word: it is not empty and holds no white space.
pub open spec fn word(s: Seq<char>) -> bool {
    s.len() > 0 && forall|i: int| 0 <= i < s.len() ==> !space(#[trigger] s[i])
}

/// The text without the white space at its two ends.
pub fn trim_text(s: &str) -> (r: String)
    ensures
        r@ == trimmed(s@),
{
    let chars = chars_of(s);
    string_of(trim(chars.as_slice()))
}

} // verus!
