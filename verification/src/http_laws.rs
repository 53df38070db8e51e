//! What holds of requests and answers as a whole.
use crate::decimal::{
    all_digits, decimal, digit, law_decimal_reads_back, law_no_leading_zero, lemma_decimal_digits,
    lemma_decimal_holds_digits, reading, IntError,
};
use crate::double::Double;
use crate::history::FanState;
use crate::http::{api_text, head, path_of, prints, response_text, route_of, Report, Route};
use crate::layout_laws::{
    apart, endable, ending, laid_out, law_first_line, law_line_and_ending,
    law_words_set_apart_come_back, with_endings,
};
use crate::text::{
    joined, lemma_prefix_len, other_than, prefix_len, space, string_views, text_lines,
    without_return, word,
};
use crate::text_laws::{
    blank, law_joined_parts_come_back, lemma_first_word, lemma_words_after_space,
};
use vstd::prelude::*;
use vstd::utf8::encode_utf8;

verus! {

/// A request that starts with a method, a space and a path asks for that path,
/// whatever follows behind white space.
pub proof fn law_requested_path(method: Seq<char>, path: Seq<char>, tail: Seq<char>)
    requires
        word(method),
        word(path),
        tail.len() == 0 || space(tail[0]),
    ensures
        path_of(method.push(' ') + path + tail) == path,
{
    let start = method.push(' ') + path;
    let request = start + tail;
    let p = other_than('\n');
    let k = prefix_len(request, p);
    lemma_prefix_len(request, p, k);
    assert forall|i: int| 0 <= i < start.len() implies #[trigger] request[i] != '\n' by {
        if i < method.len() {
            assert(request[i] == method[i]);
        } else if i > method.len() {
            assert(request[i] == path[i - method.len() - 1]);
        }
    }
    if k < start.len() {
        assert(p(request[k as int]));
    }
    let line = text_lines(request)[0];
    assert(request.take(k as int) =~= start + tail.take(k - start.len()));
    assert(k == request.len() ==> request.take(k as int) =~= request);
    assert(line == request.take(k as int) || line == without_return(request.take(k as int)));
    let cut = request.take(k as int);
    assert(exists|n: int| 0 <= n <= tail.len() && line == start + #[trigger] tail.take(n)) by {
        if line == cut {
            assert(line == start + tail.take(k - start.len()));
        } else {
            assert(cut.last() == '\r');
            if k == start.len() {
                assert(cut.last() == path[path.len() - 1]);
            }
            assert(line =~= start + tail.take(k - start.len() - 1));
        }
    }
    let n = choose|n: int| 0 <= n <= tail.len() && line == start + #[trigger] tail.take(n);
    let rest = tail.take(n);
    assert(rest.len() > 0 ==> rest[0] == tail[0]);
    lemma_first_word(path, rest);
    lemma_words_after_space(' ', path + rest);
    lemma_first_word(method, seq![' '] + (path + rest));
    assert(line =~= method + (seq![' '] + (path + rest)));
}

/// Encoding two texts one behind the other is encoding each.
proof fn lemma_encode_both(a: Seq<char>, b: Seq<char>)
    ensures
        encode_utf8(a + b) == encode_utf8(a) + encode_utf8(b),
    decreases a.len(),
{
    if a.len() == 0 {
        assert(a + b =~= b);
        assert(encode_utf8(a) =~= Seq::empty());
        assert(encode_utf8(a) + encode_utf8(b) =~= encode_utf8(b));
    } else {
        lemma_encode_both(a.drop_first(), b);
        assert((a + b).drop_first() =~= a.drop_first() + b);
        assert((a + b)[0] == a[0]);
        assert(encode_utf8(a + b) =~= encode_utf8(a) + encode_utf8(b));
    }
}

/// The bytes behind the head of an answer are the bytes of the body, and there
/// are as many as the head announces.
pub proof fn law_announced_length(content_type: Seq<char>, body: Seq<char>)
    ensures
        ({
            let n = encode_utf8(body).len();
            let bytes = encode_utf8(response_text(content_type, body));
            let skipped = encode_utf8(head(content_type, n)).len() as int;
            &&& bytes.take(skipped) == encode_utf8(head(content_type, n))
            &&& bytes.skip(skipped) == encode_utf8(body)
            &&& bytes.len() == skipped + n
            &&& reading(decimal(n), n) == Ok::<nat, IntError>(n)
        }),
{
    let n = encode_utf8(body).len();
    let h = head(content_type, n);
    lemma_encode_both(h, body);
    law_decimal_reads_back(n, n);
    assert((encode_utf8(h) + encode_utf8(body)).take(encode_utf8(h).len() as int) =~= encode_utf8(
        h,
    ));
    assert((encode_utf8(h) + encode_utf8(body)).skip(encode_utf8(h).len() as int) =~= encode_utf8(
        body,
    ));
}

/// Whether an empty line ends at `s[i..]`: two line endings follow.
pub open spec fn blank_line_at(s: Seq<char>, i: int) -> bool {
    s[i] == '\r' && s[i + 1] == '\n' && s[i + 2] == '\r' && s[i + 3] == '\n'
}

/// Whether `h` ends with an empty line and holds no other.
pub open spec fn ends_with_first_empty_line(h: Seq<char>) -> bool {
    &&& h.len() >= 4
    &&& blank_line_at(h, h.len() - 4)
    &&& forall|i: int| 0 <= i < h.len() - 4 ==> !#[trigger] blank_line_at(h, i)
}

proof fn lemma_head_ends(content_type: Seq<char>, length: nat)
    requires
        !content_type.contains('\r'),
    ensures
        ends_with_first_empty_line(head(content_type, length)),
{
    let h = head(content_type, length);
    let digits = decimal(length);
    lemma_decimal_digits(length);
    reveal_strlit("HTTP/1.1 200 OK\r\nContent-Type: ");
    reveal_strlit("\r\nContent-Length: ");
    reveal_strlit("\r\nConnection: close\r\n\r\n");
    let a = "HTTP/1.1 200 OK\r\nContent-Type: "@;
    let b = "\r\nContent-Length: "@;
    let c = "\r\nConnection: close\r\n\r\n"@;
    assert(a =~= seq!['H', 'T', 'T', 'P', '/', '1', '.', '1', ' ', '2', '0', '0', ' ', 'O', 'K', '\r', '\n', 'C', 'o', 'n', 't', 'e', 'n', 't', '-', 'T', 'y', 'p', 'e', ':', ' ']);
    assert(b =~= seq!['\r', '\n', 'C', 'o', 'n', 't', 'e', 'n', 't', '-', 'L', 'e', 'n', 'g', 't', 'h', ':', ' ']);
    assert(c =~= seq!['\r', '\n', 'C', 'o', 'n', 'n', 'e', 'c', 't', 'i', 'o', 'n', ':', ' ', 'c', 'l', 'o', 's', 'e', '\r', '\n', '\r', '\n']);
    let at_b = (a.len() + content_type.len()) as int;
    let at_digits = (at_b + b.len()) as int;
    let at_c = (at_digits + digits.len()) as int;
    assert(h.len() == at_c + c.len());
    assert forall|i: int| 0 <= i < c.len() implies h[at_c + i] == #[trigger] c[i] by {}
    assert forall|i: int| 0 <= i < b.len() implies h[at_b + i] == #[trigger] b[i] by {}
    assert(h[at_c + 19] == c[19] && h[at_c + 20] == c[20] && h[at_c + 21] == c[21] && h[at_c + 22]
        == c[22]);
    assert forall|i: int| 0 <= i < h.len() - 4 implies !#[trigger] blank_line_at(h, i) by {
        if i < a.len() {
            assert(h[i] == a[i]);
            if i == 15 {
                assert(h[17] == a[17]);
            }
        } else if i < at_b {
            assert(h[i] == content_type[i - a.len()]);
            assert(content_type.contains(content_type[i - a.len()]));
        } else if i < at_digits {
            assert(h[i] == b[i - at_b]);
            if i == at_b {
                assert(h[at_b + 2] == b[2]);
            }
        } else if i < at_c {
            assert(h[i] == digits[i - at_digits]);
            assert(digit(digits[i - at_digits]));
        } else {
            assert(h[i] == c[i - at_c]);
            if i == at_c {
                assert(h[at_c + 2] == c[2]);
            }
        }
    }
}

/// The head of an answer, with the figures or with the page, ends with the
/// first empty line, so that one who reads up to there finds the body next.
pub proof fn law_head_ends_at_the_first_empty_line(length: nat)
    ensures
        ends_with_first_empty_line(head("application/json"@, length)),
        ends_with_first_empty_line(head("text/html; charset=utf-8"@, length)),
{
    reveal_strlit("application/json");
    reveal_strlit("text/html; charset=utf-8");
    assert("application/json"@ =~= seq!['a', 'p', 'p', 'l', 'i', 'c', 'a', 't', 'i', 'o', 'n', '/', 'j', 's', 'o', 'n']);
    assert("text/html; charset=utf-8"@ =~= seq!['t', 'e', 'x', 't', '/', 'h', 't', 'm', 'l', ';', ' ', 'c', 'h', 'a', 'r', 's', 'e', 't', '=', 'u', 't', 'f', '-', '8']);
    lemma_head_ends("application/json"@, length);
    lemma_head_ends("text/html; charset=utf-8"@, length);
}

/// Whether printed samples can be told apart in a list: none is empty, and
/// none holds a comma or a closing bracket.
pub open spec fn listable(samples: Seq<Seq<char>>) -> bool {
    forall|i: int|
        0 <= i < samples.len() ==> (#[trigger] samples[i]).len() > 0 && !samples[i].contains(',')
            && !samples[i].contains(']')
}

proof fn lemma_joined_plain(samples: Seq<Seq<char>>)
    requires
        listable(samples),
    ensures
        !joined(samples, ',').contains(']'),
        samples.len() > 0 ==> joined(samples, ',').len() > 0,
    decreases samples.len(),
{
    if samples.len() > 0 {
        assert(!samples[samples.len() - 1].contains(']'));
        assert(samples[samples.len() - 1].len() > 0);
    }
    if samples.len() > 1 {
        let front = samples.drop_last();
        assert forall|i: int| 0 <= i < front.len() implies (#[trigger] front[i]).len() > 0
            && !front[i].contains(',') && !front[i].contains(']') by {
            assert(front[i] == samples[i]);
        }
        lemma_joined_plain(front);
        let all = joined(samples, ',');
        let n = joined(front, ',').len();
        assert forall|i: int| 0 <= i < all.len() implies all[i] != ']' by {
            if i < n {
                assert(all[i] == joined(front, ',')[i]);
            } else if i > n {
                assert(all[i] == samples.last()[i - n - 1]);
            }
        }
    }
}

proof fn lemma_joined_same(a: Seq<Seq<char>>, b: Seq<Seq<char>>)
    requires
        listable(a),
        listable(b),
        joined(a, ',') == joined(b, ','),
    ensures
        a == b,
{
    lemma_joined_plain(a);
    lemma_joined_plain(b);
    if a.len() > 0 && b.len() > 0 {
        law_joined_parts_come_back(a, ',');
        law_joined_parts_come_back(b, ',');
    } else {
        assert(a =~= b);
    }
}

/// Texts that agree, each up to the same mark whose first character occurs in
/// neither front, agree in front of it and behind it.
proof fn lemma_same_around(
    x: Seq<char>,
    y: Seq<char>,
    mark: Seq<char>,
    after_x: Seq<char>,
    after_y: Seq<char>,
)
    requires
        mark.len() > 0,
        !x.contains(mark[0]),
        !y.contains(mark[0]),
        x + (mark + after_x) == y + (mark + after_y),
    ensures
        x == y,
        after_x == after_y,
{
    let s = x + (mark + after_x);
    let p = other_than(mark[0]);
    assert forall|i: int| 0 <= i < x.len() implies p(#[trigger] s[i]) by {
        assert(s[i] == x[i]);
        assert(x.contains(x[i]));
    }
    assert forall|i: int| 0 <= i < y.len() implies p(#[trigger] s[i]) by {
        assert(s[i] == y[i]);
        assert(y.contains(y[i]));
    }
    assert(s[x.len() as int] == mark[0]);
    assert(s[y.len() as int] == (mark + after_y)[0]);
    lemma_prefix_len(s, p, x.len());
    lemma_prefix_len(s, p, y.len());
    assert(s.take(x.len() as int) =~= x);
    assert(s.take(x.len() as int) =~= y);
    let n = (x.len() + mark.len()) as int;
    assert(s.skip(n) =~= after_x);
    assert(s.skip(n) =~= after_y);
}

proof fn lemma_decimal_same(a: nat, b: nat)
    requires
        decimal(a) == decimal(b),
    ensures
        a == b,
{
    lemma_decimal_digits(a);
    lemma_decimal_digits(b);
}

proof fn lemma_same_behind(front: Seq<char>, x: Seq<char>, y: Seq<char>)
    requires
        front + x == front + y,
    ensures
        x == y,
{
    let n = front.len() as int;
    assert((front + x).skip(n) =~= x);
    assert((front + y).skip(n) =~= y);
}

proof fn lemma_same_before(x: Seq<char>, y: Seq<char>, end: Seq<char>)
    requires
        x + end == y + end,
    ensures
        x == y,
{
    let n = ((x + end).len() - end.len()) as int;
    assert((x + end).take(n) =~= x);
    assert((y + end).take(n) =~= y);
}

proof fn lemma_regroup(a: Seq<char>, b: Seq<char>, c: Seq<char>)
    ensures
        a + b + c == a + (b + c),
{
    assert(a + b + c =~= a + (b + c));
}

/// The text of the figures, grouped from its end.
proof fn lemma_grouped_from_end(
    temps: Seq<Seq<char>>,
    pwm: nat,
    interval: nat,
    cpu: Seq<Seq<char>>,
    mem: Seq<Seq<char>>,
    disk: Seq<Seq<char>>,
)
    ensures
        api_text(temps, pwm, interval, cpu, mem, disk) == "{\"temps\":["@ + (joined(temps, ',') + (
        "],\"pwm\":"@ + (decimal(pwm) + (",\"interval\":"@ + (decimal(interval) + (
        ",\"cpu\":["@ + (joined(cpu, ',') + ("],\"mem\":["@ + (joined(mem, ',') + (
        "],\"disk\":["@ + (joined(disk, ',') + "]}"@))))))))))),
{
    let p1 = "{\"temps\":["@;
    let p2 = p1 + joined(temps, ',');
    let p3 = p2 + "],\"pwm\":"@;
    let p4 = p3 + decimal(pwm);
    let p5 = p4 + ",\"interval\":"@;
    let p6 = p5 + decimal(interval);
    let p7 = p6 + ",\"cpu\":["@;
    let p8 = p7 + joined(cpu, ',');
    let p9 = p8 + "],\"mem\":["@;
    let p10 = p9 + joined(mem, ',');
    let p11 = p10 + "],\"disk\":["@;
    let q12 = joined(disk, ',') + "]}"@;
    let q11 = "],\"disk\":["@ + q12;
    let q10 = joined(mem, ',') + q11;
    let q9 = "],\"mem\":["@ + q10;
    let q8 = joined(cpu, ',') + q9;
    let q7 = ",\"cpu\":["@ + q8;
    let q6 = decimal(interval) + q7;
    let q5 = ",\"interval\":"@ + q6;
    let q4 = decimal(pwm) + q5;
    let q3 = "],\"pwm\":"@ + q4;
    lemma_regroup(p11, joined(disk, ','), "]}"@);
    lemma_regroup(p10, "],\"disk\":["@, q12);
    lemma_regroup(p9, joined(mem, ','), q11);
    lemma_regroup(p8, "],\"mem\":["@, q10);
    lemma_regroup(p7, joined(cpu, ','), q9);
    lemma_regroup(p6, ",\"cpu\":["@, q8);
    lemma_regroup(p5, decimal(interval), q7);
    lemma_regroup(p4, ",\"interval\":"@, q6);
    lemma_regroup(p3, decimal(pwm), q5);
    lemma_regroup(p2, "],\"pwm\":"@, q4);
    lemma_regroup(p1, joined(temps, ','), q3);
}

/// What a reader of the figures can tell from their text: all of it. Two
/// reports with the same text have the same samples in the same order, the same
/// speed and the same interval.
pub proof fn law_figures_can_be_read_back(
    temps: Seq<Seq<char>>,
    pwm: nat,
    interval: nat,
    cpu: Seq<Seq<char>>,
    mem: Seq<Seq<char>>,
    disk: Seq<Seq<char>>,
    temps2: Seq<Seq<char>>,
    pwm2: nat,
    interval2: nat,
    cpu2: Seq<Seq<char>>,
    mem2: Seq<Seq<char>>,
    disk2: Seq<Seq<char>>,
)
    requires
        listable(temps) && listable(cpu) && listable(mem) && listable(disk),
        listable(temps2) && listable(cpu2) && listable(mem2) && listable(disk2),
        api_text(temps, pwm, interval, cpu, mem, disk) == api_text(
            temps2,
            pwm2,
            interval2,
            cpu2,
            mem2,
            disk2,
        ),
    ensures
        temps == temps2,
        pwm == pwm2,
        interval == interval2,
        cpu == cpu2,
        mem == mem2,
        disk == disk2,
{
    reveal_strlit("],\"pwm\":");
    reveal_strlit(",\"interval\":");
    reveal_strlit(",\"cpu\":[");
    reveal_strlit("],\"mem\":[");
    reveal_strlit("],\"disk\":[");
    reveal_strlit("]}");
    let open = "{\"temps\":["@;
    let (m1, m2, m3) = ("],\"pwm\":"@, ",\"interval\":"@, ",\"cpu\":["@);
    let (m4, m5, m6) = ("],\"mem\":["@, "],\"disk\":["@, "]}"@);
    let a6 = joined(disk, ',') + m6;
    let a5 = joined(mem, ',') + (m5 + a6);
    let a4 = joined(cpu, ',') + (m4 + a5);
    let a3 = decimal(interval) + (m3 + a4);
    let a2 = decimal(pwm) + (m2 + a3);
    let a1 = joined(temps, ',') + (m1 + a2);
    let b6 = joined(disk2, ',') + m6;
    let b5 = joined(mem2, ',') + (m5 + b6);
    let b4 = joined(cpu2, ',') + (m4 + b5);
    let b3 = decimal(interval2) + (m3 + b4);
    let b2 = decimal(pwm2) + (m2 + b3);
    let b1 = joined(temps2, ',') + (m1 + b2);
    lemma_grouped_from_end(temps, pwm, interval, cpu, mem, disk);
    lemma_grouped_from_end(temps2, pwm2, interval2, cpu2, mem2, disk2);
    assert(a1 == b1) by {
        lemma_same_behind(open, a1, b1);
    }
    lemma_joined_plain(temps);
    lemma_joined_plain(cpu);
    lemma_joined_plain(mem);
    lemma_joined_plain(disk);
    lemma_joined_plain(temps2);
    lemma_joined_plain(cpu2);
    lemma_joined_plain(mem2);
    lemma_joined_plain(disk2);
    lemma_decimal_holds_digits(pwm, ',');
    lemma_decimal_holds_digits(pwm2, ',');
    lemma_decimal_holds_digits(interval, ',');
    lemma_decimal_holds_digits(interval2, ',');
    lemma_same_around(joined(temps, ','), joined(temps2, ','), m1, a2, b2);
    lemma_same_around(decimal(pwm), decimal(pwm2), m2, a3, b3);
    lemma_same_around(decimal(interval), decimal(interval2), m3, a4, b4);
    lemma_same_around(joined(cpu, ','), joined(cpu2, ','), m4, a5, b5);
    lemma_same_around(joined(mem, ','), joined(mem2, ','), m5, a6, b6);
    assert(joined(disk, ',') == joined(disk2, ',')) by {
        lemma_same_before(joined(disk, ','), joined(disk2, ','), m6);
    }
    lemma_joined_same(temps, temps2);
    lemma_joined_same(cpu, cpu2);
    lemma_joined_same(mem, mem2);
    lemma_joined_same(disk, disk2);
    lemma_decimal_same(pwm, pwm2);
    lemma_decimal_same(interval, interval2);
}

proof fn lemma_printed<F: Fn(Double) -> String>(
    texts: Seq<String>,
    samples: Seq<Double>,
    print: F,
    text: spec_fn(Double) -> Seq<char>,
)
    requires
        prints(texts, samples, print),
        forall|x: Double, s: String| call_ensures(print, (x,), s) ==> s@ == text(x),
    ensures
        string_views(texts) == samples.map_values(text),
{
    assert forall|i: int| 0 <= i < samples.len() implies string_views(texts)[i] == text(
        samples[i],
    ) by {
        assert(call_ensures(print, (samples[i],), texts[i]));
    }
    assert(string_views(texts) =~= samples.map_values(text));
}

/// The figures of a state, in whatever way `print` prints a sample as `text`:
/// each list has as many elements as its window has samples, element by element
/// the print of the sample, oldest first, and the speed and the interval are
/// the state's and the controller's.
pub proof fn law_figures_are_the_state<F: Fn(Double) -> String>(
    report: &Report,
    state: &FanState,
    interval: u64,
    print: F,
    text: spec_fn(Double) -> Seq<char>,
)
    requires
        report.shows(state, interval, print),
        forall|x: Double, s: String| call_ensures(print, (x,), s) ==> s@ == text(x),
    ensures
        report.text() == api_text(
            state.history@.map_values(text),
            state.current_pwm as nat,
            interval as nat,
            state.cpu@.map_values(text),
            state.mem@.map_values(text),
            state.disk@.map_values(text),
        ),
{
    lemma_printed(report.temps@, state.history@, print, text);
    lemma_printed(report.cpu@, state.cpu@, print, text);
    lemma_printed(report.mem@, state.mem@, print, text);
    lemma_printed(report.disk@, state.disk@, print, text);
}

/// A request asks for the second word of its first line, however the words are
/// set apart and whatever follows, and for `/` where there is no second word.
pub proof fn law_path_of_the_first_line(
    gaps: Seq<Seq<char>>,
    ws: Seq<Seq<char>>,
    tail: Seq<char>,
    rest: Seq<char>,
)
    requires
        apart(gaps, ws),
        blank(tail),
        !(laid_out(gaps, ws) + tail).contains('\n'),
        rest.len() == 0 || rest[0] == '\n',
    ensures
        path_of(laid_out(gaps, ws) + tail + rest) == if ws.len() > 1 {
            ws[1]
        } else {
            seq!['/']
        },
{
    let line = laid_out(gaps, ws) + tail;
    reveal_strlit("/");
    assert("/"@ =~= seq!['/']);
    law_words_set_apart_come_back(gaps, ws, tail);
    if line.len() + rest.len() > 0 {
        law_first_line(line, rest);
    } else {
        assert(line + rest =~= Seq::empty());
        assert(ws.len() == 0) by {
            if ws.len() > 0 {
                assert(word(ws[0]));
            }
        }
    }
}

/// The one path `/api` gets the figures, and any other gets the page.
pub proof fn law_only_api_gets_the_figures(path: Seq<char>)
    ensures
        route_of(path) == Route::Api <==> path == seq!['/', 'a', 'p', 'i'],
        route_of(path) == Route::Api || route_of(path) == Route::Page,
{
    reveal_strlit("/api");
    assert("/api"@ =~= seq!['/', 'a', 'p', 'i']);
}

/// Lines of a head, each with its ending.
pub open spec fn head_lines(ls: Seq<Seq<char>>) -> Seq<char> {
    with_endings(ls, Seq::new(ls.len(), |i: int| true))
}

/// The lines in front of a body: the status, the content type, the length of the
/// body, that the connection is closed, and an empty line.
pub open spec fn answer_lines(content_type: Seq<char>, length: Seq<char>) -> Seq<Seq<char>> {
    seq![
        "HTTP/1.1 200 OK"@,
        "Content-Type: "@ + content_type,
        "Content-Length: "@ + length,
        "Connection: close"@,
        ""@,
    ]
}

/// What a client finds in an answer: the status, the content type, the length,
/// that the connection is closed, an empty line, and behind it the body. The
/// digits of the length read as the number of bytes that follow the empty line.
pub proof fn law_what_a_client_finds(content_type: Seq<char>, body: Seq<char>)
    ensures
        exists|length: Seq<char>|
            {
                &&& response_text(content_type, body) == head_lines(
                    #[trigger] answer_lines(content_type, length),
                ) + body
                &&& encode_utf8(response_text(content_type, body)) == encode_utf8(
                    head_lines(answer_lines(content_type, length)),
                ) + encode_utf8(body)
                &&& all_digits(length)
                &&& length.len() > 1 ==> length[0] != '0'
                &&& reading(length, encode_utf8(body).len()) == Ok::<nat, IntError>(
                    encode_utf8(body).len(),
                )
                &&& !content_type.contains('\n') ==> text_lines(response_text(content_type, body))
                    == answer_lines(content_type, length) + text_lines(body)
            },
{
    let n = encode_utf8(body).len();
    let length = decimal(n);
    lemma_decimal_digits(n);
    law_decimal_reads_back(n, n);
    law_no_leading_zero(n);
    lemma_decimal_holds_digits(n, '\n');
    reveal_strlit("HTTP/1.1 200 OK\r\nContent-Type: ");
    reveal_strlit("\r\nContent-Length: ");
    reveal_strlit("\r\nConnection: close\r\n\r\n");
    reveal_strlit("HTTP/1.1 200 OK");
    reveal_strlit("Content-Type: ");
    reveal_strlit("Content-Length: ");
    reveal_strlit("Connection: close");
    reveal_strlit("");
    let e = seq!['\r', '\n'];
    let (a, b, c, d) = (
        "HTTP/1.1 200 OK"@,
        "Content-Type: "@,
        "Content-Length: "@,
        "Connection: close"@,
    );
    assert("HTTP/1.1 200 OK\r\nContent-Type: "@ =~= a + e + b);
    assert("\r\nContent-Length: "@ =~= e + c);
    assert("\r\nConnection: close\r\n\r\n"@ =~= e + d + e + e);
    let ls = seq![a, b + content_type, c + length, d, ""@];
    let marks = Seq::new(ls.len(), |i: int| true);
    let text = response_text(content_type, body);
    assert(""@ =~= Seq::empty());
    assert(head_lines(ls) == head(content_type, n)) by {
        lemma_five_lines(ls[0], ls[1], ls[2], ls[3], ls[4]);
        assert(ls =~= seq![ls[0], ls[1], ls[2], ls[3], ls[4]]);
        assert(head(content_type, n) =~= a + e + (b + content_type + e) + (c + length + e) + (d
            + e) + (Seq::<char>::empty() + e));
    }
    assert(text =~= head_lines(ls) + body);
    lemma_encode_both(head_lines(ls), body);
    assert(ls =~= answer_lines(content_type, length));
    if !content_type.contains('\n') {
        lemma_no_feed(a, b, c, d, content_type, length);
        assert(endable(ls, marks));
        lemma_lines_then_text(ls, marks, body);
    }
}

proof fn lemma_no_feed(
    a: Seq<char>,
    b: Seq<char>,
    c: Seq<char>,
    d: Seq<char>,
    content_type: Seq<char>,
    length: Seq<char>,
)
    requires
        a == "HTTP/1.1 200 OK"@,
        b == "Content-Type: "@,
        c == "Content-Length: "@,
        d == "Connection: close"@,
        !content_type.contains('\n'),
        !length.contains('\n'),
    ensures
        !a.contains('\n'),
        !(b + content_type).contains('\n'),
        !(c + length).contains('\n'),
        !d.contains('\n'),
{
    reveal_strlit("HTTP/1.1 200 OK");
    reveal_strlit("Content-Type: ");
    reveal_strlit("Content-Length: ");
    reveal_strlit("Connection: close");
    assert(a =~= seq!['H', 'T', 'T', 'P', '/', '1', '.', '1', ' ', '2', '0', '0', ' ', 'O', 'K']);
    assert(b =~= seq!['C', 'o', 'n', 't', 'e', 'n', 't', '-', 'T', 'y', 'p', 'e', ':', ' ']);
    assert(c =~= seq![
        'C', 'o', 'n', 't', 'e', 'n', 't', '-', 'L', 'e', 'n', 'g', 't', 'h', ':', ' ',
    ]);
    assert(d =~= seq![
        'C', 'o', 'n', 'n', 'e', 'c', 't', 'i', 'o', 'n', ':', ' ', 'c', 'l', 'o', 's', 'e',
    ]);
    lemma_contains_both(b, content_type, '\n');
    lemma_contains_both(c, length, '\n');
}

proof fn lemma_contains_both(a: Seq<char>, b: Seq<char>, x: char)
    requires
        !a.contains(x),
        !b.contains(x),
    ensures
        !(a + b).contains(x),
{
    assert forall|i: int| 0 <= i < (a + b).len() implies (a + b)[i] != x by {
        if i < a.len() {
            assert(a.contains(a[i]));
        } else {
            assert(b.contains(b[i - a.len()]));
        }
    }
}

proof fn lemma_five_lines(
    a: Seq<char>,
    b: Seq<char>,
    c: Seq<char>,
    d: Seq<char>,
    f: Seq<char>,
)
    ensures
        head_lines(seq![a, b, c, d, f]) == a + seq!['\r', '\n'] + (b + seq!['\r', '\n']) + (c
            + seq!['\r', '\n']) + (d + seq!['\r', '\n']) + (f + seq!['\r', '\n']),
{
    let e = seq!['\r', '\n'];
    let l0 = seq![a, b, c, d, f];
    let l1 = seq![b, c, d, f];
    let l2 = seq![c, d, f];
    let l3 = seq![d, f];
    let l4 = seq![f];
    let m0 = Seq::new(5, |i: int| true);
    let m1 = Seq::new(4, |i: int| true);
    let m2 = Seq::new(3, |i: int| true);
    let m3 = Seq::new(2, |i: int| true);
    let m4 = Seq::new(1, |i: int| true);
    assert(l0.skip(1) =~= l1 && l1.skip(1) =~= l2 && l2.skip(1) =~= l3 && l3.skip(1) =~= l4);
    assert(m0.skip(1) =~= m1 && m1.skip(1) =~= m2 && m2.skip(1) =~= m3 && m3.skip(1) =~= m4);
    assert(l4.skip(1).len() == 0);
    assert(with_endings(l4.skip(1), m4.skip(1)) =~= Seq::empty());
    assert(with_endings(l4, m4) =~= f + e);
    assert(with_endings(l3, m3) =~= d + e + (f + e));
    assert(with_endings(l2, m2) =~= c + e + (d + e) + (f + e));
    assert(with_endings(l1, m1) =~= b + e + (c + e) + (d + e) + (f + e));
    assert(with_endings(l0, m0) =~= a + e + (b + e) + (c + e) + (d + e) + (f + e));
    assert(Seq::new(l0.len(), |i: int| true) =~= m0);
}

/// Lines in front of a text are its first lines.
proof fn lemma_lines_then_text(ls: Seq<Seq<char>>, marks: Seq<bool>, text: Seq<char>)
    requires
        endable(ls, marks),
    ensures
        text_lines(with_endings(ls, marks) + text) == ls + text_lines(text),
    decreases ls.len(),
{
    let whole = with_endings(ls, marks) + text;
    if ls.len() == 0 {
        assert(whole =~= text);
        assert(ls + text_lines(text) =~= text_lines(text));
    } else {
        let (l, m) = (ls.skip(1), marks.skip(1));
        assert forall|i: int| 0 <= i < l.len() implies !(#[trigger] l[i]).contains('\n') && (m[i]
            || l[i].len() == 0 || l[i].last() != '\r') by {
            assert(l[i] == ls[i + 1] && m[i] == marks[i + 1]);
        }
        lemma_lines_then_text(l, m, text);
        let rest = with_endings(l, m) + text;
        assert(!ls[0].contains('\n') && (marks[0] || ls[0].len() == 0 || ls[0].last() != '\r'));
        law_line_and_ending(ls[0], marks[0], rest);
        assert(whole =~= ls[0] + (ending(marks[0]) + rest));
        assert(seq![ls[0]] + (l + text_lines(text)) =~= ls + text_lines(text));
    }
}

/// A member of a JSON object.
pub open spec fn member(name: Seq<char>, value: Seq<char>) -> Seq<char> {
    seq!['"'] + name + seq!['"', ':'] + value
}

/// A JSON list.
pub open spec fn list(elements: Seq<Seq<char>>) -> Seq<char> {
    joined(elements, ',').push(']').insert(0, '[')
}

/// The figures are a JSON object of six members, the four lists of samples, the
/// speed and the interval, each under its name.
pub proof fn law_members_of_the_figures(
    temps: Seq<Seq<char>>,
    pwm: nat,
    interval: nat,
    cpu: Seq<Seq<char>>,
    mem: Seq<Seq<char>>,
    disk: Seq<Seq<char>>,
)
    ensures
        api_text(temps, pwm, interval, cpu, mem, disk) == joined(
            seq![
                member("temps"@, list(temps)),
                member("pwm"@, decimal(pwm)),
                member("interval"@, decimal(interval)),
                member("cpu"@, list(cpu)),
                member("mem"@, list(mem)),
                member("disk"@, list(disk)),
            ],
            ',',
        ).push('}').insert(0, '{'),
{
    let m1 = member("temps"@, list(temps));
    let m2 = member("pwm"@, decimal(pwm));
    let m3 = member("interval"@, decimal(interval));
    let m4 = member("cpu"@, list(cpu));
    let m5 = member("mem"@, list(mem));
    let m6 = member("disk"@, list(disk));
    lemma_join_six(m1, m2, m3, m4, m5, m6);
    lemma_member_texts(temps, pwm, interval, cpu, mem, disk);
}

/// The text of a report is that object, with the samples of each list as they
/// are to be printed.
pub proof fn law_members_of_a_report(report: Report)
    ensures
        report.text() == joined(
            seq![
                member("temps"@, list(string_views(report.temps@))),
                member("pwm"@, decimal(report.pwm as nat)),
                member("interval"@, decimal(report.interval as nat)),
                member("cpu"@, list(string_views(report.cpu@))),
                member("mem"@, list(string_views(report.mem@))),
                member("disk"@, list(string_views(report.disk@))),
            ],
            ',',
        ).push('}').insert(0, '{'),
{
    law_members_of_the_figures(
        string_views(report.temps@),
        report.pwm as nat,
        report.interval as nat,
        string_views(report.cpu@),
        string_views(report.mem@),
        string_views(report.disk@),
    );
}

proof fn lemma_join_six(
    m1: Seq<char>,
    m2: Seq<char>,
    m3: Seq<char>,
    m4: Seq<char>,
    m5: Seq<char>,
    m6: Seq<char>,
)
    ensures
        joined(seq![m1, m2, m3, m4, m5, m6], ',') == m1.push(',') + m2.push(',') + m3.push(',')
            + m4.push(',') + m5.push(',') + m6,
{
    let s6 = seq![m1, m2, m3, m4, m5, m6];
    let s5 = seq![m1, m2, m3, m4, m5];
    let s4 = seq![m1, m2, m3, m4];
    let s3 = seq![m1, m2, m3];
    let s2 = seq![m1, m2];
    let s1 = seq![m1];
    assert(s6.drop_last() =~= s5 && s5.drop_last() =~= s4 && s4.drop_last() =~= s3 && s3.drop_last()
        =~= s2 && s2.drop_last() =~= s1);
    assert(joined(s1, ',') =~= m1);
    assert(joined(s2, ',') =~= m1.push(',') + m2);
    assert(joined(s3, ',') =~= m1.push(',') + m2.push(',') + m3);
    assert(joined(s4, ',') =~= m1.push(',') + m2.push(',') + m3.push(',') + m4);
    assert(joined(s5, ',') =~= m1.push(',') + m2.push(',') + m3.push(',') + m4.push(',') + m5);
    assert(joined(s6, ',') =~= m1.push(',') + m2.push(',') + m3.push(',') + m4.push(',') + m5.push(
        ',',
    ) + m6);
}

proof fn lemma_member_texts(
    temps: Seq<Seq<char>>,
    pwm: nat,
    interval: nat,
    cpu: Seq<Seq<char>>,
    mem: Seq<Seq<char>>,
    disk: Seq<Seq<char>>,
)
    ensures
        api_text(temps, pwm, interval, cpu, mem, disk) == (member("temps"@, list(temps)).push(',')
            + member("pwm"@, decimal(pwm)).push(',') + member("interval"@, decimal(interval)).push(
            ',',
        ) + member("cpu"@, list(cpu)).push(',') + member("mem"@, list(mem)).push(',') + member(
            "disk"@,
            list(disk),
        )).push('}').insert(0, '{'),
{
    reveal_strlit("{\"temps\":[");
    reveal_strlit("],\"pwm\":");
    reveal_strlit(",\"interval\":");
    reveal_strlit(",\"cpu\":[");
    reveal_strlit("],\"mem\":[");
    reveal_strlit("],\"disk\":[");
    reveal_strlit("]}");
    reveal_strlit("temps");
    reveal_strlit("pwm");
    reveal_strlit("interval");
    reveal_strlit("cpu");
    reveal_strlit("mem");
    reveal_strlit("disk");
    let q = seq!['"'];
    let qc = seq!['"', ':'];
    assert("{\"temps\":["@ =~= seq!['{'] + q + "temps"@ + qc + seq!['[']);
    assert("],\"pwm\":"@ =~= seq![']', ','] + q + "pwm"@ + qc);
    assert(",\"interval\":"@ =~= seq![','] + q + "interval"@ + qc);
    assert(",\"cpu\":["@ =~= seq![','] + q + "cpu"@ + qc + seq!['[']);
    assert("],\"mem\":["@ =~= seq![']', ','] + q + "mem"@ + qc + seq!['[']);
    assert("],\"disk\":["@ =~= seq![']', ','] + q + "disk"@ + qc + seq!['[']);
    assert("]}"@ =~= seq![']', '}']);
    lemma_six_members(
        "temps"@,
        joined(temps, ','),
        "pwm"@,
        decimal(pwm),
        "interval"@,
        decimal(interval),
        "cpu"@,
        joined(cpu, ','),
        "mem"@,
        joined(mem, ','),
        "disk"@,
        joined(disk, ','),
    );
}

proof fn lemma_six_members(
    n1: Seq<char>,
    v1: Seq<char>,
    n2: Seq<char>,
    v2: Seq<char>,
    n3: Seq<char>,
    v3: Seq<char>,
    n4: Seq<char>,
    v4: Seq<char>,
    n5: Seq<char>,
    v5: Seq<char>,
    n6: Seq<char>,
    v6: Seq<char>,
)
    ensures
        ({
            let q = seq!['"'];
            let qc = seq!['"', ':'];
            (seq!['{'] + q + n1 + qc + seq!['[']) + v1 + (seq![']', ','] + q + n2 + qc) + v2 + (
            seq![','] + q + n3 + qc) + v3 + (seq![','] + q + n4 + qc + seq!['[']) + v4 + (seq![
                ']',
                ',',
            ] + q + n5 + qc + seq!['[']) + v5 + (seq![']', ','] + q + n6 + qc + seq!['[']) + v6
                + seq![']', '}']
        }) == (member(n1, v1.push(']').insert(0, '[')).push(',') + member(n2, v2).push(',')
            + member(n3, v3).push(',') + member(n4, v4.push(']').insert(0, '[')).push(',') + member(
            n5,
            v5.push(']').insert(0, '['),
        ).push(',') + member(n6, v6.push(']').insert(0, '['))).push('}').insert(0, '{'),
{
    let q = seq!['"'];
    let qc = seq!['"', ':'];
    let open = Seq::<char>::empty();
    let m1 = member(n1, v1.push(']').insert(0, '['));
    let m2 = member(n2, v2);
    let m3 = member(n3, v3);
    let m4 = member(n4, v4.push(']').insert(0, '['));
    let m5 = member(n5, v5.push(']').insert(0, '['));
    let m6 = member(n6, v6.push(']').insert(0, '['));
    let t1 = m1.push(',');
    let t2 = t1 + m2.push(',');
    let t3 = t2 + m3.push(',');
    let t4 = t3 + m4.push(',');
    let t5 = t4 + m5.push(',');
    let s1 = (seq!['{'] + q + n1 + qc + seq!['[']) + v1;
    let s2 = s1 + (seq![']', ','] + q + n2 + qc) + v2;
    let s3 = s2 + (seq![','] + q + n3 + qc) + v3;
    let s4 = s3 + (seq![','] + q + n4 + qc + seq!['[']) + v4;
    let s5 = s4 + (seq![']', ','] + q + n5 + qc + seq!['[']) + v5;
    let s6 = s5 + (seq![']', ','] + q + n6 + qc + seq!['[']) + v6;
    assert(s1 =~= open + (seq!['{'] + q + n1 + qc + seq!['[']) + v1);
    lemma_open_list(open, seq!['{'], n1, v1);
    lemma_close_list(open + seq!['{'], n1, v1, ',');
    assert((open + seq!['{']) + t1 =~= t1.insert(0, '{'));
    lemma_plain_member(s1, seq![']', ','], n2, v2);
    assert(s2 == t1.insert(0, '{') + m2);
    lemma_plain_member(s2, seq![','], n3, v3);
    assert(t1.insert(0, '{') + m2 + seq![','] =~= t2.insert(0, '{'));
    assert(s3 == t2.insert(0, '{') + m3);
    lemma_open_list(s3, seq![','], n4, v4);
    assert(t2.insert(0, '{') + m3 + seq![','] =~= t3.insert(0, '{'));
    lemma_close_list(t3.insert(0, '{'), n4, v4, ',');
    assert(t3.insert(0, '{') + m4.push(',') =~= t4.insert(0, '{'));
    lemma_open_list(s4, seq![']', ','], n5, v5);
    lemma_close_list(t4.insert(0, '{'), n5, v5, ',');
    assert(t4.insert(0, '{') + m5.push(',') =~= t5.insert(0, '{'));
    lemma_open_list(s5, seq![']', ','], n6, v6);
    lemma_close_list(t5.insert(0, '{'), n6, v6, '}');
    assert(t5.insert(0, '{') + m6.push('}') =~= (t5 + m6).push('}').insert(0, '{'));
}

proof fn lemma_plain_member(front: Seq<char>, between: Seq<char>, name: Seq<char>, value: Seq<char>)
    ensures
        front + (between + seq!['"'] + name + seq!['"', ':']) + value == front + between + member(
            name,
            value,
        ),
{
    assert(front + (between + seq!['"'] + name + seq!['"', ':']) + value =~= front + between
        + member(name, value));
}

proof fn lemma_open_list(front: Seq<char>, between: Seq<char>, name: Seq<char>, value: Seq<char>)
    ensures
        front + (between + seq!['"'] + name + seq!['"', ':'] + seq!['[']) + value == front + between
            + member(name, value.insert(0, '[')),
{
    let inner = between + seq!['"'] + name + seq!['"', ':'];
    lemma_plain_member(front, between, name, value.insert(0, '['));
    assert(front + (inner + seq!['[']) + value =~= front + inner + value.insert(0, '['));
}

proof fn lemma_close_list(front: Seq<char>, name: Seq<char>, value: Seq<char>, last: char)
    ensures
        front + member(name, value.insert(0, '[')) + seq![']', last] == front + member(
            name,
            value.push(']').insert(0, '['),
        ).push(last),
{
    let opened = value.insert(0, '[');
    let whole = value.push(']').insert(0, '[');
    assert(opened.push(']') =~= whole);
    let start = seq!['"'] + name + seq!['"', ':'];
    assert((start + opened) + seq![']', last] =~= (start + opened.push(']')).push(last));
    assert(front + (start + opened) + seq![']', last] =~= front + ((start + opened) + seq![
        ']',
        last,
    ]));
}

} // verus!
