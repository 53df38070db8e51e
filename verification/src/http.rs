//! Answering web requests.
use crate::decimal::{decimal, push_decimal};
use crate::double::Double;
use crate::history::FanState;
use crate::page::HTML_PAGE;
use crate::text::{
    chars_of, contents, joined, lines, push_joined, spells, split_whitespace, string_views,
    text_lines, words,
};
use crate::utf8::{from_utf8_lossy, lossy_text};
use std::collections::VecDeque;
use vstd::prelude::*;
use vstd::utf8::{decode_utf8, encode_utf8, valid_utf8};

verus! {

/// The path that a request asks for: the second word of its first line, or `/`
/// where there is none.
pub open spec fn path_of(request: Seq<char>) -> Seq<char> {
    let ls = text_lines(request);
    let ws = words(ls[0]);
    if ls.len() == 0 || ws.len() < 2 {
        "/"@
    } else {
        ws[1]
    }
}

/// What a request is answered with.
#[derive(Clone, Copy, Debug, PartialEq, Eq, Structural)]
pub enum Route {
    /// The figures.
    Api,
    /// The page that draws them.
    Page,
}

/// What a path is answered with.
pub open spec fn route_of(path: Seq<char>) -> Route {
    if path == "/api"@ {
        Route::Api
    } else {
        Route::Page
    }
}

/// What a request is answered with, from its text.
pub fn route_text(request: &str) -> (r: Route)
    ensures
        r == route_of(path_of(request@)),
        r is Api <==> path_of(request@) == "/api"@,
{
    let chars = chars_of(request);
    let ls = lines(chars.as_slice());
    assert(contents(ls@).len() == ls@.len());
    proof {
        reveal_strlit("/");
        reveal_strlit("/api");
        assert("/"@.len() != "/api"@.len());
    }
    if ls.len() == 0 {
        return Route::Page;
    }
    assert(contents(ls@)[0] == ls@[0]@);
    let ws = split_whitespace(ls[0]);
    assert(contents(ws@).len() == ws@.len());
    if ws.len() < 2 {
        return Route::Page;
    }
    assert(contents(ws@)[1] == ws@[1]@);
    if spells(ws[1], "/api") {
        Route::Api
    } else {
        Route::Page
    }
}

/// What a request is answered with, from its bytes.
pub fn route(request: &[u8]) -> (r: Route)
    ensures
        r == route_of(path_of(lossy_text(request@))),
        r is Api <==> path_of(lossy_text(request@)) == "/api"@,
        valid_utf8(request@) ==> lossy_text(request@) == decode_utf8(request@),
{
    let text = from_utf8_lossy(request);
    route_text(text.as_str())
}

/// The figures, each sample as it is to be printed, oldest first.
#[derive(Debug)]
pub struct Report {
    pub temps: Vec<String>,
    pub pwm: u8,
    pub interval: u64,
    pub cpu: Vec<String>,
    pub mem: Vec<String>,
    pub disk: Vec<String>,
}

/// The figures as a JSON object.
pub open spec fn api_text(
    temps: Seq<Seq<char>>,
    pwm: nat,
    interval: nat,
    cpu: Seq<Seq<char>>,
    mem: Seq<Seq<char>>,
    disk: Seq<Seq<char>>,
) -> Seq<char> {
    "{\"temps\":["@ + joined(temps, ',') + "],\"pwm\":"@ + decimal(pwm) + ",\"interval\":"@
        + decimal(interval) + ",\"cpu\":["@ + joined(cpu, ',') + "],\"mem\":["@ + joined(mem, ',')
        + "],\"disk\":["@ + joined(disk, ',') + "]}"@
}

/// Whether the texts are prints of the samples, one for each and in their order.
pub open spec fn prints<F: Fn(Double) -> String>(
    texts: Seq<String>,
    samples: Seq<Double>,
    print: F,
) -> bool {
    &&& texts.len() == samples.len()
    &&& forall|i: int|
        0 <= i < samples.len() ==> call_ensures(print, (samples[i],), #[trigger] texts[i])
}

fn print_all<F: Fn(Double) -> String>(samples: &VecDeque<Double>, print: &F) -> (r: Vec<String>)
    requires
        forall|x: Double| call_requires(*print, (x,)),
    ensures
        prints(r@, samples@, *print),
{
    let mut r: Vec<String> = Vec::new();
    let mut i: usize = 0;
    while i < samples.len()
        invariant
            i <= samples@.len(),
            r@.len() == i,
            forall|x: Double| call_requires(*print, (x,)),
            forall|j: int| 0 <= j < i ==> call_ensures(*print, (samples@[j],), #[trigger] r@[j]),
        decreases samples@.len() - i,
    {
        r.push(print(samples[i]));
        i += 1;
    }
    r
}

impl Report {
    /// Whether these are the figures of `state`: each list holds prints of the
    /// samples of its window, and the speed is the one that is shown.
    pub open spec fn shows<F: Fn(Double) -> String>(
        &self,
        state: &FanState,
        interval: u64,
        print: F,
    ) -> bool {
        &&& prints(self.temps@, state.history@, print)
        &&& self.pwm == state.current_pwm
        &&& self.interval == interval
        &&& prints(self.cpu@, state.cpu@, print)
        &&& prints(self.mem@, state.mem@, print)
        &&& prints(self.disk@, state.disk@, print)
    }

    /// The figures of a state, each sample printed by `print`.
    pub fn of_state<F: Fn(Double) -> String>(state: &FanState, interval: u64, print: F) -> (r:
        Report)
        requires
            forall|x: Double| call_requires(print, (x,)),
        ensures
            r.shows(state, interval, print),
            r.pwm == state.current_pwm,
            r.interval == interval,
            r.temps@.len() == state.history@.len(),
            forall|i: int|
                0 <= i < r.temps@.len() ==> call_ensures(
                    print,
                    (state.history@[i],),
                    #[trigger] r.temps@[i],
                ),
            r.cpu@.len() == state.cpu@.len(),
            forall|i: int|
                0 <= i < r.cpu@.len() ==> call_ensures(
                    print,
                    (state.cpu@[i],),
                    #[trigger] r.cpu@[i],
                ),
            r.mem@.len() == state.mem@.len(),
            forall|i: int|
                0 <= i < r.mem@.len() ==> call_ensures(
                    print,
                    (state.mem@[i],),
                    #[trigger] r.mem@[i],
                ),
            r.disk@.len() == state.disk@.len(),
            forall|i: int|
                0 <= i < r.disk@.len() ==> call_ensures(
                    print,
                    (state.disk@[i],),
                    #[trigger] r.disk@[i],
                ),
    {
        Report {
            temps: print_all(&state.history, &print),
            pwm: state.current_pwm,
            interval,
            cpu: print_all(&state.cpu, &print),
            mem: print_all(&state.mem, &print),
            disk: print_all(&state.disk, &print),
        }
    }

    /// The figures as a JSON object.
    pub open spec fn text(&self) -> Seq<char> {
        api_text(
            string_views(self.temps@),
            self.pwm as nat,
            self.interval as nat,
            string_views(self.cpu@),
            string_views(self.mem@),
            string_views(self.disk@),
        )
    }

    /// The figures as a JSON object.
    pub fn to_json(&self) -> (r: String)
        ensures
            r@ == self.text(),
            r@ == api_text(
                string_views(self.temps@),
                self.pwm as nat,
                self.interval as nat,
                string_views(self.cpu@),
                string_views(self.mem@),
                string_views(self.disk@),
            ),
    {
        let mut out = "{\"temps\":[".to_owned();
        push_joined(&mut out, &self.temps, ',');
        out.append("],\"pwm\":");
        push_decimal(&mut out, self.pwm as u64);
        out.append(",\"interval\":");
        push_decimal(&mut out, self.interval);
        out.append(",\"cpu\":[");
        push_joined(&mut out, &self.cpu, ',');
        out.append("],\"mem\":[");
        push_joined(&mut out, &self.mem, ',');
        out.append("],\"disk\":[");
        push_joined(&mut out, &self.disk, ',');
        out.append("]}");
        out
    }
}

/// What precedes a body of `length` bytes.
pub open spec fn head(content_type: Seq<char>, length: nat) -> Seq<char> {
    "HTTP/1.1 200 OK\r\nContent-Type: "@ + content_type + "\r\nContent-Length: "@ + decimal(length)
        + "\r\nConnection: close\r\n\r\n"@
}

/// The whole answer with a body.
pub open spec fn response_text(content_type: Seq<char>, body: Seq<char>) -> Seq<char> {
    head(content_type, encode_utf8(body).len()) + body
}

fn respond(content_type: &str, body: &str) -> (r: String)
    ensures
        r@ == response_text(content_type@, body@),
{
    let mut out = "HTTP/1.1 200 OK\r\nContent-Type: ".to_owned();
    out.append(content_type);
    out.append("\r\nContent-Length: ");
    push_decimal(&mut out, body.as_bytes().len() as u64);
    out.append("\r\nConnection: close\r\n\r\n");
    out.append(body);
    out
}

/// The answer with the figures.
pub fn api_response(report: &Report) -> (r: String)
    ensures
        r@ == response_text("application/json"@, report.text()),
{
    let body = report.to_json();
    respond("application/json", body.as_str())
}

/// The answer with the page.
pub fn page_response() -> (r: String)
    ensures
        r@ == response_text("text/html; charset=utf-8"@, HTML_PAGE@),
{
    respond("text/html; charset=utf-8", HTML_PAGE)
}

/// The whole answer to a request: the figures if it asks for the path `/api`,
/// and the page for any other.
pub fn answer(request: &[u8], report: &Report) -> (r: String)
    ensures
        r@ == if path_of(lossy_text(request@)) == "/api"@ {
            response_text("application/json"@, report.text())
        } else {
            response_text("text/html; charset=utf-8"@, HTML_PAGE@)
        },
        valid_utf8(request@) ==> lossy_text(request@) == decode_utf8(request@),
{
    match route(request) {
        Route::Api => api_response(report),
        Route::Page => page_response(),
    }
}

} // verus!
