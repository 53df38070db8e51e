use fan::double::Double;
use fan::history::FanState;
use fan::http::{answer, api_response, page_response, route, route_text, Report, Route};
use fan::page::HTML_PAGE;

fn strings(items: &[&str]) -> Vec<String> {
    items.iter().map(|s| s.to_string()).collect()
}

fn report() -> Report {
    Report {
        temps: strings(&["40.0", "41.5"]),
        pwm: 120,
        interval: 5,
        cpu: strings(&["3.1"]),
        mem: strings(&[]),
        disk: strings(&["31.0", "31.0", "32.0"]),
    }
}

const JSON: &str =
    r#"{"temps":[40.0,41.5],"pwm":120,"interval":5,"cpu":[3.1],"mem":[],"disk":[31.0,31.0,32.0]}"#;

#[test]
fn the_figures_are_asked_for_by_path() {
    for request in [
        "GET /api HTTP/1.1\r\nHost: fan\r\n\r\n",
        "POST /api",
        "GET\t/api\n",
        "GET /api\r\n",
        "  GET   /api   HTTP/1.1",
    ] {
        assert_eq!(route_text(request), Route::Api, "{:?}", request);
        assert_eq!(route(request.as_bytes()), Route::Api, "{:?}", request);
    }
}

#[test]
fn any_other_request_gets_the_page() {
    for request in [
        "",
        "GET",
        "GET / HTTP/1.1",
        "GET /api/ HTTP/1.1",
        "GET /API HTTP/1.1",
        "GET /api?x HTTP/1.1",
        "\r\nGET /api HTTP/1.1",
        "GET\n/api",
        "/api",
    ] {
        assert_eq!(route_text(request), Route::Page, "{:?}", request);
        assert_eq!(route(request.as_bytes()), Route::Page, "{:?}", request);
    }
}

#[test]
fn bytes_that_are_no_text_are_tolerated() {
    assert_eq!(route(b"\xff\xfe /api HTTP/1.1"), Route::Api);
    assert_eq!(route(b"GET /api\xff HTTP/1.1"), Route::Page);
    assert_eq!(route(b"GET\xe3\x80\x80/api HTTP/1.1"), Route::Api);
}

#[test]
fn the_figures_are_json() {
    assert_eq!(report().to_json(), JSON);
}

#[test]
fn an_empty_history_is_an_empty_list() {
    let r = Report {
        temps: vec![],
        pwm: 0,
        interval: u64::MAX,
        cpu: vec![],
        mem: vec![],
        disk: vec![],
    };
    assert_eq!(
        r.to_json(),
        r#"{"temps":[],"pwm":0,"interval":18446744073709551615,"cpu":[],"mem":[],"disk":[]}"#
    );
}

#[test]
fn different_figures_have_different_texts() {
    let mut other = report();
    other.mem = strings(&["3.1"]);
    other.cpu = strings(&[]);
    assert_ne!(other.to_json(), report().to_json());
}

#[test]
fn the_api_answer_is_framed() {
    let expected = format!(
        "HTTP/1.1 200 OK\r\nContent-Type: application/json\r\nContent-Length: {}\r\nConnection: close\r\n\r\n{}",
        JSON.len(),
        JSON
    );
    assert_eq!(api_response(&report()), expected);
}

#[test]
fn the_page_answer_counts_bytes() {
    let expected = format!(
        "HTTP/1.1 200 OK\r\nContent-Type: text/html; charset=utf-8\r\nContent-Length: {}\r\nConnection: close\r\n\r\n{}",
        HTML_PAGE.len(),
        HTML_PAGE
    );
    assert!(HTML_PAGE.len() > HTML_PAGE.chars().count());
    assert_eq!(page_response(), expected);
}

#[test]
fn the_body_follows_the_first_empty_line() {
    for (answer, body) in [(api_response(&report()), JSON), (page_response(), HTML_PAGE)] {
        let end = answer.find("\r\n\r\n").unwrap() + 4;
        assert_eq!(&answer[end..], body);
        let announced = format!("Content-Length: {}\r\n", body.len());
        assert!(answer[..end].contains(&announced));
    }
}

#[test]
fn the_page_fetches_the_figures() {
    assert!(HTML_PAGE.starts_with("<!DOCTYPE html>"));
    assert!(HTML_PAGE.ends_with("</html>"));
    assert!(HTML_PAGE.contains("fetch('/api')"));
    for name in ["temps", "cpu", "mem", "disk", "pwm", "interval"] {
        assert!(HTML_PAGE.contains(&format!("d.{}", name)));
    }
}

fn d(x: f64) -> Double {
    Double { bits: x.to_bits() }
}

fn one_decimal(x: Double) -> String {
    format!("{:.1}", f64::from_bits(x.bits))
}

#[test]
fn a_request_gets_its_whole_answer() {
    let r = report();
    assert_eq!(answer(b"GET /api HTTP/1.1\r\n\r\n", &r), api_response(&r));
    for request in ["GET / HTTP/1.1\r\n\r\n", "GET /apix", "GET", "nonsense"] {
        assert_eq!(answer(request.as_bytes(), &r), page_response());
    }
    assert_eq!(answer(b"GET /\xffapi HTTP/1.1", &r), page_response());
}

#[test]
fn a_report_holds_the_printed_state() {
    let mut state = FanState::new(3);
    state.record(d(40.04), None, Some(d(12.0)), Some(d(31.0)), 3);
    state.record(d(41.55), Some(d(3.14)), Some(d(13.97)), None, 3);
    state.current_pwm = 77;
    let r = Report::of_state(&state, 9, one_decimal);
    assert_eq!(r.temps, strings(&["40.0", "41.5"]));
    assert_eq!(r.cpu, strings(&["3.1"]));
    assert_eq!(r.mem, strings(&["12.0", "14.0"]));
    assert_eq!(r.disk, strings(&["31.0"]));
    assert_eq!(
        r.to_json(),
        r#"{"temps":[40.0,41.5],"pwm":77,"interval":9,"cpu":[3.1],"mem":[12.0,14.0],"disk":[31.0]}"#
    );
}

#[test]
fn a_report_of_a_new_state_is_empty() {
    let r = Report::of_state(&FanState::new(5), 2, one_decimal);
    assert_eq!(
        r.to_json(),
        r#"{"temps":[],"pwm":0,"interval":2,"cpu":[],"mem":[],"disk":[]}"#
    );
}
