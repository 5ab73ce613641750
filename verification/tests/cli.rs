//! The command-line tool's rules.
use std::time::Duration;

use mcget::bedrock::ping::parse_server_id_string;
use mcget::cli::locale::{
    normalize_locale_tag, pre_scan_lang, resolve_locale, timeout_secs, DEFAULT_TIMEOUT_SECS,
};
use mcget::cli::output::{annotate, describe, failure_text, result_text, Line, QueryResult};
use mcget::cli::queries::{asked_on, combine, exit_code, plan, Board, Edition, Verdict};
use mcget::java::{Description, Players, StatusResponse, Version};

fn texts(list: &[&str]) -> Vec<String> {
    list.iter().map(|s| s.to_string()).collect()
}

fn failed(v: Verdict) -> Vec<(Edition, String)> {
    match v {
        Verdict::Failed(list) => list,
        other => panic!("expected a failure, got {other:?}"),
    }
}

#[test]
fn tags_take_the_form_of_the_bundled_ones() {
    assert_eq!(normalize_locale_tag("zh-cn"), "zh-CN");
    assert_eq!(normalize_locale_tag("ZH_cn"), "zh-CN");
    assert_eq!(normalize_locale_tag("EN"), "en");
    assert_eq!(normalize_locale_tag("zh-Hans-CN"), "zh-HANS");
    assert_eq!(normalize_locale_tag(""), "");
    assert_eq!(normalize_locale_tag(&normalize_locale_tag("fr_ca")), "fr-CA");
}

#[test]
fn the_named_locale_comes_first() {
    let bundled = texts(&["en", "zh-CN"]);
    assert_eq!(resolve_locale(Some("ZH_cn"), Some("en-US"), &bundled), "zh-CN");
    assert_eq!(resolve_locale(Some("zh-TW"), None, &bundled), "zh-CN");
    assert_eq!(resolve_locale(Some("fr"), Some("zh_CN"), &bundled), "zh-CN");
    assert_eq!(resolve_locale(Some("fr"), Some("de-DE"), &bundled), "en");
    assert_eq!(resolve_locale(None, Some("en_GB"), &bundled), "en");
    assert_eq!(resolve_locale(None, None, &texts(&["zh-CN"])), "en");
}

#[test]
fn the_language_is_found_among_the_arguments() {
    assert_eq!(pre_scan_lang(&texts(&["-j", "--lang", "zh-CN", "host"])).unwrap(), "zh-CN");
    assert_eq!(pre_scan_lang(&texts(&["--lang=en", "--lang", "fr"])).unwrap(), "en");
    assert_eq!(pre_scan_lang(&texts(&["-l", "en"])).unwrap(), "en");
    assert_eq!(pre_scan_lang(&texts(&["--lang="])).unwrap(), "");
    assert!(pre_scan_lang(&texts(&["host", "--lang"])).is_none());
    assert!(pre_scan_lang(&texts(&["host", "--language", "x"])).is_none());
    assert!(pre_scan_lang(&Vec::new()).is_none());
}

#[test]
fn the_timeout_is_a_number_of_seconds() {
    assert_eq!(timeout_secs(Some("5")), 5);
    assert_eq!(timeout_secs(Some("+12")), 12);
    assert_eq!(timeout_secs(Some("soon")), DEFAULT_TIMEOUT_SECS);
    assert_eq!(timeout_secs(Some("18446744073709551616")), 6);
    assert_eq!(timeout_secs(Some("18446744073709551615")), u64::MAX);
    assert_eq!(timeout_secs(None), 6);
}

#[test]
fn hosts_are_asked_on_both_protocols_unless_told() {
    let hosts = texts(&["a", "b"]);
    let pairs = |java, bedrock| plan(&hosts, java, bedrock);
    assert_eq!(
        pairs(false, false),
        [
            ("a".to_string(), Edition::Java),
            ("a".to_string(), Edition::Bedrock),
            ("b".to_string(), Edition::Java),
            ("b".to_string(), Edition::Bedrock),
        ]
    );
    assert_eq!(
        pairs(true, false),
        [("a".to_string(), Edition::Java), ("b".to_string(), Edition::Java)]
    );
    assert_eq!(
        pairs(false, true),
        [("a".to_string(), Edition::Bedrock), ("b".to_string(), Edition::Bedrock)]
    );
}

#[test]
fn one_success_drops_the_other_failure() {
    let mut board = Board::new(&texts(&["a"]), false, false);
    let v = board.report("a", Edition::Java, Some("no".to_string()));
    assert!(matches!(v, Verdict::Quiet));
    assert!(matches!(board.report("a", Edition::Bedrock, None), Verdict::Show));
    assert_eq!(board.finish(), (Vec::new(), 0));

    let mut board = Board::new(&texts(&["a"]), false, false);
    assert!(matches!(board.report("a", Edition::Java, None), Verdict::Show));
    let v = board.report("a", Edition::Bedrock, Some("no".to_string()));
    assert!(matches!(v, Verdict::Quiet));
    assert_eq!(board.finish(), (Vec::new(), 0));
}

#[test]
fn failures_are_reported_when_all_have_failed() {
    let mut board = Board::new(&texts(&["a", "b"]), false, false);
    let v = board.report("a", Edition::Bedrock, Some("x".to_string()));
    assert!(matches!(v, Verdict::Quiet));
    assert!(matches!(board.report("b", Edition::Java, None), Verdict::Show));
    let v = board.report("a", Edition::Java, Some("y".to_string()));
    assert_eq!(
        failed(v),
        [(Edition::Bedrock, "x".to_string()), (Edition::Java, "y".to_string())]
    );
    assert!(matches!(board.report("b", Edition::Bedrock, None), Verdict::Show));
    assert_eq!(board.finish(), (Vec::new(), 1));
}

#[test]
fn a_single_query_decides_at_once() {
    let mut board = Board::new(&texts(&["a"]), true, false);
    let v = board.report("a", Edition::Java, Some("x".to_string()));
    assert_eq!(failed(v), [(Edition::Java, "x".to_string())]);
    // A host that has left the board is not heard again.
    assert!(matches!(board.report("a", Edition::Java, None), Verdict::Quiet));
    assert!(matches!(board.report("other", Edition::Java, None), Verdict::Quiet));
    assert_eq!(board.finish(), (Vec::new(), 1));
}

#[test]
fn hosts_without_a_result_have_failed() {
    let mut board = Board::new(&texts(&["a", "b", "a", "c"]), false, false);
    assert!(matches!(board.report("c", Edition::Java, None), Verdict::Show));
    assert_eq!(board.finish(), (texts(&["a", "b"]), 1));
}

#[test]
fn two_answers_are_combined() {
    let e = |s: &str| Err::<u8, String>(s.to_string());
    assert_eq!(combine(Ok(1), Ok(2)), Ok(vec![1, 2]));
    assert_eq!(combine(Ok(1), e("x")), Ok(vec![1]));
    assert_eq!(combine(e("x"), Ok(2)), Ok(vec![2]));
    assert_eq!(combine(e("x"), e("y")), Err(("x".to_string(), "y".to_string())));
}

#[test]
fn editions_have_labels() {
    assert_eq!(Edition::Java.label(), "java");
    assert_eq!(Edition::Bedrock.label(), "bedrock");
}

fn status(favicon: Option<&str>, secure: Option<bool>) -> StatusResponse {
    StatusResponse {
        version: Version { name: "1.21".to_string(), protocol: 767 },
        players: Players { max: 20, online: -1, sample: None },
        description: Description::Plain("hi".to_string()),
        favicon: favicon.map(|s| s.to_string()),
        enforces_secure_chat: secure,
        previews_chat: None,
    }
}

#[test]
fn java_results_have_the_lines_that_apply() {
    let head = || {
        vec![
            Line::Version { name: "1.21".to_string(), protocol: 767 },
            Line::Players { online: -1, max: 20 },
            Line::Motd("hi".to_string()),
        ]
    };
    let res = QueryResult::Java(status(None, None), None);
    assert_eq!(res.edition(), Edition::Java);
    assert_eq!(describe(&res), head());
    let lat = Duration::from_millis(5);
    let res = QueryResult::Java(status(Some("abcé"), Some(false)), Some(lat));
    let mut all = head();
    all.push(Line::Favicon { len: 5 });
    all.push(Line::SecureChat(false));
    all.push(Line::Latency(lat));
    assert_eq!(describe(&res), all);
}

#[test]
fn bedrock_results_have_the_lines_that_apply() {
    let lat = Duration::from_millis(9);
    let full = "MCPE;M;685;1.21.80;5;20;1;M2;Survival;7;19132;0;";
    let res = QueryResult::Bedrock(parse_server_id_string(full, lat).unwrap());
    assert_eq!(res.edition(), Edition::Bedrock);
    assert_eq!(
        describe(&res),
        [
            Line::Version { name: "1.21.80".to_string(), protocol: 685 },
            Line::Players { online: 5, max: 20 },
            Line::Edition("MCPE".to_string()),
            Line::Motd("M".to_string()),
            Line::SecondMotd("M2".to_string()),
            Line::Gamemode { name: "Survival".to_string(), numeric: 7 },
            Line::Ports { ipv4: 19132, ipv6: 0 },
            Line::ServerGuid(0),
            Line::Latency(lat),
        ]
    );
    let short = QueryResult::Bedrock(parse_server_id_string("MCPE;M;1;1.0;0;20", lat).unwrap());
    assert_eq!(
        describe(&short),
        [
            Line::Version { name: "1.0".to_string(), protocol: 1 },
            Line::Players { online: 0, max: 20 },
            Line::Edition("MCPE".to_string()),
            Line::Motd("M".to_string()),
            Line::Gamemode { name: "".to_string(), numeric: 0 },
            Line::ServerGuid(0),
            Line::Latency(lat),
        ]
    );
}

#[test]
fn json_results_carry_their_origin() {
    let value: serde_json::Value = serde_json::from_str(r#"{"players":{"max":2}}"#).unwrap();
    let v = annotate(value.clone(), Edition::Java, "h", Some(u64::MAX));
    assert_eq!(
        v.to_string(),
        r#"{"edition":"Java","host":"h","latency_ms":18446744073709551615,"players":{"max":2}}"#
    );
    let v = annotate(value, Edition::Bedrock, "h", None);
    assert_eq!(v.to_string(), r#"{"edition":"Bedrock","host":"h","players":{"max":2}}"#);
    let v = annotate(serde_json::Value::Null, Edition::Java, "h", Some(1));
    assert_eq!(v, serde_json::Value::Null);
}

#[test]
fn json_failures_name_host_edition_and_error() {
    assert_eq!(
        failure_text("h", "java", "no \"route\""),
        r#"{"edition":"java","error":"no \"route\"","host":"h"}"#
    );
}

#[test]
fn the_tool_fails_if_some_host_had_no_success() {
    let mut board = Board::new(&texts(&["a", "b"]), false, false);
    board.report("a", Edition::Java, Some("x".to_string()));
    board.report("b", Edition::Bedrock, None);
    board.report("a", Edition::Bedrock, None);
    board.report("b", Edition::Java, Some("y".to_string()));
    assert_eq!(board.finish().1, 0);
    let mut board = Board::new(&texts(&["a", "b"]), false, false);
    board.report("a", Edition::Java, None);
    board.report("b", Edition::Bedrock, Some("x".to_string()));
    assert_eq!(board.finish(), (texts(&["b"]), 1));
}

#[test]
fn a_host_by_host_run_fails_if_some_host_did() {
    assert_eq!(exit_code(&vec![]), 0);
    assert_eq!(exit_code(&vec![true, true]), 0);
    assert_eq!(exit_code(&vec![true, false, true]), 1);
}

#[test]
fn a_flag_picks_the_protocol() {
    assert_eq!(asked_on(true, false), vec![Edition::Java]);
    assert_eq!(asked_on(false, true), vec![Edition::Bedrock]);
    assert_eq!(asked_on(true, true), vec![Edition::Java]);
    assert_eq!(asked_on(false, false), vec![Edition::Java, Edition::Bedrock]);
}

#[test]
fn json_results_are_written_over_lines() {
    let value: serde_json::Value = serde_json::from_str(r#"{"players":{"max":2}}"#).unwrap();
    assert_eq!(
        result_text(value, Edition::Bedrock, "h", Some(7)),
        "{\n  \"edition\": \"Bedrock\",\n  \"host\": \"h\",\n  \"latency_ms\": 7,\n  \"players\": {\n    \"max\": 2\n  }\n}"
    );
    assert_eq!(result_text(serde_json::Value::Null, Edition::Java, "h", None), "null");
}

#[test]
fn a_run_shows_successes_and_reports_failed_hosts() {
    let mut board = Board::new(&texts(&["a", "b", "c"]), false, false);
    let e = |s: &str| Some(s.to_string());
    assert!(matches!(board.report("a", Edition::Bedrock, e("x")), Verdict::Quiet));
    assert!(matches!(board.report("b", Edition::Java, None), Verdict::Show));
    assert!(matches!(board.report("c", Edition::Java, e("u")), Verdict::Quiet));
    assert_eq!(
        failed(board.report("a", Edition::Java, e("y"))),
        vec![(Edition::Bedrock, "x".to_string()), (Edition::Java, "y".to_string())]
    );
    assert!(matches!(board.report("c", Edition::Bedrock, None), Verdict::Show));
    assert!(matches!(board.report("b", Edition::Bedrock, e("z")), Verdict::Quiet));
    let (silent, code) = board.finish();
    assert!(silent.is_empty());
    assert_eq!(code, 1);
}
