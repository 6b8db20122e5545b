use hypr_session::ipc::reply::{
    dispatch_outcome, keyword_outcome, option_enabled, probe_accepted, refusal,
};
use hypr_session::ipc::{
    call_outcome, dispatch, dispatch_arg, get_group_on_movetoworkspace, lua_parser, run_hyprctl,
    set_group_on_movetoworkspace, HyprctlError,
};

fn message<T>(result: Result<T, HyprctlError>) -> String {
    match result {
        Err(HyprctlError::Failed(message)) => message,
        Err(HyprctlError::NotUtf8(error)) => panic!("{}", error),
        Ok(_) => panic!("no refusal"),
    }
}

#[test]
fn query_output_is_decoded() {
    let stdout = "[\"größe\"]".as_bytes().to_vec();
    assert_eq!(run_hyprctl(true, stdout, b"ignored").unwrap(), "[\"größe\"]");
}

#[test]
fn query_refusal_carries_stderr() {
    assert_eq!(message(run_hyprctl(false, b"out".to_vec(), b" no socket\n")), "hyprctl failed:  no socket\n");
    assert_eq!(message(run_hyprctl(false, vec![0xff], b"a\xffb")), "hyprctl failed: a\u{fffd}b");
}

#[test]
fn query_output_must_be_utf8() {
    match run_hyprctl(true, vec![b'a', 0xff], b"") {
        Err(HyprctlError::NotUtf8(error)) => assert_eq!(error.into_bytes(), vec![b'a', 0xff]),
        other => panic!("{:?}", other),
    }
}

#[test]
fn dispatch_succeeds() {
    assert!(dispatch_arg(true, b"ok\n", b"").is_ok());
    assert!(dispatch_arg(true, b"", b"some noise").is_ok());
    assert!(dispatch_arg(true, b"an error: inside", b"").is_ok());
    assert!(dispatch_outcome(true, "errors", "").is_ok());
}

#[test]
fn error_marker_fails_a_dispatch() {
    assert_eq!(
        message(dispatch_arg(true, b" \n error: bad thing \n", b" why \n")),
        "Dispatch failed: error: bad thingwhy"
    );
    assert_eq!(message(dispatch_outcome(true, "error:", "")), "Dispatch failed: error:");
}

#[test]
fn exit_status_fails_a_dispatch() {
    assert_eq!(message(dispatch_arg(false, b" out ", b" err\n")), "Dispatch failed: outerr");
    assert_eq!(message(dispatch_arg(false, b"\xfe", b"")), "Dispatch failed: \u{fffd}");
}

#[test]
fn keyword_is_judged_by_its_exit_status() {
    assert!(keyword_outcome(true, b"noise").is_ok());
    assert_eq!(message(keyword_outcome(false, b" bad \n")), "keyword failed:  bad \n");
}

#[test]
fn calls_are_judged_by_kind() {
    let words = dispatch("togglegroup");
    let option = set_group_on_movetoworkspace(true, false);
    assert!(call_outcome(&words, true, b"ok", b"").is_ok());
    assert_eq!(message(call_outcome(&words, true, b"error: x", b"")), "Dispatch failed: error: x");
    assert!(call_outcome(&option, true, b"error: x", b"").is_ok());
    assert_eq!(message(call_outcome(&option, false, b"", b"no")), "keyword failed: no");
}

#[test]
fn probe_tells_the_lua_parser() {
    assert!(lua_parser(Some(b"ok")));
    assert!(lua_parser(Some(b" ok\n")));
    assert!(!lua_parser(Some(b"OK")));
    assert!(!lua_parser(Some(b"Invalid dispatcher")));
    assert!(!lua_parser(Some(b"ok\xff")));
    assert!(!lua_parser(None));
    assert!(probe_accepted("\tok"));
    assert!(!probe_accepted("o k"));
}

#[test]
fn option_is_read_from_json() {
    assert!(get_group_on_movetoworkspace(Some("{\"option\": \"x\", \"int\": 1, \"set\": true}")));
    assert!(get_group_on_movetoworkspace(Some("{\"int\": -5}")));
    assert!(!get_group_on_movetoworkspace(Some("{\"int\": 0}")));
    assert!(!get_group_on_movetoworkspace(Some("{\"int\": \"1\"}")));
    assert!(!get_group_on_movetoworkspace(Some("{\"int\": 1.5}")));
    assert!(!get_group_on_movetoworkspace(Some("{\"int\": 9223372036854775808}")));
    assert!(!get_group_on_movetoworkspace(Some("{\"bool\": 1}")));
    assert!(!get_group_on_movetoworkspace(Some("[1]")));
    assert!(!get_group_on_movetoworkspace(Some("not json")));
    assert!(!get_group_on_movetoworkspace(None));
}

#[test]
fn option_value_zero_is_off() {
    assert!(option_enabled(Some(1)));
    assert!(option_enabled(Some(i64::MIN)));
    assert!(!option_enabled(Some(0)));
    assert!(!option_enabled(None));
}

#[test]
fn refusals_join_their_texts() {
    assert_eq!(message::<()>(Err(refusal("what: ", "detail"))), "what: detail");
}
