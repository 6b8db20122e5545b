use hypr_session::ipc::parse_cmdline;

#[test]
fn cmdline_nul_separated() {
    let args = parse_cmdline(b"/usr/bin/foo\0--flag\0a b\0");
    assert_eq!(args, vec!["/usr/bin/foo", "--flag", "a b"]);
}

#[test]
fn cmdline_rewritten_by_chromium() {
    let args = parse_cmdline(
        b"/opt/microsoft/msedge/msedge --profile-directory=Default --app-id=kldaonaeondlgcjdncdbnamchihmoalb",
    );
    assert_eq!(
        args,
        vec![
            "/opt/microsoft/msedge/msedge",
            "--profile-directory=Default",
            "--app-id=kldaonaeondlgcjdncdbnamchihmoalb",
        ]
    );
}

#[test]
fn cmdline_single_arg_without_spaces() {
    assert_eq!(parse_cmdline(b"/usr/bin/foo\0"), vec!["/usr/bin/foo"]);
}
