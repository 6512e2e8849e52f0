use termstat::codec::encode_entry;
use termstat::codec::parse_line;
use termstat::codec::parse_log_file;
use termstat::codec::CommandEntry;
use termstat::codec::ShellKind;

fn sample_entry() -> CommandEntry {
    CommandEntry {
        timestamp: 1_700_000_000_123,
        user: String::from("ada"),
        session: String::from("123e4567-e89b-12d3-a456-426614174000"),
        shell_type: ShellKind::Zsh,
        cmd: String::from("KEY=s3cr3t cargo build"),
        cwd: String::from("/home/ada/project"),
        exit_code: 0,
        duration_ms: 1500,
    }
}

#[test]
fn encode_produces_the_wire_line() {
    let e = sample_entry();
    let line = encode_entry(&e);
    assert_eq!(
        line,
        "{\"ts\":1700000000123,\"user\":\"ada\",\"session\":\"123e4567-e89b-12d3-a456-426614174000\",\"shell\":\"zsh\",\"cmd\":\"KEY=s3cr3t cargo build\",\"cwd\":\"/home/ada/project\",\"exit\":0,\"dur\":1500}"
    );
}

#[test]
fn parse_reads_back_what_encode_wrote() {
    let e = sample_entry();
    let line = encode_entry(&e);
    let back = parse_line(&line).expect("round trip must decode");
    assert_eq!(back.timestamp, e.timestamp);
    assert_eq!(back.user, e.user);
    assert_eq!(back.session, e.session);
    assert_eq!(back.shell_type, e.shell_type);
    assert_eq!(back.cmd, e.cmd);
    assert_eq!(back.cwd, e.cwd);
    assert_eq!(back.exit_code, e.exit_code);
    assert_eq!(back.duration_ms, e.duration_ms);
}

#[test]
fn parse_handles_escapes_and_negative_exit() {
    let mut e = sample_entry();
    e.cmd = String::from("echo \"a\\b\"\tdone");
    e.exit_code = -17;
    let line = encode_entry(&e);
    let back = parse_line(&line).expect("escaped round trip must decode");
    assert_eq!(back.cmd, e.cmd);
    assert_eq!(back.exit_code, -17);
}

#[test]
fn parse_rejects_malformed_lines() {
    assert!(parse_line("not json at all").is_none());
    assert!(parse_line("{\"ts\":12,\"user\":\"a\"}").is_none());
    // session must be UUID-shaped
    let line = "{\"ts\":1,\"user\":\"a\",\"session\":\"nope\",\"shell\":\"zsh\",\"cmd\":\"ls\",\"cwd\":\"/\",\"exit\":0,\"dur\":2}";
    assert!(parse_line(line).is_none());
    // nineteen digits are out of range
    let line2 = "{\"ts\":9999999999999999999,\"user\":\"a\",\"session\":\"123e4567-e89b-12d3-a456-426614174000\",\"shell\":\"zsh\",\"cmd\":\"ls\",\"cwd\":\"/\",\"exit\":0,\"dur\":2}";
    assert!(parse_line(line2).is_none());
}

#[test]
fn parse_maps_unknown_shells_to_other() {
    let line = "{\"ts\":1,\"user\":\"a\",\"session\":\"123e4567-e89b-12d3-a456-426614174000\",\"shell\":\"fish\",\"cmd\":\"ls\",\"cwd\":\"/\",\"exit\":0,\"dur\":2}";
    let e = parse_line(line).expect("line is well formed");
    assert_eq!(e.shell_type, ShellKind::Other);
    let bash = "{\"ts\":1,\"user\":\"a\",\"session\":\"123e4567-e89b-12d3-a456-426614174000\",\"shell\":\"bash\",\"cmd\":\"ls\",\"cwd\":\"/\",\"exit\":0,\"dur\":2}";
    assert_eq!(parse_line(bash).unwrap().shell_type, ShellKind::Bash);
}

#[test]
fn log_parsing_skips_blanks_and_counts_malformed() {
    let a = encode_entry(&sample_entry());
    let mut b_rec = sample_entry();
    b_rec.cmd = String::from("ls");
    let b = encode_entry(&b_rec);
    let content = format!("{}\n\n  \nthis is no record\n{}\n", a, b);
    let (entries, malformed) = parse_log_file(&content);
    assert_eq!(entries.len(), 2);
    assert_eq!(malformed, 1);
    assert_eq!(entries[0].cmd, "KEY=s3cr3t cargo build");
    assert_eq!(entries[1].cmd, "ls");
}

#[test]
fn empty_log_has_no_records_and_no_failures() {
    let (entries, malformed) = parse_log_file("");
    assert_eq!(entries.len(), 0);
    assert_eq!(malformed, 0);
}
