use termstat::redact::redact_command;
use termstat::redact::REDACTION_PLACEHOLDER;

#[test]
fn test_redaction_simple_key_export() {
    assert_eq!(
        redact_command("export POSTGRES_PASS=1234567890 git push"),
        "export POSTGRES_PASS=[REDACTED] git push"
    );
}

#[test]
fn test_redaction_key_export() {
    assert_eq!(
        redact_command("export POSTGRES_PASS=1234567890!\u{0e22}\u{0e07}$%&/()="),
        "export POSTGRES_PASS=[REDACTED]"
    );
}

#[test]
fn test_redaction_secret_no_export() {
    assert_eq!(
        redact_command("GITHUB_SECRET=abcxyz npm install"),
        "GITHUB_SECRET=[REDACTED] npm install"
    );
}

#[test]
fn test_redaction_password_quoted() {
    assert_eq!(
        redact_command("DB_PASS=\"strong_password\" && psql"),
        "DB_PASS=[REDACTED] && psql"
    );
}

#[test]
fn test_redaction_flag_short_p() {
    assert_eq!(redact_command("mysql -u root -pmy_db_pass"), "mysql -u root -p [REDACTED]");
}

#[test]
fn test_redaction_flag_long_equals() {
    assert_eq!(
        redact_command("docker login --password=strong_password123 myregistry"),
        "docker login --password [REDACTED] myregistry"
    );
}

#[test]
fn test_redaction_flag_with_space() {
    assert_eq!(
        redact_command("sftp --password mytoken user@host"),
        "sftp --password [REDACTED] user@host"
    );
}

#[test]
fn test_redaction_mixed_simple() {
    assert_eq!(
        redact_command("PASSWORD_VAR=abc psql -p mypassword"),
        "PASSWORD_VAR=[REDACTED] psql -p [REDACTED]"
    );
}

#[test]
fn test_no_redaction_safe_command() {
    assert_eq!(
        redact_command("git status --verbose | grep file.rs"),
        "git status --verbose | grep file.rs"
    );
}

#[test]
fn redaction_covers_both_passes_in_one_line() {
    assert_eq!(
        redact_command("POSTGRES_PASS=abc123 mysql -p secret"),
        "POSTGRES_PASS=[REDACTED] mysql -p [REDACTED]"
    );
}

#[test]
fn redaction_is_idempotent_on_samples() {
    let samples = [
        "POSTGRES_PASS=abc123 mysql -p secret",
        "export POSTGRES_PASS=1234567890 git push",
        "DB_PASS=\"strong_password\" && psql",
        "docker login --password=strong_password123 myregistry",
        "mysql -u root -pmy_db_pass",
        "git status --verbose | grep file.rs",
        "",
        "KEY= -p",
    ];
    for s in samples {
        let once = redact_command(s);
        let twice = redact_command(&once);
        assert_eq!(twice, once);
    }
}

#[test]
fn redaction_placeholder_is_the_named_constant() {
    assert_eq!(REDACTION_PLACEHOLDER, "[REDACTED]");
    assert_eq!(redact_command("KEY=x"), format!("KEY={}", REDACTION_PLACEHOLDER));
}

#[test]
fn redaction_keeps_empty_and_plain_text() {
    assert_eq!(redact_command(""), "");
    assert_eq!(redact_command("ls -la"), "ls -la");
}
