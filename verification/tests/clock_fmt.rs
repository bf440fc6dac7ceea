use guard::clock::{format_civil, format_unix, log_line};
use guard::source::LogSource;

#[test]
fn epoch_renders_exactly() {
    assert_eq!(format_unix(0), "1970-01-01 00:00:00");
}

#[test]
fn known_timestamp_renders_exactly() {
    assert_eq!(format_unix(1700000000), "2023-11-14 22:13:20");
    assert_eq!(format_unix(951827696), "2000-02-29 12:34:56");
}

#[test]
fn components_render_zero_padded() {
    assert_eq!(format_civil(42, 3, 4, 5, 6, 7), "0042-03-04 05:06:07");
}

#[test]
fn log_line_wraps_timestamp_and_message() {
    assert_eq!(
        log_line(0, "Unbanned IP 1.2.3.4"),
        "[1970-01-01 00:00:00] Unbanned IP 1.2.3.4\n"
    );
}

#[test]
fn source_dispatch() {
    let ssh = LogSource::from_path("/var/log/auth.log");
    let web = LogSource::from_path("/var/log/apache2/access.log");
    assert_eq!(ssh.prefix(), "SSH");
    assert_eq!(web.prefix(), "APACHE");
    assert_eq!(web.path(), "/var/log/apache2/access.log");
    assert!(web.is_bad("/.env"));
    assert!(!web.is_bad("Failed password"));
    assert!(ssh.is_bad("Failed password"));
    assert!(!ssh.is_bad("/.env"));
    assert!(ssh.parse("no daemon here from 1.2.3.4 port 1").is_none());
    assert!(web.parse("1.2.3.4 other stuff").is_some());
}
