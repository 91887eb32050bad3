use tcplex::logfmt::{format_log_line, level_char, level_label, LevelFilter, LogLevel};
use tcplex::text::{decimal_string, push_hex_byte, str_eq};

#[test]
fn decimal_rendering() {
    assert_eq!(decimal_string(0), "0");
    assert_eq!(decimal_string(7), "7");
    assert_eq!(decimal_string(10), "10");
    assert_eq!(decimal_string(8192), "8192");
    assert_eq!(decimal_string(u64::MAX), "18446744073709551615");
}

#[test]
fn hex_bytes_are_two_lower_case_digits() {
    let mut s = String::from("x");
    push_hex_byte(&mut s, 0x0a);
    push_hex_byte(&mut s, 0xf0);
    assert_eq!(s, "x0af0");
}

#[test]
fn string_equality() {
    assert!(str_eq("spoke1", "spoke1"));
    assert!(!str_eq("spoke1", "spoke2"));
    assert!(!str_eq("a", "ab"));
    assert!(str_eq("", ""));
    assert!(str_eq("héllo", "héllo"));
    assert!(!str_eq("é", "e"));
}

#[test]
fn level_letters() {
    assert_eq!(level_char(LogLevel::Trace), 'T');
    assert_eq!(level_char(LogLevel::Debug), 'D');
    assert_eq!(level_char(LogLevel::Info), 'I');
    assert_eq!(level_char(LogLevel::Warn), 'W');
    assert_eq!(level_char(LogLevel::Error), 'E');
}

#[test]
fn level_labels_are_coloured() {
    assert_eq!(level_label(LogLevel::Trace), "\x1b[37mT\x1b[39m");
    assert_eq!(level_label(LogLevel::Debug), "\x1b[36mD\x1b[39m");
    assert_eq!(level_label(LogLevel::Info), "\x1b[32mI\x1b[39m");
    assert_eq!(level_label(LogLevel::Warn), "\x1b[33mW\x1b[39m");
    assert_eq!(level_label(LogLevel::Error), "\x1b[31mE\x1b[39m");
}

#[test]
fn info_is_bare_at_default_verbosity() {
    assert_eq!(format_log_line(LogLevel::Info, LevelFilter::Info, "Starting tcplex"), "Starting tcplex\n");
    assert_eq!(
        format_log_line(LogLevel::Info, LevelFilter::Debug, "Starting tcplex"),
        "\x1b[32mI\x1b[39m: Starting tcplex\n"
    );
    assert_eq!(
        format_log_line(LogLevel::Warn, LevelFilter::Info, "careful"),
        "\x1b[33mW\x1b[39m: careful\n"
    );
    assert_eq!(format_log_line(LogLevel::Error, LevelFilter::Trace, ""), "\x1b[31mE\x1b[39m: \n");
}
