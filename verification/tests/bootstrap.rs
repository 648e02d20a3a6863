use mosh_client::bootstrap::{looks_like_connect_record, parse_port, physical_line_count};
use mosh_client::packet::Ipv4Endpoint;
use mosh_client::{Bootstrap, BootstrapError};

const TEST_KEY: &str = "4NeCCgvZFe2RnPgrcU1PQw";
const SERVER: u32 = 0xc000_020a;

fn parse(output: &[u8]) -> Result<Bootstrap, BootstrapError> {
    Bootstrap::parse(SERVER, output)
}

#[test]
fn parses_one_record_amid_surrounding_output() {
    let output = b"banner\nMOSH CONNECT 60054 4NeCCgvZFe2RnPgrcU1PQw\nversion output\n";

    let bootstrap = parse(output).unwrap();

    assert_eq!(
        bootstrap.server_addr(),
        Ipv4Endpoint {
            address: SERVER,
            port: 60054
        }
    );
}

#[test]
fn accepts_crlf_and_a_record_without_a_final_newline() {
    assert!(parse(b"notice\r\nMOSH CONNECT 1 4NeCCgvZFe2RnPgrcU1PQw\r\n").is_ok());
    assert!(parse(b"MOSH CONNECT 65535 4NeCCgvZFe2RnPgrcU1PQw").is_ok());
}

#[test]
fn ignores_non_utf8_and_controls_outside_the_record() {
    let output = b"\xff\0untrusted banner\nMOSH CONNECT 60054 4NeCCgvZFe2RnPgrcU1PQw\n\x1b[0m";

    assert!(parse(output).is_ok());
}

#[test]
fn rejects_missing_and_ambiguous_records() {
    assert_eq!(
        parse(b"ordinary output").err(),
        Some(BootstrapError::MissingConnectRecord)
    );
    assert_eq!(
        parse(
            b"MOSH CONNECT 60054 4NeCCgvZFe2RnPgrcU1PQw\nMOSH CONNECT 60055 4NeCCgvZFe2RnPgrcU1PQw"
        )
        .err(),
        Some(BootstrapError::AmbiguousConnectRecord)
    );
    assert_eq!(
        parse(b"MOSH CONNECT bad record\nMOSH CONNECT 60054 4NeCCgvZFe2RnPgrcU1PQw").err(),
        Some(BootstrapError::AmbiguousConnectRecord)
    );
}

#[test]
fn rejects_noncanonical_field_whitespace_and_extra_fields() {
    for output in [
        b" MOSH CONNECT 60054 4NeCCgvZFe2RnPgrcU1PQw".as_slice(),
        b"MOSH  CONNECT 60054 4NeCCgvZFe2RnPgrcU1PQw".as_slice(),
        b"MOSH\tCONNECT 60054 4NeCCgvZFe2RnPgrcU1PQw".as_slice(),
        b"MOSH CONNECT\t60054 4NeCCgvZFe2RnPgrcU1PQw".as_slice(),
        b"MOSH CONNECT 60054 4NeCCgvZFe2RnPgrcU1PQw ".as_slice(),
        b"MOSH CONNECT 60054 4NeCCgvZFe2RnPgrcU1PQw extra".as_slice(),
        b"MOSH CONNECT 60054 4NeCCgvZFe2RnPgrcU1PQw\r".as_slice(),
    ] {
        assert_eq!(
            parse(output).err(),
            Some(BootstrapError::MalformedConnectRecord)
        );
    }
}

#[test]
fn rejects_invalid_ports() {
    for port in ["", "0", "65536", "999999", "+1", "-1", "6O054"] {
        let output = format!("MOSH CONNECT {port} {TEST_KEY}");
        let expected = if port.is_empty() {
            BootstrapError::MalformedConnectRecord
        } else {
            BootstrapError::InvalidPort
        };
        assert_eq!(parse(output.as_bytes()).err(), Some(expected));
    }
}

#[test]
fn rejects_invalid_keys() {
    for key in [
        "",
        "short",
        "4NeCCgvZFe2RnPgrcU1PQw==",
        "4NeCCgvZFe2RnPgrcU1PQ_",
        "4NeCCgvZFe2RnPgrcU1PQ!",
        "4NeCCgvZFe2RnPgrcU1PQx",
    ] {
        let output = format!("MOSH CONNECT 60054 {key}");
        let expected = if key.is_empty() {
            BootstrapError::MalformedConnectRecord
        } else {
            BootstrapError::InvalidKey
        };
        assert_eq!(parse(output.as_bytes()).err(), Some(expected));
    }
}

#[test]
fn enforces_byte_and_line_limits_before_parsing() {
    let mut at_byte_limit = vec![b'x'; 4096];
    let record = b"MOSH CONNECT 60054 4NeCCgvZFe2RnPgrcU1PQw";
    at_byte_limit[..record.len()].copy_from_slice(record);
    at_byte_limit[record.len()] = b'\n';
    assert!(parse(&at_byte_limit).is_ok());

    let oversized = vec![b'x'; 4097];
    assert_eq!(
        parse(&oversized).err(),
        Some(BootstrapError::OutputTooLarge)
    );

    let mut at_line_limit = b"line\n".repeat(63);
    at_line_limit.extend_from_slice(b"MOSH CONNECT 60054 4NeCCgvZFe2RnPgrcU1PQw\n");
    assert!(parse(&at_line_limit).is_ok());

    let too_many_lines = b"line\n".repeat(65);
    assert_eq!(
        parse(&too_many_lines).err(),
        Some(BootstrapError::TooManyLines)
    );
}

#[test]
fn debug_and_error_formats_do_not_disclose_keys() {
    let bootstrap = parse(format!("MOSH CONNECT 60054 {TEST_KEY}").as_bytes()).unwrap();
    let debug = bootstrap.debug_text();
    assert!(!debug.contains(TEST_KEY));
    assert!(debug.contains("[REDACTED]"));

    let invalid_key = "this-is-not-a-secret!!";
    let error = parse(format!("MOSH CONNECT 60054 {invalid_key}").as_bytes())
        .err()
        .unwrap();
    let formatted = format!("{error:?} {}", error.message());
    assert!(!formatted.contains(invalid_key));
}

#[test]
fn decodes_the_exact_key_bytes() {
    let bootstrap = Bootstrap::parse(0x7f00_0001, b"MOSH CONNECT 60054 4NeCCgvZFe2RnPgrcU1PQw").unwrap();

    assert_eq!(
        bootstrap.session_key(),
        &[
            0xe0, 0xd7, 0x82, 0x0a, 0x0b, 0xd9, 0x15, 0xed, 0x91, 0x9c, 0xf8, 0x2b, 0x71, 0x4d,
            0x4f, 0x43,
        ]
    );
}

#[test]
fn key_storage_supports_explicit_zeroization() {
    let mut bootstrap =
        Bootstrap::parse(0x7f00_0001, b"MOSH CONNECT 60054 4NeCCgvZFe2RnPgrcU1PQw").unwrap();

    bootstrap.zeroize_session_key();

    assert_eq!(bootstrap.session_key(), &[0; 16]);
}

#[test]
fn line_counting_and_record_recognition() {
    assert_eq!(physical_line_count(b""), 0);
    assert_eq!(physical_line_count(b"a"), 1);
    assert_eq!(physical_line_count(b"a\n"), 1);
    assert_eq!(physical_line_count(b"a\nb"), 2);
    assert!(looks_like_connect_record(b"  MOSH \t CONNECT anything"));
    assert!(!looks_like_connect_record(b"MOSH"));
    assert!(!looks_like_connect_record(b"MOSHCONNECT"));
    assert_eq!(parse_port(b"00080"), Ok(80));
    assert_eq!(parse_port(b"123456"), Err(BootstrapError::InvalidPort));
}

#[test]
fn debug_text_shows_the_endpoint_and_key_length() {
    let bootstrap = Bootstrap::parse(0x7f00_0001, b"MOSH CONNECT 60054 4NeCCgvZFe2RnPgrcU1PQw").unwrap();
    assert_eq!(
        bootstrap.debug_text(),
        "Bootstrap { server_addr: 127.0.0.1:60054, session_key_bytes: 16, session_key: \"[REDACTED]\" }"
    );
    let other = parse(b"MOSH CONNECT 7 4NeCCgvZFe2RnPgrcU1PQw").unwrap();
    assert_eq!(
        other.debug_text(),
        "Bootstrap { server_addr: 192.0.2.10:7, session_key_bytes: 16, session_key: \"[REDACTED]\" }"
    );
}
