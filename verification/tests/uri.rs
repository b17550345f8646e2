use kineprism::uri::{file_uri_to_path, hex_value, percent_decode, percent_decode_bytes};

#[test]
fn file_uri_decoding_supports_spaces() {
    assert_eq!(file_uri_to_path("file:///tmp/ui%20images").expect("decode file URI"), "/tmp/ui images");
}

#[test]
fn file_uri_rejects_remote_hosts() {
    assert!(file_uri_to_path("file://example.com/tmp").is_err());
}

#[test]
fn file_uri_errors_name_the_uri() {
    assert_eq!(
        file_uri_to_path("https://example.com/tmp"),
        Err("MCP root 'https://example.com/tmp' is not a file URI".to_string())
    );
    assert_eq!(
        file_uri_to_path("file://host/tmp"),
        Err("MCP root 'file://host/tmp' has a remote host".to_string())
    );
    assert_eq!(
        file_uri_to_path("file:///tmp/%zz"),
        Err("invalid percent encoding in 'tmp/%zz'".to_string())
    );
    assert_eq!(file_uri_to_path("file:///"), Ok("/".to_string()));
}

#[test]
fn percent_decoding_handles_digits_of_both_cases() {
    assert_eq!(hex_value(b'0'), Some(0));
    assert_eq!(hex_value(b'f'), Some(15));
    assert_eq!(hex_value(b'C'), Some(12));
    assert_eq!(hex_value(b'g'), None);
    assert_eq!(percent_decode("a%2Fb%2fc"), Ok("a/b/c".to_string()));
    assert_eq!(percent_decode("caf%C3%A9"), Ok("caf\u{e9}".to_string()));
    assert_eq!(percent_decode("%"), Err("invalid percent encoding in '%'".to_string()));
    assert_eq!(percent_decode("%4"), Err("invalid percent encoding in '%4'".to_string()));
    assert_eq!(percent_decode("%FF"), Err("MCP root '%FF' is not valid UTF-8".to_string()));
    assert_eq!(percent_decode_bytes(b"x%41y"), Some(b"xAy".to_vec()));
}
