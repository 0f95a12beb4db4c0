use kuf::base64::{base64_decode, base64_encode};
use kuf::known_hosts::{
    check_host_key, host_matches, known_hosts_line, parse_known_hosts, verify_host_key,
};

#[test]
fn encode_known_vectors() {
    assert_eq!(base64_encode(b""), "");
    assert_eq!(base64_encode(b"f"), "Zg==");
    assert_eq!(base64_encode(b"fo"), "Zm8=");
    assert_eq!(base64_encode(b"foo"), "Zm9v");
    assert_eq!(base64_encode(b"foob"), "Zm9vYg==");
    assert_eq!(base64_encode(b"fooba"), "Zm9vYmE=");
    assert_eq!(base64_encode(b"foobar"), "Zm9vYmFy");
    assert_eq!(base64_encode(&[0xff, 0xfe, 0x00]), "//4A");
    assert_eq!(base64_encode(&[0xfb]), "+w==");
}

#[test]
fn decode_known_vectors() {
    assert_eq!(base64_decode("Zm9vYmFy").unwrap(), b"foobar".to_vec());
    assert_eq!(base64_decode("Zm9vYg==").unwrap(), b"foob".to_vec());
    assert_eq!(base64_decode("Zm9vYmE=").unwrap(), b"fooba".to_vec());
    assert_eq!(base64_decode("").unwrap(), Vec::<u8>::new());
    assert_eq!(base64_decode("====").unwrap(), Vec::<u8>::new());
    assert_eq!(base64_decode("//4A").unwrap(), vec![0xff, 0xfe, 0x00]);
}

#[test]
fn decode_without_padding_and_partial_groups() {
    // padding is optional; a lone trailing value gives no byte
    assert_eq!(base64_decode("Zm8").unwrap(), b"fo".to_vec());
    assert_eq!(base64_decode("Zg").unwrap(), b"f".to_vec());
    assert_eq!(base64_decode("Z").unwrap(), Vec::<u8>::new());
    assert_eq!(base64_decode("Zm9vY").unwrap(), b"foo".to_vec());
}

#[test]
fn decode_rejects_foreign_characters() {
    assert_eq!(base64_decode("Zm9v!").unwrap_err(), "Invalid base64 char: !");
    assert_eq!(base64_decode("Zm=9v").unwrap_err(), "Invalid base64 char: =");
    assert_eq!(base64_decode("Zm 9v").unwrap_err(), "Invalid base64 char:  ");
    // a non-ASCII character is reported by the first byte of its UTF-8 form
    assert_eq!(base64_decode("é").unwrap_err(), "Invalid base64 char: \u{c3}");
    assert_eq!(base64_decode("ab€").unwrap_err(), "Invalid base64 char: \u{e2}");
}

#[test]
fn decode_inverts_encode() {
    let samples: Vec<Vec<u8>> = vec![
        vec![],
        vec![0],
        vec![1, 2],
        vec![255, 254, 253],
        (0u8..=255).collect(),
        b"ssh-ed25519 key blob".to_vec(),
    ];
    for s in samples {
        assert_eq!(base64_decode(&base64_encode(&s)).unwrap(), s);
    }
}

#[test]
fn host_patterns() {
    assert!(host_matches("example.com", "example.com", 22));
    assert!(!host_matches("example.com", "example.com", 2222));
    assert!(host_matches("[example.com]:2222", "example.com", 2222));
    assert!(!host_matches("[example.com]:2222", "example.com", 22));
    assert!(host_matches("a.org,example.com", "example.com", 22));
    assert!(host_matches("a.org, example.com ", "example.com", 22));
    assert!(host_matches("a.org,[b.org]:+22", "b.org", 22));
    assert!(!host_matches("|1|abc=|def=", "example.com", 22));
    assert!(!host_matches("[example.com]:x", "example.com", 22));
    assert!(!host_matches("[example.com]:70000", "example.com", 4464));
    assert!(!host_matches("", "example.com", 22));
    assert!(host_matches("", "", 22));
}

#[test]
fn parse_entries() {
    // a marker line loses its marker and the field after it, so only a line
    // with two more fields after those yields an entry
    let text = "# comment\n\nexample.com ssh-ed25519 AAAA\n@cert-authority *.org ssh-rsa AAEC\n@revoked old h2 ssh-rsa AAEC\nshort line\n[h]:2200 ssh-rsa !!!!\n  x.net ssh-rsa AQID  \n";
    let entries = parse_known_hosts(text);
    assert_eq!(entries.len(), 3);
    assert_eq!(entries[0].host_pattern, "example.com");
    assert_eq!(entries[0].key_type, "ssh-ed25519");
    assert_eq!(entries[0].key_data, vec![0, 0, 0]);
    assert_eq!(entries[1].host_pattern, "h2");
    assert_eq!(entries[1].key_type, "ssh-rsa");
    assert_eq!(entries[1].key_data, vec![0, 1, 2]);
    assert_eq!(entries[2].host_pattern, "x.net");
    assert_eq!(entries[2].key_data, vec![1, 2, 3]);
}

#[test]
fn parse_handles_crlf_and_missing_final_newline() {
    let entries = parse_known_hosts("a ssh-rsa AQID\r\nb ssh-rsa AQID");
    assert_eq!(entries.len(), 2);
    assert_eq!(entries[1].host_pattern, "b");
}

#[test]
fn verify_outcomes() {
    let text = "example.com ssh-ed25519 AQID\n[example.com]:2222 ssh-rsa BAUG\n";
    assert_eq!(verify_host_key(text, "example.com", 22, "ssh-ed25519", &[1, 2, 3]), Ok(true));
    assert_eq!(verify_host_key(text, "example.com", 2222, "ssh-rsa", &[4, 5, 6]), Ok(true));
    assert_eq!(verify_host_key(text, "other.com", 22, "ssh-rsa", &[1]), Ok(false));
    assert_eq!(verify_host_key("", "example.com", 22, "ssh-rsa", &[1]), Ok(false));
    let err = verify_host_key(text, "example.com", 22, "ssh-rsa", &[1, 2, 3]).unwrap_err();
    assert_eq!(
        err,
        "HOST KEY MISMATCH for example.com:22 \u{2014} possible man-in-the-middle attack! Remove the old entry from ~/.ssh/known_hosts if this is expected."
    );
    let err = verify_host_key(text, "example.com", 2222, "ssh-rsa", &[9]).unwrap_err();
    assert!(err.starts_with("HOST KEY MISMATCH for example.com:2222 "));
}

#[test]
fn any_entry_for_the_host_with_the_key_accepts() {
    let text = "example.com ssh-rsa AQID\nexample.com ssh-ed25519 BAUG\n";
    let entries = parse_known_hosts(text);
    assert_eq!(check_host_key(&entries, "example.com", 22, "ssh-rsa", &[1, 2, 3]), Ok(true));
    assert_eq!(check_host_key(&entries, "example.com", 22, "ssh-ed25519", &[4, 5, 6]), Ok(true));
    assert!(check_host_key(&entries, "example.com", 22, "ssh-ed25519", &[1, 2, 3]).is_err());
    assert_eq!(check_host_key(&entries, "other.com", 22, "ssh-rsa", &[1, 2, 3]), Ok(false));
    assert_eq!(verify_host_key("h a A\nh b A\n", "h", 22, "b", &[]), Ok(true));
    assert!(verify_host_key("h a A\nh b A\n", "h", 22, "c", &[]).is_err());
}

#[test]
fn recorded_line_format() {
    assert_eq!(known_hosts_line("example.com", 22, "ssh-ed25519", b"foo"), "example.com ssh-ed25519 Zm9v\n");
    assert_eq!(known_hosts_line("example.com", 2222, "ssh-rsa", b"fo"), "[example.com]:2222 ssh-rsa Zm8=\n");
    assert_eq!(known_hosts_line("h", 0, "t", &[0]), "[h]:0 t AA==\n");
}

#[test]
fn recorded_key_is_trusted_afterwards() {
    let mut file = String::from("other.org ssh-rsa AQID\n");
    assert_eq!(verify_host_key(&file, "example.com", 2222, "ssh-ed25519", &[7, 8, 9, 10]), Ok(false));
    file.push_str(&known_hosts_line("example.com", 2222, "ssh-ed25519", &[7, 8, 9, 10]));
    assert_eq!(verify_host_key(&file, "example.com", 2222, "ssh-ed25519", &[7, 8, 9, 10]), Ok(true));
    assert!(verify_host_key(&file, "example.com", 2222, "ssh-ed25519", &[7, 8, 9, 11]).is_err());
    assert!(verify_host_key(&file, "example.com", 2222, "ssh-rsa", &[7, 8, 9, 10]).is_err());
    assert_eq!(verify_host_key(&file, "example.com", 22, "ssh-ed25519", &[7, 8, 9, 10]), Ok(false));
}

#[test]
fn recorded_key_with_bracket_in_host() {
    let mut file = String::new();
    file.push_str(&known_hosts_line("fe80::1]x", 2200, "ssh-ed25519", &[1, 2]));
    assert_eq!(file, "[fe80::1]x]:2200 ssh-ed25519 AQI=\n");
    assert_eq!(verify_host_key(&file, "fe80::1]x", 2200, "ssh-ed25519", &[1, 2]), Ok(true));
    assert!(verify_host_key(&file, "fe80::1]x", 2200, "ssh-ed25519", &[1, 3]).is_err());
    assert_eq!(verify_host_key(&file, "fe80::1]x", 22, "ssh-ed25519", &[1, 2]), Ok(false));
}
