use mpass::codec::{decode, encode};
use mpass::domain::Record;

fn credentials(domain: &str, username: &str, password: &str) -> Record {
    Record::Credentials {
        domain: domain.to_string(),
        username: username.to_string(),
        password: password.to_string(),
    }
}

fn command(name: &str, command_line: &str) -> Record {
    Record::Command { name: name.to_string(), command_line: command_line.to_string() }
}

#[test]
fn empty_vault_is_eight_zero_bytes() {
    assert_eq!(encode(&Vec::new()), vec![0u8; 8]);
    assert_eq!(decode(&[0u8; 8]), Some(Vec::new()));
}

#[test]
fn credentials_are_laid_out_tag_then_fields() {
    let bytes = encode(&vec![credentials("ab", "c", "")]);
    let expected: Vec<u8> = vec![
        0, 0, 0, 0, 0, 0, 0, 1, // one record
        0, 0, 0, 0, // credentials
        0, 0, 0, 0, 0, 0, 0, 2, b'a', b'b', // domain
        0, 0, 0, 0, 0, 0, 0, 1, b'c', // username
        0, 0, 0, 0, 0, 0, 0, 0, // password
    ];
    assert_eq!(bytes, expected);
}

#[test]
fn command_is_laid_out_tag_then_fields() {
    let bytes = encode(&vec![command("x", "ls")]);
    let expected: Vec<u8> = vec![
        0, 0, 0, 0, 0, 0, 0, 1, // one record
        0, 0, 0, 1, // command
        0, 0, 0, 0, 0, 0, 0, 1, b'x', // name
        0, 0, 0, 0, 0, 0, 0, 2, b'l', b's', // command line
    ];
    assert_eq!(bytes, expected);
}

#[test]
fn text_length_counts_bytes_not_characters() {
    let bytes = encode(&vec![command("é", "")]);
    let expected: Vec<u8> = vec![
        0, 0, 0, 0, 0, 0, 0, 1, 0, 0, 0, 1, 0, 0, 0, 0, 0, 0, 0, 2, 0xc3, 0xa9, 0, 0, 0, 0, 0, 0,
        0, 0,
    ];
    assert_eq!(bytes, expected);
}

#[test]
fn long_text_length_is_big_endian() {
    let name = "n".repeat(258);
    let bytes = encode(&vec![command(&name, "")]);
    assert_eq!(&bytes[12..20], &[0, 0, 0, 0, 0, 0, 1, 2]);
    assert_eq!(bytes.len(), 8 + 4 + 8 + 258 + 8);
}

#[test]
fn decoding_gives_back_what_was_encoded() {
    let vault = vec![
        credentials("example.com", "alice", "p1"),
        command("deploy", "ssh host deploy.sh"),
        credentials("münchen.de", "jürgen", "pässwörd"),
        command("", ""),
    ];
    assert_eq!(decode(&encode(&vault)), Some(vault));
}

#[test]
fn decoding_keeps_the_order() {
    let forth = vec![command("a", "1"), command("b", "2")];
    let back = vec![command("b", "2"), command("a", "1")];
    assert_eq!(decode(&encode(&forth)), Some(forth));
    assert_ne!(encode(&back), encode(&vec![command("a", "1"), command("b", "2")]));
}

#[test]
fn decoding_refuses_trailing_bytes() {
    let mut bytes = encode(&vec![command("x", "ls")]);
    bytes.push(0);
    assert_eq!(decode(&bytes), None);
}

#[test]
fn decoding_refuses_every_proper_prefix() {
    let bytes = encode(&vec![credentials("ab", "c", "d"), command("x", "ls")]);
    for cut in 0..bytes.len() {
        assert_eq!(decode(&bytes[..cut]), None);
    }
}

#[test]
fn decoding_refuses_an_unknown_tag() {
    let mut bytes = encode(&vec![command("x", "ls")]);
    bytes[11] = 2;
    assert_eq!(decode(&bytes), None);
    bytes[11] = 1;
    bytes[8] = 1;
    assert_eq!(decode(&bytes), None);
}

#[test]
fn decoding_refuses_text_that_is_not_utf8() {
    let mut bytes = encode(&vec![command("x", "ls")]);
    bytes[20] = 0xff;
    assert_eq!(decode(&bytes), None);
}

#[test]
fn decoding_refuses_a_count_that_is_too_large() {
    let mut bytes = encode(&vec![command("x", "ls")]);
    bytes[7] = 2;
    assert_eq!(decode(&bytes), None);
    bytes[7] = 1;
    bytes[0] = 0xff;
    assert_eq!(decode(&bytes), None);
}

#[test]
fn decoding_refuses_a_text_length_beyond_the_end() {
    let mut bytes = encode(&vec![command("x", "ls")]);
    bytes[12] = 0xff;
    assert_eq!(decode(&bytes), None);
}

#[test]
fn decoding_refuses_nothing_at_all() {
    assert_eq!(decode(&[]), None);
}
