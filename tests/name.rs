use itsdns::name::Domain;
use itsdns::DnsError;

fn text_of(d: &Domain) -> Vec<u8> {
    let mut it = d.iter();
    let mut out = Vec::new();
    while let Some(b) = it.next() {
        out.push(b);
    }
    out
}

#[test]
fn string_equals_its_wire_form() {
    let wire = [1, b'a', 1, b'b', 3, b'c', b'o', b'm', 0];
    let (n, raw) = Domain::decode(&wire, 0).unwrap();
    assert_eq!(n, wire.len());
    let s = Domain::String("a.b.com");
    assert!(s == raw);
    assert!(raw == s);
    assert!(raw == raw);
    assert!(s == s);
    assert_eq!(text_of(&raw), b"a.b.com".to_vec());
}

#[test]
fn equality_is_case_and_boundary_sensitive() {
    let wire = [2, b'a', b'b', 1, b'c', 0];
    let (_, raw) = Domain::decode(&wire, 0).unwrap();
    assert!(raw == Domain::String("ab.c"));
    assert!(raw != Domain::String("AB.c"));
    assert!(raw != Domain::String("ab.c."));
    assert!(raw != Domain::String("ab"));
    assert!(Domain::String("a.bc") != Domain::String("ab.c"));
}

#[test]
fn compressed_name_equals_spelled_out_name() {
    // "example.com" at 0, then "www" followed by a pointer to it at 13.
    let msg = [
        7, b'e', b'x', b'a', b'm', b'p', b'l', b'e', 3, b'c', b'o', b'm', 0, 3, b'w', b'w', b'w',
        0xC0, 0,
    ];
    let (n, compressed) = Domain::decode(&msg, 13).unwrap();
    assert_eq!(n, 6);
    let plain = [
        3, b'w', b'w', b'w', 7, b'e', b'x', b'a', b'm', b'p', b'l', b'e', 3, b'c', b'o', b'm', 0,
    ];
    let (m, spelled) = Domain::decode(&plain, 0).unwrap();
    assert_eq!(m, plain.len());
    assert!(compressed == spelled);
    assert!(compressed == Domain::String("www.example.com"));
    assert_eq!(text_of(&compressed), b"www.example.com".to_vec());
    let mut out = [0u8; 32];
    let k = compressed.encode(&mut out, 0).unwrap();
    assert_eq!(&out[..k], &plain[..]);
}

#[test]
fn pointer_cycles_and_forward_pointers_are_rejected() {
    let self_loop = [0xC0, 0];
    assert_eq!(Domain::decode(&self_loop, 0).unwrap_err(), DnsError::Decode);
    let back_into_itself = [1, b'a', 0xC0, 0];
    assert_eq!(Domain::decode(&back_into_itself, 0).unwrap_err(), DnsError::Decode);
    let forward = [0xC0, 2, 0];
    assert_eq!(Domain::decode(&forward, 0).unwrap_err(), DnsError::Decode);
    let ping_pong = [1, b'a', 0xC0, 4, 1, b'b', 0xC0, 0];
    assert_eq!(Domain::decode(&ping_pong, 4).unwrap_err(), DnsError::Decode);
}

#[test]
fn truncated_names_are_rejected() {
    assert_eq!(Domain::decode(&[], 0).unwrap_err(), DnsError::Decode);
    assert_eq!(Domain::decode(&[3, b'a', b'b'], 0).unwrap_err(), DnsError::Decode);
    assert_eq!(Domain::decode(&[1, b'a'], 0).unwrap_err(), DnsError::Decode);
    assert_eq!(Domain::decode(&[0xC0], 0).unwrap_err(), DnsError::Decode);
    assert_eq!(Domain::decode(&[0], 1).unwrap_err(), DnsError::Decode);
}

#[test]
fn root_name_is_empty() {
    let (n, root) = Domain::decode(&[0], 0).unwrap();
    assert_eq!(n, 1);
    assert!(root == Domain::String(""));
    assert_eq!(text_of(&root), Vec::<u8>::new());
}

#[test]
fn encode_name_into_short_buffer_fails() {
    let mut buf = [0u8; 12];
    assert_eq!(Domain::String("example.com").encode(&mut buf, 0), Err(DnsError::Encode));
    assert_eq!(Domain::String("example.com").encode(&mut buf, 13), Err(DnsError::Encode));
    let mut fits = [0u8; 13];
    assert_eq!(Domain::String("example.com").encode(&mut fits, 0), Ok(13));
}
