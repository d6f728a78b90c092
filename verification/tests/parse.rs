#![allow(missing_docs)]

use clienthello::{Error, Extension, is_grease, parse, parse_from_record};

// Fixture builders

fn minimal_raw() -> Vec<u8> {
    wrap_handshake(&minimal_body())
}

/// Build a minimal ClientHello body (no handshake header).
fn minimal_body() -> Vec<u8> {
    let mut body = Vec::new();
    body.extend_from_slice(&[0x03, 0x03]); // legacy version
    body.extend_from_slice(&[0u8; 32]); // random
    body.push(0x00); // session ID length
    body.extend_from_slice(&[0x00, 0x02, 0x13, 0x01]); // cipher suites
    body.extend_from_slice(&[0x01, 0x00]); // compression
    body
}

/// Wrap a ClientHello body in a handshake header (type 0x01 + 3-byte length).
fn wrap_handshake(body: &[u8]) -> Vec<u8> {
    let mut msg = vec![0x01]; // handshake type
    let len = body.len() as u32;
    msg.push((len >> 16) as u8);
    msg.push((len >> 8) as u8);
    msg.push(len as u8);
    msg.extend_from_slice(body);
    msg
}

/// Wrap a raw handshake message in a TLS record layer.
fn wrap_record(handshake: &[u8]) -> Vec<u8> {
    let mut rec = vec![0x16, 0x03, 0x01]; // content type + version
    let len = handshake.len() as u16;
    rec.push((len >> 8) as u8);
    rec.push(len as u8);
    rec.extend_from_slice(handshake);
    rec
}

/// Build a raw handshake message from a minimal body with custom extensions.
fn raw_with_extensions(ext_bytes: &[u8]) -> Vec<u8> {
    let mut body = minimal_body();
    push_u16(&mut body, ext_bytes.len() as u16);
    body.extend_from_slice(ext_bytes);
    wrap_handshake(&body)
}

/// Build a single TLS extension: type_id (u16) + length (u16) + data.
fn build_ext(type_id: u16, data: &[u8]) -> Vec<u8> {
    let mut ext = Vec::new();
    push_u16(&mut ext, type_id);
    push_u16(&mut ext, data.len() as u16);
    ext.extend_from_slice(data);
    ext
}

/// Build SNI extension body from (name_type, name) pairs.
fn build_sni_body(entries: &[(u8, &[u8])]) -> Vec<u8> {
    let mut list = Vec::new();
    for &(name_type, name) in entries {
        list.push(name_type);
        push_u16(&mut list, name.len() as u16);
        list.extend_from_slice(name);
    }
    let mut body = Vec::new();
    push_u16(&mut body, list.len() as u16);
    body.extend_from_slice(&list);
    body
}

/// Build ALPN extension body from protocol byte slices.
fn build_alpn_body(protocols: &[&[u8]]) -> Vec<u8> {
    let mut list = Vec::new();
    for proto in protocols {
        list.push(proto.len() as u8);
        list.extend_from_slice(proto);
    }
    let mut body = Vec::new();
    push_u16(&mut body, list.len() as u16);
    body.extend_from_slice(&list);
    body
}

/// Build supported versions extension body (u8 length prefix per RFC 8446).
fn build_supported_versions_body(versions: &[u16]) -> Vec<u8> {
    let mut body = Vec::new();
    body.push((versions.len() * 2) as u8);
    for &v in versions {
        push_u16(&mut body, v);
    }
    body
}

/// Build key share extension body from (group, key_data) pairs.
fn build_key_share_body(entries: &[(u16, &[u8])]) -> Vec<u8> {
    let mut list = Vec::new();
    for &(group, key) in entries {
        push_u16(&mut list, group);
        push_u16(&mut list, key.len() as u16);
        list.extend_from_slice(key);
    }
    let mut body = Vec::new();
    push_u16(&mut body, list.len() as u16);
    body.extend_from_slice(&list);
    body
}

/// Build a u16-list extension body with a u16 length prefix.
fn build_u16_list_body(values: &[u16]) -> Vec<u8> {
    let mut body = Vec::new();
    push_u16(&mut body, (values.len() * 2) as u16);
    for &v in values {
        push_u16(&mut body, v);
    }
    body
}

/// Build a raw ClientHello with common extensions.
fn full_raw() -> Vec<u8> {
    let mut body = Vec::new();
    body.extend_from_slice(&[0x03, 0x03]); // legacy version
    body.extend_from_slice(&[0xAB; 32]); // random
    // session ID (32 bytes)
    body.push(0x20);
    body.extend_from_slice(&[0xCD; 32]);
    // cipher suites: GREASE + TLS_AES_128_GCM + TLS_AES_256_GCM + TLS_CHACHA20
    body.extend_from_slice(&[0x00, 0x08]);
    body.extend_from_slice(&[0x0A, 0x0A]); // GREASE
    body.extend_from_slice(&[0x13, 0x01]);
    body.extend_from_slice(&[0x13, 0x02]);
    body.extend_from_slice(&[0x13, 0x03]);
    // compression
    body.extend_from_slice(&[0x01, 0x00]);

    let extensions = build_extensions();
    let ext_len = extensions.len() as u16;
    body.push((ext_len >> 8) as u8);
    body.push(ext_len as u8);
    body.extend_from_slice(&extensions);

    let mut msg = vec![0x01];
    let len = body.len() as u32;
    msg.push((len >> 16) as u8);
    msg.push((len >> 8) as u8);
    msg.push(len as u8);
    msg.extend_from_slice(&body);
    msg
}

fn build_extensions() -> Vec<u8> {
    let mut exts = Vec::new();

    // SNI: example.com
    let host = b"example.com";
    let sni_list_len = 1 + 2 + host.len(); // type + name_len + name
    let sni_ext_len = 2 + sni_list_len; // list_len field + list
    push_ext_header(&mut exts, 0x0000, sni_ext_len);
    push_u16(&mut exts, sni_list_len as u16);
    exts.push(0x00); // host_name type
    push_u16(&mut exts, host.len() as u16);
    exts.extend_from_slice(host);

    // ALPN: h2, http/1.1
    let proto1 = b"h2";
    let proto2 = b"http/1.1";
    let alpn_list_len = 1 + proto1.len() + 1 + proto2.len();
    let alpn_ext_len = 2 + alpn_list_len;
    push_ext_header(&mut exts, 0x0010, alpn_ext_len);
    push_u16(&mut exts, alpn_list_len as u16);
    exts.push(proto1.len() as u8);
    exts.extend_from_slice(proto1);
    exts.push(proto2.len() as u8);
    exts.extend_from_slice(proto2);

    // Supported Versions: GREASE + TLS 1.3 + TLS 1.2
    let sv_list_len = 6; // 3 * 2 bytes
    push_ext_header(&mut exts, 0x002b, 1 + sv_list_len);
    exts.push(sv_list_len as u8);
    push_u16(&mut exts, 0x3A3A); // GREASE
    push_u16(&mut exts, 0x0304); // TLS 1.3
    push_u16(&mut exts, 0x0303); // TLS 1.2

    // Supported Groups: x25519 + secp256r1
    push_ext_header(&mut exts, 0x000a, 2 + 4);
    push_u16(&mut exts, 4);
    push_u16(&mut exts, 0x001d); // x25519
    push_u16(&mut exts, 0x0017); // secp256r1

    // Signature Algorithms: ecdsa_secp256r1_sha256 + rsa_pss_rsae_sha256
    push_ext_header(&mut exts, 0x000d, 2 + 4);
    push_u16(&mut exts, 4);
    push_u16(&mut exts, 0x0403);
    push_u16(&mut exts, 0x0804);

    // Key Share: GREASE + x25519 (dummy 32-byte key)
    let ks_entry_grease = 2 + 2 + 1; // group + len + 1-byte key
    let ks_entry_real = 2 + 2 + 32; // group + len + 32-byte key
    let ks_list_len = ks_entry_grease + ks_entry_real;
    push_ext_header(&mut exts, 0x0033, 2 + ks_list_len);
    push_u16(&mut exts, ks_list_len as u16);
    push_u16(&mut exts, 0x1A1A); // GREASE group
    push_u16(&mut exts, 1);
    exts.push(0x00);
    push_u16(&mut exts, 0x001d); // x25519
    push_u16(&mut exts, 32);
    exts.extend_from_slice(&[0xEE; 32]);

    // PSK Exchange Modes: psk_dhe_ke
    push_ext_header(&mut exts, 0x002d, 2);
    exts.push(0x01); // modes length
    exts.push(0x01); // psk_dhe_ke

    // Renegotiation Info: empty
    push_ext_header(&mut exts, 0xff01, 1);
    exts.push(0x00);

    // Unknown extension 0x0042
    push_ext_header(&mut exts, 0x0042, 3);
    exts.extend_from_slice(&[0xDE, 0xAD, 0xBE]);

    exts
}

fn push_ext_header(buf: &mut Vec<u8>, type_id: u16, data_len: usize) {
    push_u16(buf, type_id);
    push_u16(buf, data_len as u16);
}

fn push_u16(buf: &mut Vec<u8>, val: u16) {
    buf.push((val >> 8) as u8);
    buf.push(val as u8);
}

// Happy path

#[test]
fn minimal_raw_handshake() {
    let data = minimal_raw();
    let hello = parse(&data).unwrap();
    assert_eq!(hello.legacy_version, 0x0303);
    assert_eq!(hello.random, &[0u8; 32]);
    assert!(hello.session_id.is_empty());
    assert_eq!(hello.cipher_suites, vec![0x1301]);
    assert_eq!(hello.compression_methods, &[0x00]);
    assert!(hello.extensions.is_empty());
    assert!(!hello.has_grease);
}

#[test]
fn minimal_record_layer() {
    let raw = minimal_raw();
    let record = wrap_record(&raw);
    let hello = parse_from_record(&record).unwrap();
    assert_eq!(hello.legacy_version, 0x0303);
    assert_eq!(hello.cipher_suites, vec![0x1301]);
}

#[test]
fn full_parse_raw() {
    let data = full_raw();
    let hello = parse(&data).unwrap();

    assert_eq!(hello.legacy_version, 0x0303);
    assert_eq!(hello.random, &[0xAB; 32]);
    assert_eq!(hello.session_id, &[0xCD; 32]);
    assert_eq!(hello.cipher_suites, vec![0x1301, 0x1302, 0x1303]);
    assert!(hello.has_grease);
}

#[test]
fn full_parse_record() {
    let raw = full_raw();
    let record = wrap_record(&raw);
    let hello = parse_from_record(&record).unwrap();
    assert_eq!(hello.cipher_suites, vec![0x1301, 0x1302, 0x1303]);
    assert!(hello.has_grease);
}

#[test]
fn sni_extraction() {
    let data = full_raw();
    let hello = parse(&data).unwrap();
    assert_eq!(hello.server_name(), Some("example.com"));
}

#[test]
fn no_sni() {
    let data = minimal_raw();
    let hello = parse(&data).unwrap();
    assert_eq!(hello.server_name(), None);
}

#[test]
fn alpn_extraction() {
    let data = full_raw();
    let hello = parse(&data).unwrap();
    let alpn = hello.alpn_protocols();
    assert_eq!(alpn, vec![b"h2".as_slice(), b"http/1.1".as_slice()]);
}

#[test]
fn supported_versions() {
    let data = full_raw();
    let hello = parse(&data).unwrap();
    let versions = hello.supported_versions();
    assert_eq!(versions, vec![0x0304, 0x0303]);
}

#[test]
fn supported_groups() {
    let data = full_raw();
    let hello = parse(&data).unwrap();
    assert_eq!(hello.supported_groups(), vec![0x001d, 0x0017]);
}

#[test]
fn signature_algorithms() {
    let data = full_raw();
    let hello = parse(&data).unwrap();
    assert_eq!(hello.signature_algorithms(), vec![0x0403, 0x0804]);
}

#[test]
fn key_share_groups() {
    let data = full_raw();
    let hello = parse(&data).unwrap();
    assert_eq!(hello.key_share_groups(), vec![0x001d]);
}

#[test]
fn renegotiation_info() {
    let data = full_raw();
    let hello = parse(&data).unwrap();
    assert!(hello.has_renegotiation_info());
}

#[test]
fn no_renegotiation_info() {
    let data = minimal_raw();
    let hello = parse(&data).unwrap();
    assert!(!hello.has_renegotiation_info());
}

#[test]
fn find_unknown_extension() {
    let data = full_raw();
    let hello = parse(&data).unwrap();
    let raw = hello.find_extension(0x0042);
    assert_eq!(raw, Some([0xDE, 0xAD, 0xBE].as_slice()));
}

#[test]
fn find_missing_extension() {
    let data = full_raw();
    let hello = parse(&data).unwrap();
    assert!(hello.find_extension(0x9999).is_none());
}

#[test]
fn grease_filtered_from_cipher_suites() {
    let data = full_raw();
    let hello = parse(&data).unwrap();
    for &cs in &hello.cipher_suites {
        assert!(
            !is_grease(cs),
            "GREASE value {cs:#06x} leaked into cipher_suites"
        );
    }
    assert!(hello.has_grease);
}

#[test]
fn grease_filtered_from_versions() {
    let data = full_raw();
    let hello = parse(&data).unwrap();
    let versions = hello.supported_versions();
    for &v in &versions {
        assert!(
            !is_grease(v),
            "GREASE value {v:#06x} leaked into supported_versions"
        );
    }
}

#[test]
fn grease_filtered_from_key_share() {
    let data = full_raw();
    let hello = parse(&data).unwrap();
    let groups = hello.key_share_groups();
    for &g in &groups {
        assert!(
            !is_grease(g),
            "GREASE value {g:#06x} leaked into key_share_groups"
        );
    }
}

#[test]
fn empty_session_id() {
    let data = minimal_raw();
    let hello = parse(&data).unwrap();
    assert!(hello.session_id.is_empty());
}

#[test]
fn full_session_id() {
    let data = full_raw();
    let hello = parse(&data).unwrap();
    assert_eq!(hello.session_id.len(), 32);
    assert_eq!(hello.session_id, &[0xCD; 32]);
}

#[test]
fn psk_exchange_modes() {
    let data = full_raw();
    let hello = parse(&data).unwrap();
    let modes: &[u8] = hello
        .extensions
        .iter()
        .find_map(|ext| match ext {
            Extension::PskExchangeModes(m) => Some(m.as_slice()),
            _ => None,
        })
        .unwrap_or_default();
    assert_eq!(modes, [0x01]);
}

#[test]
fn extension_count() {
    let data = full_raw();
    let hello = parse(&data).unwrap();
    // SNI + ALPN + SupportedVersions + SupportedGroups + SignatureAlgorithms
    // + KeyShare + PSK + RenegotiationInfo + Unknown(0x0042)
    assert_eq!(hello.extensions.len(), 9);
}

#[test]
fn find_renegotiation_info_raw() {
    let data = full_raw();
    let hello = parse(&data).unwrap();
    let raw = hello.find_extension(0xFF01);
    // RenegotiationInfo stores the extension body verbatim, so the inner
    // length prefix (0x00 here) is still present.
    assert_eq!(raw, Some([0x00].as_slice()));
}

// Error path

#[test]
fn error_empty_payload() {
    let err = parse(&[]).unwrap_err();
    assert_eq!(err, Error::BufferTooShort { need: 1, have: 0 });
}

#[test]
fn error_not_client_hello() {
    // handshake type 0x02 = ServerHello
    let mut data = minimal_raw();
    data[0] = 0x02;
    let err = parse(&data).unwrap_err();
    assert_eq!(err, Error::NotClientHello(0x02));
}

#[test]
fn error_not_handshake_record() {
    // content type 0x17 = ApplicationData
    let raw = minimal_raw();
    let mut record = wrap_record(&raw);
    record[0] = 0x17;
    let err = parse_from_record(&record).unwrap_err();
    assert_eq!(err, Error::NotHandshakeRecord(0x17));
}

#[test]
fn error_truncated_record() {
    let err = parse_from_record(&[0x16, 0x03]).unwrap_err();
    assert_eq!(err, Error::BufferTooShort { need: 5, have: 2 });
}

#[test]
fn error_truncated_handshake_body() {
    // valid header but body length exceeds available data
    let data = [0x01, 0x00, 0x00, 0xFF, 0x03, 0x03];
    let err = parse(&data).unwrap_err();
    assert!(matches!(err, Error::Truncated { .. }));
}

// Happy path: structural edge cases

#[test]
fn empty_extensions_section() {
    // Extensions section present but with length = 0.
    let data = raw_with_extensions(&[]);
    let hello = parse(&data).unwrap();
    assert!(hello.extensions.is_empty());
}

#[test]
fn trailing_byte_after_compression_no_extensions() {
    // Body has 1 trailing byte after compression (remaining < 2),
    // so the parser skips extension parsing.
    let mut body = minimal_body();
    body.push(0xFF); // 1 trailing byte
    let data = wrap_handshake(&body);
    let hello = parse(&data).unwrap();
    assert!(hello.extensions.is_empty());
}

#[test]
fn only_unknown_extensions() {
    let mut exts = build_ext(0x0042, &[0x01, 0x02]);
    exts.extend_from_slice(&build_ext(0x0043, &[0x03]));
    let data = raw_with_extensions(&exts);
    let hello = parse(&data).unwrap();
    assert_eq!(hello.extensions.len(), 2);
    assert!(matches!(
        &hello.extensions[0],
        Extension::Unknown { type_id: 0x0042, data } if *data == [0x01, 0x02]
    ));
    assert!(matches!(
        &hello.extensions[1],
        Extension::Unknown { type_id: 0x0043, data } if *data == [0x03]
    ));
}

#[test]
fn multiple_compression_methods() {
    let mut body = Vec::new();
    body.extend_from_slice(&[0x03, 0x03]); // version
    body.extend_from_slice(&[0u8; 32]); // random
    body.push(0x00); // no session ID
    body.extend_from_slice(&[0x00, 0x02, 0x13, 0x01]); // cipher suites
    body.push(0x03); // compression methods length = 3
    body.extend_from_slice(&[0x00, 0x01, 0x02]); // three methods
    let data = wrap_handshake(&body);
    let hello = parse(&data).unwrap();
    assert_eq!(hello.compression_methods, &[0x00, 0x01, 0x02]);
}

#[test]
fn grease_extension_type_skipped() {
    // An extension with a GREASE type_id is kept as Unknown, never
    // decoded further, and sets the GREASE flag.
    let mut exts = build_ext(0x0A0A, &[0x01, 0x02]); // GREASE type
    exts.extend_from_slice(&build_ext(0x0042, &[0xAA]));
    let data = raw_with_extensions(&exts);
    let hello = parse(&data).unwrap();
    assert_eq!(hello.extensions.len(), 2);
    assert!(matches!(
        &hello.extensions[0],
        Extension::Unknown { type_id: 0x0A0A, data } if *data == [0x01, 0x02]
    ));
    assert!(hello.has_grease);
}

#[test]
fn grease_only_from_extension_type() {
    // GREASE appears only as an extension type_id, not in cipher suites.
    // has_grease should still be true.
    let exts = build_ext(0x2A2A, &[0x00]); // GREASE extension type
    let data = raw_with_extensions(&exts);
    let hello = parse(&data).unwrap();
    assert!(hello.has_grease);
    // The GREASE extension is retained as Unknown.
    assert_eq!(hello.extensions.len(), 1);
    assert!(matches!(
        &hello.extensions[0],
        Extension::Unknown { type_id: 0x2A2A, data } if *data == [0x00]
    ));
    // cipher_suites contain no GREASE (minimal body has 0x1301 only)
    assert_eq!(hello.cipher_suites, vec![0x1301]);
}

#[test]
fn grease_filtered_from_supported_groups() {
    let body = build_u16_list_body(&[0x2A2A, 0x001d, 0x0017]);
    let ext = build_ext(0x000A, &body);
    let data = raw_with_extensions(&ext);
    let hello = parse(&data).unwrap();
    assert_eq!(hello.supported_groups(), &[0x001d, 0x0017]);
    assert!(hello.has_grease);
}

#[test]
fn grease_filtered_from_sig_algs() {
    // Signature algorithms are NOT GREASE-filtered: values are kept
    // verbatim and do not set the GREASE flag.
    let mut sa_body = Vec::new();
    push_u16(&mut sa_body, 6); // 3 * 2 bytes
    push_u16(&mut sa_body, 0x0A0A); // GREASE-shaped, kept verbatim
    push_u16(&mut sa_body, 0x0403);
    push_u16(&mut sa_body, 0x0804);
    let ext = build_ext(0x000D, &sa_body);
    let data = raw_with_extensions(&ext);
    let hello = parse(&data).unwrap();
    assert_eq!(hello.signature_algorithms(), &[0x0A0A, 0x0403, 0x0804]);
    assert!(!hello.has_grease);
}

// Happy path: SNI edge cases

#[test]
fn sni_non_dns_type_returns_none() {
    // SNI entry with name_type = 1 (not DNS hostname).
    // server_name() only returns type 0x00 entries.
    let sni_body = build_sni_body(&[(0x01, b"example.com")]);
    let ext = build_ext(0x0000, &sni_body);
    let data = raw_with_extensions(&ext);
    let hello = parse(&data).unwrap();
    assert_eq!(hello.server_name(), None);
    // But the extension IS parsed
    assert_eq!(hello.extensions.len(), 1);
}

#[test]
fn sni_mixed_types_returns_first_dns() {
    // Non-DNS entry first, then DNS entry. server_name() finds the DNS one.
    let sni_body = build_sni_body(&[
        (0x01, b"wrong.com"),   // non-DNS
        (0x00, b"correct.com"), // DNS hostname
    ]);
    let ext = build_ext(0x0000, &sni_body);
    let data = raw_with_extensions(&ext);
    let hello = parse(&data).unwrap();
    assert_eq!(hello.server_name(), Some("correct.com"));
}

#[test]
fn sni_invalid_utf8_returns_none() {
    // DNS type but name bytes are invalid UTF-8.
    // from_utf8().ok() returns None.
    let sni_body = build_sni_body(&[(0x00, &[0xFF, 0xFE, 0xFD])]);
    let ext = build_ext(0x0000, &sni_body);
    let data = raw_with_extensions(&ext);
    let hello = parse(&data).unwrap();
    assert_eq!(hello.server_name(), None);
}

// Happy path: extension accessor edge cases

#[test]
fn single_alpn_protocol() {
    let alpn_body = build_alpn_body(&[b"h3"]);
    let ext = build_ext(0x0010, &alpn_body);
    let data = raw_with_extensions(&ext);
    let hello = parse(&data).unwrap();
    assert_eq!(hello.alpn_protocols(), &[b"h3".as_slice()]);
}

#[test]
fn supported_versions_single() {
    let sv_body = build_supported_versions_body(&[0x0304]);
    let ext = build_ext(0x002B, &sv_body);
    let data = raw_with_extensions(&ext);
    let hello = parse(&data).unwrap();
    assert_eq!(hello.supported_versions(), &[0x0304]);
}

#[test]
fn key_share_empty_list() {
    let ks_body = build_key_share_body(&[]);
    let ext = build_ext(0x0033, &ks_body);
    let data = raw_with_extensions(&ext);
    let hello = parse(&data).unwrap();
    assert!(hello.key_share_groups().is_empty());
}

#[test]
fn find_extension_psk_modes_by_type_id() {
    // Build PSK modes extension with modes [0x00, 0x01].
    let psk_body = [0x02, 0x00, 0x01]; // length=2, modes=[0x00, 0x01]
    let ext = build_ext(0x002D, &psk_body);
    let data = raw_with_extensions(&ext);
    let hello = parse(&data).unwrap();
    // PSK modes are decoded into a structured variant, so find_extension
    // does not hand them back.
    assert!(hello.find_extension(0x002D).is_none());
}

#[test]
fn accessors_default_without_extensions() {
    // On a minimal ClientHello with no extensions, all accessors
    // return their default (empty) values.
    let data = minimal_raw();
    let hello = parse(&data).unwrap();
    assert_eq!(hello.server_name(), None);
    assert!(hello.alpn_protocols().is_empty());
    assert!(hello.supported_versions().is_empty());
    assert!(hello.supported_groups().is_empty());
    assert!(hello.signature_algorithms().is_empty());
    assert!(hello.key_share_groups().is_empty());
    assert!(!hello.has_renegotiation_info());
    assert!(hello.find_extension(0x0042).is_none());
}

// Error path: handshake header

#[test]
fn error_parse_only_type_byte() {
    // Only the handshake type byte (0x01), no room for the 3-byte length.
    let err = parse(&[0x01]).unwrap_err();
    assert_eq!(
        err,
        Error::Truncated {
            field: "handshake length"
        }
    );
}

#[test]
fn error_not_client_hello_server_hello() {
    let mut data = minimal_raw();
    data[0] = 0x02; // ServerHello
    assert_eq!(parse(&data).unwrap_err(), Error::NotClientHello(0x02));
}

#[test]
fn error_not_client_hello_certificate() {
    let mut data = minimal_raw();
    data[0] = 0x0B; // Certificate
    assert_eq!(parse(&data).unwrap_err(), Error::NotClientHello(0x0B));
}

#[test]
fn error_not_client_hello_zero() {
    let mut data = minimal_raw();
    data[0] = 0x00; // HelloRequest
    assert_eq!(parse(&data).unwrap_err(), Error::NotClientHello(0x00));
}

#[test]
fn error_not_client_hello_0xff() {
    let mut data = minimal_raw();
    data[0] = 0xFF;
    assert_eq!(parse(&data).unwrap_err(), Error::NotClientHello(0xFF));
}

// Error path: body field truncation

#[test]
fn error_truncated_legacy_version() {
    // Body is 1 byte — not enough for the u16 legacy_version.
    let data = wrap_handshake(&[0x03]);
    let err = parse(&data).unwrap_err();
    assert_eq!(
        err,
        Error::Truncated {
            field: "legacy version"
        }
    );
}

#[test]
fn error_truncated_random() {
    // Body has version but only 16 of 32 random bytes.
    let mut body = Vec::new();
    body.extend_from_slice(&[0x03, 0x03]);
    body.extend_from_slice(&[0u8; 16]); // only 16 bytes
    let data = wrap_handshake(&body);
    let err = parse(&data).unwrap_err();
    assert_eq!(
        err,
        Error::Truncated {
            field: "client random"
        }
    );
}

#[test]
fn error_truncated_session_id_length() {
    // Body has version + random, then ends — no session ID length byte.
    let mut body = Vec::new();
    body.extend_from_slice(&[0x03, 0x03]);
    body.extend_from_slice(&[0u8; 32]);
    let data = wrap_handshake(&body);
    let err = parse(&data).unwrap_err();
    assert_eq!(
        err,
        Error::Truncated {
            field: "session ID length"
        }
    );
}

#[test]
fn error_truncated_session_id() {
    // Session ID length says 32 but only 10 bytes follow.
    let mut body = Vec::new();
    body.extend_from_slice(&[0x03, 0x03]);
    body.extend_from_slice(&[0u8; 32]);
    body.push(0x20); // session ID length = 32
    body.extend_from_slice(&[0u8; 10]); // only 10 bytes
    let data = wrap_handshake(&body);
    let err = parse(&data).unwrap_err();
    assert_eq!(err, Error::Truncated { field: "session ID" });
}

#[test]
fn error_truncated_cipher_suites_length() {
    // After session_id, no room for cipher suites u16 length.
    let mut body = Vec::new();
    body.extend_from_slice(&[0x03, 0x03]);
    body.extend_from_slice(&[0u8; 32]);
    body.push(0x00); // empty session ID
    let data = wrap_handshake(&body);
    let err = parse(&data).unwrap_err();
    assert_eq!(
        err,
        Error::Truncated {
            field: "cipher suites length"
        }
    );
}

#[test]
fn error_truncated_cipher_suites_data() {
    // Cipher suites length says 4 but only 2 bytes follow.
    let mut body = Vec::new();
    body.extend_from_slice(&[0x03, 0x03]);
    body.extend_from_slice(&[0u8; 32]);
    body.push(0x00); // no session ID
    push_u16(&mut body, 4); // cipher suites length = 4
    body.extend_from_slice(&[0x13, 0x01]); // only 2 bytes
    let data = wrap_handshake(&body);
    let err = parse(&data).unwrap_err();
    assert_eq!(
        err,
        Error::Truncated {
            field: "cipher suites data"
        }
    );
}

#[test]
fn error_truncated_compression_length() {
    // After cipher suites, no room for compression methods length byte.
    let mut body = Vec::new();
    body.extend_from_slice(&[0x03, 0x03]);
    body.extend_from_slice(&[0u8; 32]);
    body.push(0x00); // no session ID
    push_u16(&mut body, 2); // cipher suites length = 2
    body.extend_from_slice(&[0x13, 0x01]); // one cipher suite
    // no compression methods length
    let data = wrap_handshake(&body);
    let err = parse(&data).unwrap_err();
    assert_eq!(
        err,
        Error::Truncated {
            field: "compression methods length"
        }
    );
}

#[test]
fn error_truncated_compression_data() {
    // Compression methods length says 3 but only 1 byte follows.
    let mut body = Vec::new();
    body.extend_from_slice(&[0x03, 0x03]);
    body.extend_from_slice(&[0u8; 32]);
    body.push(0x00); // no session ID
    push_u16(&mut body, 2);
    body.extend_from_slice(&[0x13, 0x01]);
    body.push(0x03); // compression length = 3
    body.push(0x00); // only 1 byte
    let data = wrap_handshake(&body);
    let err = parse(&data).unwrap_err();
    assert_eq!(
        err,
        Error::Truncated {
            field: "compression methods"
        }
    );
}

// Lenient path: odd-length u16 lists keep their full entries and the
// dangling byte is ignored.

#[test]
fn error_odd_cipher_suites() {
    let mut body = Vec::new();
    body.extend_from_slice(&[0x03, 0x03]);
    body.extend_from_slice(&[0u8; 32]);
    body.push(0x00);
    push_u16(&mut body, 3); // odd length!
    body.extend_from_slice(&[0x13, 0x01, 0x00]); // 3 bytes
    body.extend_from_slice(&[0x01, 0x00]); // compression
    let data = wrap_handshake(&body);
    let hello = parse(&data).unwrap();
    assert_eq!(hello.cipher_suites, vec![0x1301]);
    assert!(!hello.has_grease);
}

#[test]
fn error_odd_supported_groups() {
    // supported groups (0x000a) also stop at the last full 16-bit entry
    let mut group_body = Vec::new();
    push_u16(&mut group_body, 3); // odd length!
    group_body.extend_from_slice(&[0x00, 0x1d, 0x00]); // 3 bytes
    let ext = build_ext(0x000A, &group_body);
    let data = raw_with_extensions(&ext);
    let hello = parse(&data).unwrap();
    assert_eq!(hello.supported_groups(), &[0x001d]);
}

#[test]
fn error_odd_signature_algorithms() {
    let mut sa_body = Vec::new();
    push_u16(&mut sa_body, 3); // odd length!
    sa_body.extend_from_slice(&[0x04, 0x03, 0x00]); // 3 bytes
    let ext = build_ext(0x000D, &sa_body);
    let data = raw_with_extensions(&ext);
    let hello = parse(&data).unwrap();
    assert_eq!(hello.signature_algorithms(), &[0x0403]);
}

#[test]
fn error_odd_supported_versions() {
    // supported versions uses a u8 length prefix
    let sv_body = [0x03, 0x03, 0x04, 0x00]; // length=3 (odd!), then 3 bytes
    let ext = build_ext(0x002B, &sv_body);
    let data = raw_with_extensions(&ext);
    let hello = parse(&data).unwrap();
    assert_eq!(hello.supported_versions(), &[0x0304]);
}

// Error path: extensions truncation

#[test]
fn error_truncated_extensions_data() {
    // Extensions length (100) exceeds available data (10 bytes).
    let mut body = minimal_body();
    push_u16(&mut body, 100); // extensions length = 100
    body.extend_from_slice(&[0x00; 10]); // only 10 bytes
    let data = wrap_handshake(&body);
    let err = parse(&data).unwrap_err();
    assert_eq!(
        err,
        Error::Truncated {
            field: "extensions data"
        }
    );
}

#[test]
fn error_truncated_extension_body() {
    // Extension header says body is 10 bytes but only 5 follow.
    let mut ext_data = Vec::new();
    push_u16(&mut ext_data, 0x0042); // type
    push_u16(&mut ext_data, 10); // length = 10
    ext_data.extend_from_slice(&[0x00; 5]); // only 5 bytes
    let data = raw_with_extensions(&ext_data);
    let err = parse(&data).unwrap_err();
    assert_eq!(
        err,
        Error::Truncated {
            field: "extension body"
        }
    );
}

#[test]
fn error_truncated_sni_list() {
    // SNI extension with list_length exceeding available data.
    let sni_body = [0x00, 0x20]; // list_len=32, but no list data
    let ext = build_ext(0x0000, &sni_body);
    let data = raw_with_extensions(&ext);
    let err = parse(&data).unwrap_err();
    assert_eq!(
        err,
        Error::Truncated {
            field: "SNI list data"
        }
    );
}

#[test]
fn error_truncated_sni_name() {
    // SNI list is well-formed in length, but an entry's name_len
    // exceeds the available bytes inside the list.
    let mut list = Vec::new();
    list.push(0x00); // name_type = DNS
    push_u16(&mut list, 100); // name_len = 100, way too large

    let mut sni_body = Vec::new();
    push_u16(&mut sni_body, list.len() as u16); // list_len = 3
    sni_body.extend_from_slice(&list);

    let ext = build_ext(0x0000, &sni_body);
    let data = raw_with_extensions(&ext);
    let err = parse(&data).unwrap_err();
    assert_eq!(err, Error::Truncated { field: "SNI name" });
}

#[test]
fn error_truncated_alpn_list() {
    // ALPN extension with list_length exceeding available data.
    let alpn_body = [0x00, 0x20]; // list_len=32, no data
    let ext = build_ext(0x0010, &alpn_body);
    let data = raw_with_extensions(&ext);
    let err = parse(&data).unwrap_err();
    assert_eq!(
        err,
        Error::Truncated {
            field: "ALPN list data"
        }
    );
}

#[test]
fn error_truncated_alpn_protocol() {
    // ALPN list is well-formed in length, but a protocol's length
    // exceeds available bytes inside the list.
    let list: Vec<u8> = vec![50, 0x68, 0x32]; // proto_len=50, "h2" only 2 bytes
    let mut alpn_body = Vec::new();
    push_u16(&mut alpn_body, list.len() as u16); // list_len = 3
    alpn_body.extend_from_slice(&list);

    let ext = build_ext(0x0010, &alpn_body);
    let data = raw_with_extensions(&ext);
    let err = parse(&data).unwrap_err();
    assert_eq!(
        err,
        Error::Truncated {
            field: "ALPN protocol"
        }
    );
}

#[test]
fn error_truncated_key_share_key() {
    // Key share: valid list structure, but key_len exceeds available.
    let mut ks_body = Vec::new();
    push_u16(&mut ks_body, 6); // list_len = 6
    push_u16(&mut ks_body, 0x001d); // group
    push_u16(&mut ks_body, 32); // key_len = 32 (but only 2 bytes remain)
    ks_body.extend_from_slice(&[0x00; 2]); // 2 bytes of key data
    let ext = build_ext(0x0033, &ks_body);
    let data = raw_with_extensions(&ext);
    let err = parse(&data).unwrap_err();
    assert_eq!(
        err,
        Error::Truncated {
            field: "key share key data"
        }
    );
}

#[test]
fn error_truncated_renegotiation_info() {
    // The renegotiation info body is stored verbatim, so a body that
    // only holds its inner length prefix still decodes.
    let ri_body = [0x10]; // inner info_len=16, no data — kept as-is
    let ext = build_ext(0xFF01, &ri_body);
    let data = raw_with_extensions(&ext);
    let hello = parse(&data).unwrap();
    assert_eq!(hello.find_extension(0xFF01), Some([0x10].as_slice()));
    assert!(hello.has_renegotiation_info());
}

#[test]
fn error_truncated_psk_modes() {
    // PSK modes length exceeds available data.
    let psk_body = [0x10]; // modes_len=16, no data
    let ext = build_ext(0x002D, &psk_body);
    let data = raw_with_extensions(&ext);
    let err = parse(&data).unwrap_err();
    assert_eq!(
        err,
        Error::Truncated {
            field: "PSK modes data"
        }
    );
}

#[test]
fn error_truncated_supported_versions_data() {
    // supported versions list_len exceeds available data.
    let sv_body = [0x10]; // list_len=16, no data
    let ext = build_ext(0x002B, &sv_body);
    let data = raw_with_extensions(&ext);
    let err = parse(&data).unwrap_err();
    assert_eq!(
        err,
        Error::Truncated {
            field: "supported versions data"
        }
    );
}

#[test]
fn error_truncated_key_share_list() {
    // Key share list_len exceeds available data.
    let ks_body = [0x00, 0x20]; // list_len=32, no data
    let ext = build_ext(0x0033, &ks_body);
    let data = raw_with_extensions(&ext);
    let err = parse(&data).unwrap_err();
    assert_eq!(
        err,
        Error::Truncated {
            field: "key share list data"
        }
    );
}

// Error path: record layer

#[test]
fn error_record_payload_truncated() {
    // Record header says payload is 100 bytes but only 10 follow.
    let mut rec = vec![0x16, 0x03, 0x01];
    push_u16(&mut rec, 100);
    rec.extend_from_slice(&[0x00; 10]);
    let err = parse_from_record(&rec).unwrap_err();
    assert_eq!(
        err,
        Error::Truncated {
            field: "record payload"
        }
    );
}

#[test]
fn error_record_empty_payload() {
    // Record with length = 0. Inner parse() sees empty input.
    let rec = vec![0x16, 0x03, 0x01, 0x00, 0x00];
    let err = parse_from_record(&rec).unwrap_err();
    assert_eq!(err, Error::BufferTooShort { need: 1, have: 0 });
}

#[test]
fn error_record_content_type_alert() {
    let raw = minimal_raw();
    let mut rec = wrap_record(&raw);
    rec[0] = 0x15; // Alert
    assert_eq!(
        parse_from_record(&rec).unwrap_err(),
        Error::NotHandshakeRecord(0x15)
    );
}

#[test]
fn error_record_content_type_ccs() {
    let raw = minimal_raw();
    let mut rec = wrap_record(&raw);
    rec[0] = 0x14; // ChangeCipherSpec
    assert_eq!(
        parse_from_record(&rec).unwrap_err(),
        Error::NotHandshakeRecord(0x14)
    );
}

#[test]
fn error_record_content_type_0xff() {
    let raw = minimal_raw();
    let mut rec = wrap_record(&raw);
    rec[0] = 0xFF;
    assert_eq!(
        parse_from_record(&rec).unwrap_err(),
        Error::NotHandshakeRecord(0xFF)
    );
}

#[test]
fn error_record_single_byte() {
    // Only 1 byte — not enough for the 5-byte record header.
    let err = parse_from_record(&[0x16]).unwrap_err();
    assert_eq!(err, Error::BufferTooShort { need: 5, have: 1 });
}

#[test]
fn error_record_three_bytes() {
    let err = parse_from_record(&[0x16, 0x03, 0x01]).unwrap_err();
    assert_eq!(err, Error::BufferTooShort { need: 5, have: 3 });
}

#[test]
fn error_record_four_bytes() {
    let err = parse_from_record(&[0x16, 0x03, 0x01, 0x00]).unwrap_err();
    assert_eq!(err, Error::BufferTooShort { need: 5, have: 4 });
}

// Determinism: identical bytes give identical outcomes.

#[test]
fn decode_is_deterministic() {
    let data = full_raw();
    assert_eq!(parse(&data), parse(&data));
    let rec = wrap_record(&data);
    assert_eq!(parse_from_record(&rec), parse_from_record(&rec));
    let mut bad = full_raw();
    bad.truncate(10);
    assert_eq!(parse(&bad), parse(&bad));
}

// Truncation: every strict prefix of a valid message fails to decode.

#[test]
fn truncation_raw_always_errors() {
    let data = full_raw();
    assert!(parse(&data).is_ok());
    for t in 0..data.len() {
        let err = parse(&data[..t]).unwrap_err();
        assert!(
            matches!(
                err,
                Error::BufferTooShort { .. } | Error::Truncated { .. }
            ),
            "prefix of {t} bytes gave unexpected error {err:?}"
        );
    }
}

#[test]
fn truncation_record_always_errors() {
    let data = wrap_record(&full_raw());
    assert!(parse_from_record(&data).is_ok());
    for t in 0..data.len() {
        let err = parse_from_record(&data[..t]).unwrap_err();
        assert!(
            matches!(
                err,
                Error::BufferTooShort { .. } | Error::Truncated { .. }
            ),
            "prefix of {t} bytes gave unexpected error {err:?}"
        );
    }
}

// A GREASE cipher suite is filtered out and only flagged.

#[test]
fn grease_cipher_suite_minimal() {
    let mut body = Vec::new();
    body.extend_from_slice(&[0x03, 0x03]); // legacy version
    body.extend_from_slice(&[0u8; 32]); // random all zero
    body.push(0x00); // empty session ID
    body.extend_from_slice(&[0x00, 0x04, 0x0A, 0x0A, 0x13, 0x01]); // GREASE + suite
    body.extend_from_slice(&[0x01, 0x00]); // one compression method
    let data = wrap_handshake(&body);
    let hello = parse(&data).unwrap();
    assert_eq!(hello.cipher_suites, vec![0x1301]);
    assert!(hello.has_grease);
}

// The SNI sub-decoder alone yields the hostname.

#[test]
fn sni_single_extension_body() {
    let sni_body = build_sni_body(&[(0x00, b"example.com")]);
    let ext = build_ext(0x0000, &sni_body);
    let data = raw_with_extensions(&ext);
    let hello = parse(&data).unwrap();
    assert_eq!(hello.server_name(), Some("example.com"));
}
