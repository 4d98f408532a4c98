//! The framer and the typed decoder, on replayed server bytes and on
//! crafted frames.
use pgwire::error::PgError;
use pgwire::message::{encode_password, encode_query, Message, Query, Terminate};
use pgwire::servermsg::{
    find_first, parse_available, parse_messages, slice_to_u16, slice_to_u32, take_cstring_plus_fixed,
    take_msg, take_sized_string, AuthMsg, FieldDescription, FieldFormat, ServerMsg,
};

#[test]
fn test_take_msg() {
    let buffer = [69, 0, 0, 0, 5, 1, 72, 0, 0, 0, 12, 1, 2, 3, 4, 5, 6, 7, 8];
    let (first, rest) = take_msg(&buffer).unwrap();
    assert_eq!(first, [69, 0, 0, 0, 5, 1]);
    let (second, nothing) = take_msg(rest).unwrap();
    assert_eq!(second, [72, 0, 0, 0, 12, 1, 2, 3, 4, 5, 6, 7, 8]);
    assert_eq!(nothing, []);
}

#[test]
fn test_server_startup_response_parsing() {
    let buffer = b"R\x00\x00\x00\x08\x00\x00\x00\x00S\x00\x00\x00\x16application_name\x00\x00S\x00\x00\x00\x19client_encoding\x00UTF8\x00S\x00\x00\x00\x17DateStyle\x00ISO, MDY\x00S\x00\x00\x00\x19integer_datetimes\x00on\x00S\x00\x00\x00\x1bIntervalStyle\x00postgres\x00S\x00\x00\x00\x15is_superuser\x00off\x00S\x00\x00\x00\x19server_encoding\x00UTF8\x00S\x00\x00\x00\x19server_version\x009.6.1\x00S\x00\x00\x00 session_authorization\x00cliff\x00S\x00\x00\x00#standard_conforming_strings\x00on\x00S\x00\x00\x00\x18TimeZone\x00US/Eastern\x00K\x00\x00\x00\x0c\x00\x00\x17\xbb\x15b\xfb1Z\x00\x00\x00\x05I";
    let (next, buffer) = take_msg(buffer).unwrap();
    let msg = ServerMsg::from_slice(next).unwrap();
    assert_eq!(msg, ServerMsg::Auth(AuthMsg::AuthOk));
    assert_eq!(buffer.len(), 314);

    let (next, buffer) = take_msg(buffer).unwrap();
    let msg = ServerMsg::from_slice(next).unwrap();
    assert_eq!(msg, ServerMsg::ParamStatus("application_name".to_string(), "".to_string()));
    assert_eq!(buffer.len(), 291);

    let (next, buffer) = take_msg(buffer).unwrap();
    let msg = ServerMsg::from_slice(next).unwrap();
    assert_eq!(msg, ServerMsg::ParamStatus("client_encoding".to_string(), "UTF8".to_string()));
    assert_eq!(buffer.len(), 265);

    let (next, buffer) = take_msg(buffer).unwrap();
    let msg = ServerMsg::from_slice(next).unwrap();
    assert_eq!(msg, ServerMsg::ParamStatus("DateStyle".to_string(), "ISO, MDY".to_string()));
    assert_eq!(buffer.len(), 241);

    let (next, buffer) = take_msg(buffer).unwrap();
    let msg = ServerMsg::from_slice(next).unwrap();
    assert_eq!(msg, ServerMsg::ParamStatus("integer_datetimes".to_string(), "on".to_string()));
    assert_eq!(buffer.len(), 215);

    let (next, buffer) = take_msg(buffer).unwrap();
    let msg = ServerMsg::from_slice(next).unwrap();
    assert_eq!(msg, ServerMsg::ParamStatus("IntervalStyle".to_string(), "postgres".to_string()));
    assert_eq!(buffer.len(), 187);

    let (next, buffer) = take_msg(buffer).unwrap();
    let msg = ServerMsg::from_slice(next).unwrap();
    assert_eq!(msg, ServerMsg::ParamStatus("is_superuser".to_string(), "off".to_string()));
    assert_eq!(buffer.len(), 165);

    let (next, buffer) = take_msg(buffer).unwrap();
    let msg = ServerMsg::from_slice(next).unwrap();
    assert_eq!(msg, ServerMsg::ParamStatus("server_encoding".to_string(), "UTF8".to_string()));
    assert_eq!(buffer.len(), 139);

    let (next, buffer) = take_msg(buffer).unwrap();
    let msg = ServerMsg::from_slice(next).unwrap();
    assert_eq!(msg, ServerMsg::ParamStatus("server_version".to_string(), "9.6.1".to_string()));
    assert_eq!(buffer.len(), 113);

    let (next, buffer) = take_msg(buffer).unwrap();
    let msg = ServerMsg::from_slice(next).unwrap();
    assert_eq!(msg, ServerMsg::ParamStatus("session_authorization".to_string(), "cliff".to_string()));
    assert_eq!(buffer.len(), 80);

    let (next, buffer) = take_msg(buffer).unwrap();
    let msg = ServerMsg::from_slice(next).unwrap();
    assert_eq!(
        msg,
        ServerMsg::ParamStatus("standard_conforming_strings".to_string(), "on".to_string())
    );
    assert_eq!(buffer.len(), 44);

    let (next, buffer) = take_msg(buffer).unwrap();
    let msg = ServerMsg::from_slice(next).unwrap();
    assert_eq!(msg, ServerMsg::ParamStatus("TimeZone".to_string(), "US/Eastern".to_string()));
    assert_eq!(buffer.len(), 19);

    let (next, buffer) = take_msg(buffer).unwrap();
    let msg = ServerMsg::from_slice(next).unwrap();
    assert!(match msg {
        ServerMsg::BackendKeyData(..) => true,
        _ => false,
    });
    assert_eq!(buffer.len(), 6);

    let (next, buffer) = take_msg(buffer).unwrap();
    let msg = ServerMsg::from_slice(next).unwrap();
    assert_eq!(msg, ServerMsg::ReadyForQuery(b'I'));
    assert_eq!(buffer.len(), 0);

    assert!(take_msg(buffer).is_err())
}

#[test]
fn test_server_query_response_parsing() {
    let buffer = b"T\x00\x00\x00 \x00\x01version\x00\x00\x00\x00\x00\x00\x00\x00\x00\x00\x19\xff\xff\xff\xff\xff\xff\x00\x00D\x00\x00\x00_\x00\x01\x00\x00\x00UPostgreSQL 9.6.1 on x86_64-pc-linux-gnu, compiled by gcc (GCC) 6.2.1 20160830, 64-bitC\x00\x00\x00\rSELECT 1\x00Z\x00\x00\x00\x05I";

    let (next, buffer) = take_msg(buffer).unwrap();
    let msg = ServerMsg::from_slice(next).unwrap();
    assert_eq!(
        msg,
        ServerMsg::RowDescription(vec![FieldDescription {
            field_name: "version".to_string(),
            format: FieldFormat::Text,
        }])
    );
    assert_eq!(buffer.len(), 116);

    let (next, buffer) = take_msg(buffer).unwrap();
    let msg = ServerMsg::from_slice(next).unwrap();
    assert_eq!(
        msg,
        ServerMsg::DataRow(vec![Some(
            "PostgreSQL 9.6.1 on x86_64-pc-linux-gnu, compiled by gcc (GCC) 6.2.1 20160830, 64-bit"
                .to_string()
        )])
    );
    assert_eq!(buffer.len(), 20);

    let (next, buffer) = take_msg(buffer).unwrap();
    let msg = ServerMsg::from_slice(next).unwrap();
    assert_eq!(msg, ServerMsg::CommandComplete("SELECT 1".to_string()));
    assert_eq!(buffer.len(), 6);

    let (next, buffer) = take_msg(buffer).unwrap();
    let msg = ServerMsg::from_slice(next).unwrap();
    assert_eq!(msg, ServerMsg::ReadyForQuery(b'I'));
    assert_eq!(buffer.len(), 0);
}

#[test]
fn test_byte_utilities() {
    assert_eq!(slice_to_u32(&[0, 0, 0, 4]), 4);
    assert_eq!(slice_to_u32(&[0x12, 0x34, 0x56, 0x78]), 0x12345678);
    assert_eq!(slice_to_u16(&[0x12, 0x34]), 0x1234);
    assert_eq!(find_first(b"abc\0def", 0), Some(3));
    assert_eq!(find_first(b"abcdef", 0), None);
}

#[test]
fn test_take_cstring_plus_fixed() {
    let (s, fixed, extra) = take_cstring_plus_fixed(b"name\0ABCDEFtail", 6).unwrap();
    assert_eq!(s, "name");
    assert_eq!(fixed, b"ABCDEF");
    assert_eq!(extra, b"tail");
    assert!(take_cstring_plus_fixed(b"no terminator", 0).is_err());
    assert!(take_cstring_plus_fixed(b"short\0AB", 6).is_err());
}

#[test]
fn test_take_sized_string() {
    let (s, extra) = take_sized_string(b"\x00\x00\x00\x05hellorest").unwrap();
    assert_eq!(s, "hello");
    assert_eq!(extra, b"rest");
    assert!(take_sized_string(b"\x00\x00\x00\x09shor").is_err());
}

#[test]
fn test_round_trip_framing_of_encoder_output() {
    // take_msg returns each identifier-bearing encoder output whole, with
    // nothing left over.
    for frame in [
        Query { query: "SELECT version();".to_string() }.to_bytes(),
        encode_password("open sesame").unwrap(),
        Terminate.to_bytes(),
    ] {
        let (msg, rest) = take_msg(&frame).unwrap();
        assert_eq!(msg, &frame[..]);
        assert_eq!(rest, b"");
    }
}

#[test]
fn test_length_consistency() {
    let frame = encode_query("SELECT 1").unwrap();
    assert_eq!(slice_to_u32(&frame[1..5]) as usize + 1, frame.len());
    let startup = pgwire::message::encode_startup("cliff", None, vec![]).unwrap();
    assert_eq!(slice_to_u32(&startup[0..4]) as usize, startup.len());
}

#[test]
fn test_framer_progress_over_concatenation() {
    // A concatenation of frames is split back into exactly those frames.
    let frames = [
        encode_query("SELECT 1").unwrap(),
        encode_password("pw").unwrap(),
        Terminate.to_bytes(),
    ];
    let mut buffer: Vec<u8> = Vec::new();
    for f in &frames {
        buffer.extend_from_slice(f);
    }
    let mut rest: &[u8] = &buffer;
    for f in &frames {
        let (msg, more) = take_msg(rest).unwrap();
        assert_eq!(msg, &f[..]);
        rest = more;
    }
    assert_eq!(rest, b"");
}

#[test]
fn test_no_partial_acceptance() {
    // Every strict prefix of a frame is refused.
    let frame = encode_query("SELECT 1").unwrap();
    for k in 0..frame.len() {
        assert!(take_msg(&frame[..k]).is_err());
    }
}

#[test]
fn test_decode_of_encoded_client_frames() {
    // The decoder knows no client messages, so they surface as Unknown
    // with the identifier and the raw payload.
    let q = encode_query("SELECT 1").unwrap();
    assert_eq!(
        ServerMsg::from_slice(&q).unwrap(),
        ServerMsg::Unknown("Q".to_string(), b"SELECT 1\0".to_vec())
    );
    let p = encode_password("open sesame").unwrap();
    assert_eq!(
        ServerMsg::from_slice(&p).unwrap(),
        ServerMsg::Unknown("p".to_string(), b"open sesame\0".to_vec())
    );
    let t = Terminate.to_bytes();
    assert_eq!(ServerMsg::from_slice(&t).unwrap(), ServerMsg::Unknown("X".to_string(), vec![]));
}

#[test]
fn test_decode_of_server_style_frames() {
    // Server frames built by hand decode back to the values they encode.
    assert_eq!(
        ServerMsg::from_slice(b"S\x00\x00\x00\x0chost\0db\0").unwrap(),
        ServerMsg::ParamStatus("host".to_string(), "db".to_string())
    );
    assert_eq!(
        ServerMsg::from_slice(b"K\x00\x00\x00\x0c\x00\x00\x00\x2a\x00\x00\x01\x00").unwrap(),
        ServerMsg::BackendKeyData(42, 256)
    );
    assert_eq!(
        ServerMsg::from_slice(b"Z\x00\x00\x00\x05T").unwrap(),
        ServerMsg::ReadyForQuery(b'T')
    );
    assert_eq!(
        ServerMsg::from_slice(b"C\x00\x00\x00\x0dSELECT 1\0").unwrap(),
        ServerMsg::CommandComplete("SELECT 1".to_string())
    );
}

#[test]
fn test_auth_msg_variants() {
    assert_eq!(AuthMsg::from_slice(&[0, 0, 0, 0]).unwrap(), AuthMsg::AuthOk);
    assert_eq!(AuthMsg::from_slice(&[0, 0, 0, 2]).unwrap(), AuthMsg::Kerberos);
    assert_eq!(AuthMsg::from_slice(&[0, 0, 0, 3]).unwrap(), AuthMsg::Cleartext);
    assert_eq!(
        AuthMsg::from_slice(&[0, 0, 0, 5, 0x61, 0x62, 0x63, 0x64]).unwrap(),
        AuthMsg::Md5(b"abcd".to_vec())
    );
    assert_eq!(AuthMsg::from_slice(&[0, 0, 0, 6]).unwrap(), AuthMsg::ScmCredential);
    assert_eq!(AuthMsg::from_slice(&[0, 0, 0, 7]).unwrap(), AuthMsg::Gss);
    assert_eq!(
        AuthMsg::from_slice(&[0, 0, 0, 8, 1, 2, 3]).unwrap(),
        AuthMsg::GssContinue(vec![1, 2, 3])
    );
    assert_eq!(AuthMsg::from_slice(&[0, 0, 0, 9]).unwrap(), AuthMsg::Sspi);
    assert_eq!(AuthMsg::from_slice(&[0, 0, 0, 42]).unwrap(), AuthMsg::Unknown);
    // An MD5 challenge without its salt is refused.
    assert!(AuthMsg::from_slice(&[0, 0, 0, 5, 0x61]).is_err());
    assert!(AuthMsg::from_slice(&[0, 0]).is_err());
}

#[test]
fn test_data_row_null_and_empty_are_distinct() {
    // value count 2: one NULL (length -1), one empty string (length 0).
    let frame = b"D\x00\x00\x00\x0e\x00\x02\xff\xff\xff\xff\x00\x00\x00\x00";
    assert_eq!(
        ServerMsg::from_slice(frame).unwrap(),
        ServerMsg::DataRow(vec![None, Some("".to_string())])
    );
}

#[test]
fn test_binary_field_format() {
    let frame = b"T\x00\x00\x00\x1c\x00\x01col\x00\x00\x00\x00\x00\x00\x00\x00\x00\x00\x19\xff\xff\xff\xff\xff\xff\x00\x01";
    assert_eq!(
        ServerMsg::from_slice(frame).unwrap(),
        ServerMsg::RowDescription(vec![FieldDescription {
            field_name: "col".to_string(),
            format: FieldFormat::Binary,
        }])
    );
    // Any other format value is a protocol violation.
    let bad = b"T\x00\x00\x00\x1c\x00\x01col\x00\x00\x00\x00\x00\x00\x00\x00\x00\x00\x19\xff\xff\xff\xff\xff\xff\x00\x02";
    assert!(ServerMsg::from_slice(bad).is_err());
}

#[test]
fn test_error_response_fields_decoded_by_code() {
    // Severity, code, message, terminator.
    let frame = b"E\x00\x00\x00\x28SFATAL\0C28000\0Mrole does not exist\0\0";
    assert_eq!(
        ServerMsg::from_slice(frame).unwrap(),
        ServerMsg::ErrorResponse(vec![
            (b'S', "FATAL".to_string()),
            (b'C', "28000".to_string()),
            (b'M', "role does not exist".to_string()),
        ])
    );
    // A missing terminator is a protocol violation.
    assert!(ServerMsg::from_slice(b"E\x00\x00\x00\x0bSFATAL\0").is_err());
}

#[test]
fn test_utf8_errors_are_distinguished() {
    // 0xff can never appear in UTF-8 text.
    let bad_param = b"S\x00\x00\x00\x09\xff\x00ok\x00";
    assert_eq!(ServerMsg::from_slice(bad_param).unwrap_err(), PgError::Utf8);
    // A non-ASCII identifier byte is also a UTF-8 error, as the identifier
    // is surfaced as text.
    let bad_id = b"\xff\x00\x00\x00\x04";
    assert_eq!(ServerMsg::from_slice(bad_id).unwrap_err(), PgError::Utf8);
    // Multi-byte UTF-8 text decodes intact.
    let frame = b"S\x00\x00\x00\x14motto\0caf\xc3\xa9 \xe2\x9c\x93\0";
    assert_eq!(
        ServerMsg::from_slice(frame).unwrap(),
        ServerMsg::ParamStatus("motto".to_string(), "caf\u{e9} \u{2713}".to_string())
    );
}

#[test]
fn test_parse_messages_whole_buffer() {
    let buffer = b"Z\x00\x00\x00\x05IZ\x00\x00\x00\x05T";
    let msgs = parse_messages(buffer).unwrap();
    assert_eq!(msgs, vec![ServerMsg::ReadyForQuery(b'I'), ServerMsg::ReadyForQuery(b'T')]);
    // A trailing partial frame fails the strict parse.
    assert!(parse_messages(b"Z\x00\x00\x00\x05IZ\x00\x00").is_err());
}

#[test]
fn test_parse_available_keeps_partial_tail() {
    let buffer = b"Z\x00\x00\x00\x05IZ\x00\x00";
    let (msgs, consumed) = parse_available(buffer).unwrap();
    assert_eq!(msgs, vec![ServerMsg::ReadyForQuery(b'I')]);
    assert_eq!(consumed, 6);
    // Completing the partial frame yields the second message.
    let mut rest = buffer[consumed..].to_vec();
    rest.extend_from_slice(b"\x00\x05T");
    let (msgs2, consumed2) = parse_available(&rest).unwrap();
    assert_eq!(msgs2, vec![ServerMsg::ReadyForQuery(b'T')]);
    assert_eq!(consumed2, 6);
}

#[test]
fn test_wrong_declared_length_is_protocol_error() {
    // The frame says 6 bytes follow the identifier but 5 do.
    let r = ServerMsg::from_slice(b"Z\x00\x00\x00\x06I");
    assert!(matches!(r, Err(PgError::Protocol(_))));
}
