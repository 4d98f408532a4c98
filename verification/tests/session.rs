//! The pure state machine: startup bursts, MD5 challenges, query bursts.
use pgwire::auth::build_md5_hash;
use pgwire::connection::{
    handle_auth, handle_server_info, process_query_messages, process_startup_messages,
    query_result, startup_result, ConnectionState, QueryOutcome,
};
use pgwire::error::PgError;
use pgwire::message::encode_password;
use pgwire::servermsg::{parse_messages, AuthMsg, ServerMsg};

const STARTUP_FIXTURE: &[u8] = b"R\x00\x00\x00\x08\x00\x00\x00\x00S\x00\x00\x00\x16application_name\x00\x00S\x00\x00\x00\x19client_encoding\x00UTF8\x00S\x00\x00\x00\x17DateStyle\x00ISO, MDY\x00S\x00\x00\x00\x19integer_datetimes\x00on\x00S\x00\x00\x00\x1bIntervalStyle\x00postgres\x00S\x00\x00\x00\x15is_superuser\x00off\x00S\x00\x00\x00\x19server_encoding\x00UTF8\x00S\x00\x00\x00\x19server_version\x009.6.1\x00S\x00\x00\x00 session_authorization\x00cliff\x00S\x00\x00\x00#standard_conforming_strings\x00on\x00S\x00\x00\x00\x18TimeZone\x00US/Eastern\x00K\x00\x00\x00\x0c\x00\x00\x17\xbb\x15b\xfb1Z\x00\x00\x00\x05I";

#[test]
fn test_startup_burst_reaches_ready_for_query() {
    let msgs = parse_messages(STARTUP_FIXTURE).unwrap();
    assert_eq!(msgs.len(), 14);
    let (state, outputs) = process_startup_messages(
        ConnectionState::AwaitingAuthResponse,
        &msgs,
        "cliff",
        "secret",
    )
    .unwrap();
    assert_eq!(state, ConnectionState::ReadyForQuery);
    // Plain authentication success asks nothing back from the client.
    assert!(outputs.is_empty());
    assert!(startup_result(state).is_ok());
}

#[test]
fn test_startup_rejects_trailing_messages() {
    // The same burst with one more frame after ReadyForQuery must fail.
    let mut bytes = STARTUP_FIXTURE.to_vec();
    bytes.extend_from_slice(b"Z\x00\x00\x00\x05I");
    let msgs = parse_messages(&bytes).unwrap();
    let r = process_startup_messages(
        ConnectionState::AwaitingAuthResponse,
        &msgs,
        "cliff",
        "secret",
    );
    assert!(matches!(r, Err(PgError::Protocol(_))));
}

#[test]
fn test_md5_challenge_produces_password_frame() {
    let challenge = ServerMsg::Auth(AuthMsg::Md5(b"abcd".to_vec()));
    let (state, out) = handle_auth(&challenge, "cliff", "secret").unwrap();
    assert_eq!(state, ConnectionState::AwaitingAuthResponse);
    let expected = encode_password(&build_md5_hash("cliff", "secret", b"abcd")).unwrap();
    assert_eq!(out.unwrap(), expected);
}

#[test]
fn test_cleartext_challenge_sends_password() {
    let challenge = ServerMsg::Auth(AuthMsg::Cleartext);
    let (state, out) = handle_auth(&challenge, "cliff", "secret").unwrap();
    assert_eq!(state, ConnectionState::AwaitingAuthResponse);
    assert_eq!(out.unwrap(), encode_password("secret").unwrap());
}

#[test]
fn test_unsupported_auth_method_is_unauthenticated() {
    let challenge = ServerMsg::Auth(AuthMsg::Kerberos);
    assert_eq!(handle_auth(&challenge, "cliff", "secret").unwrap_err(), PgError::Unauthenticated);
}

#[test]
fn test_error_during_auth_rejects_and_surfaces_unauthenticated() {
    let error = ServerMsg::ErrorResponse(vec![
        (b'S', "FATAL".to_string()),
        (b'M', "password authentication failed".to_string()),
    ]);
    let (state, out) = handle_auth(&error, "cliff", "secret").unwrap();
    assert_eq!(state, ConnectionState::AuthenticationRejected);
    assert!(out.is_none());
    assert_eq!(
        process_startup_messages(
            ConnectionState::AuthenticationRejected,
            &vec![],
            "cliff",
            "secret"
        )
        .unwrap()
        .0,
        ConnectionState::AuthenticationRejected
    );
    assert_eq!(
        startup_result(ConnectionState::AuthenticationRejected).unwrap_err(),
        PgError::Unauthenticated
    );
}

#[test]
fn test_error_after_auth_surfaces_server_fields() {
    let error = ServerMsg::ErrorResponse(vec![(b'M', "too many connections".to_string())]);
    let r = handle_server_info(&error);
    assert_eq!(
        r.unwrap_err(),
        PgError::Server(vec![(b'M', "too many connections".to_string())])
    );
}

#[test]
fn test_query_burst_collects_rows() {
    let buffer = b"T\x00\x00\x00 \x00\x01version\x00\x00\x00\x00\x00\x00\x00\x00\x00\x00\x19\xff\xff\xff\xff\xff\xff\x00\x00D\x00\x00\x00_\x00\x01\x00\x00\x00UPostgreSQL 9.6.1 on x86_64-pc-linux-gnu, compiled by gcc (GCC) 6.2.1 20160830, 64-bitC\x00\x00\x00\rSELECT 1\x00Z\x00\x00\x00\x05I";
    let msgs = parse_messages(buffer).unwrap();
    let mut out = QueryOutcome::new();
    let state =
        process_query_messages(ConnectionState::AwaitingQueryResponse, &msgs, &mut out).unwrap();
    assert_eq!(state, ConnectionState::ReadyForQuery);
    assert!(out.done);
    assert_eq!(out.tag, Some("SELECT 1".to_string()));
    let fields = out.fields.as_ref().unwrap();
    assert_eq!(fields.len(), 1);
    assert_eq!(fields[0].field_name, "version");
    let rows = query_result(out).unwrap();
    assert_eq!(rows.len(), 1);
    assert!(rows[0][0].as_ref().unwrap().starts_with("PostgreSQL "));
}

#[test]
fn test_query_burst_defers_server_error() {
    let bytes = b"E\x00\x00\x00\x1eSERROR\0Mdivision by zero\0\0Z\x00\x00\x00\x05I";
    let msgs = parse_messages(bytes).unwrap();
    let mut out = QueryOutcome::new();
    let state =
        process_query_messages(ConnectionState::AwaitingQueryResponse, &msgs, &mut out).unwrap();
    // The burst still closes in ReadyForQuery: the session survives.
    assert_eq!(state, ConnectionState::ReadyForQuery);
    assert!(out.done);
    let err = query_result(out).unwrap_err();
    assert_eq!(
        err,
        PgError::Server(vec![
            (b'S', "ERROR".to_string()),
            (b'M', "division by zero".to_string()),
        ])
    );
}

#[test]
fn test_query_burst_rejects_data_after_ready() {
    let bytes = b"Z\x00\x00\x00\x05IC\x00\x00\x00\x0dSELECT 1\x00";
    let msgs = parse_messages(bytes).unwrap();
    let mut out = QueryOutcome::new();
    let r = process_query_messages(ConnectionState::AwaitingQueryResponse, &msgs, &mut out);
    assert!(matches!(r, Err(PgError::Protocol(_))));
}

#[test]
fn test_query_burst_rejects_mismatched_row_width() {
    // One-column description followed by a two-value row.
    let bytes = b"T\x00\x00\x00\x1c\x00\x01col\x00\x00\x00\x00\x00\x00\x00\x00\x00\x00\x19\xff\xff\xff\xff\xff\xff\x00\x00D\x00\x00\x00\x10\x00\x02\x00\x00\x00\x01a\x00\x00\x00\x01b";
    let msgs = parse_messages(bytes).unwrap();
    let mut out = QueryOutcome::new();
    let r = process_query_messages(ConnectionState::AwaitingQueryResponse, &msgs, &mut out);
    assert!(matches!(r, Err(PgError::Protocol(_))));
}

#[test]
fn test_query_burst_collects_notices() {
    let bytes = b"N\x00\x00\x00\x1bSNOTICE\0Mtable exists\0\0C\x00\x00\x00\x0bCREATE\x00Z\x00\x00\x00\x05I";
    let msgs = parse_messages(bytes).unwrap();
    let mut out = QueryOutcome::new();
    process_query_messages(ConnectionState::AwaitingQueryResponse, &msgs, &mut out).unwrap();
    assert_eq!(out.notices.len(), 1);
    assert_eq!(out.notices[0][1], (b'M', "table exists".to_string()));
    assert_eq!(out.tag, Some("CREATE".to_string()));
    assert!(query_result(out).unwrap().is_empty());
}

#[test]
fn test_describe_picks_server_message_field() {
    let err = PgError::Server(vec![
        (b'S', "ERROR".to_string()),
        (b'C', "42601".to_string()),
        (b'M', "syntax error at or near \"SELEC\"".to_string()),
    ]);
    assert_eq!(err.describe(), "syntax error at or near \"SELEC\"");
    assert_eq!(PgError::Server(vec![(b'S', "ERROR".to_string())]).describe(), "");
    assert_eq!(PgError::Io("connection reset".to_string()).describe(), "connection reset");
    assert_eq!(PgError::Unauthenticated.describe(), "authentication failed");
}
