//! The pure part of the connection state machine: how a session moves from
//! startup through authentication to `ReadyForQuery`, and how the frames of
//! a query response are folded into a result. Socket reads and writes stay
//! outside; callers hand decoded messages in and send the returned frames
//! out.
use vstd::prelude::*;

use crate::auth::{build_md5_hash, md5_hex_of};
use crate::error::{ErrView, PgError};
use crate::message::{cstr_bytes, encode_password, spec_frame};
use crate::servermsg::{
    fields_view, msgs_view, pairs_view, values_view, FieldDescription, FieldDescriptionV,
    ServerMsg, ServerMsgV,
};
use crate::servermsg::AuthMsgV;
use vstd::utf8::encode_utf8;

verus! {

/// Where a session stands: born `New`, through authentication, to
/// `ReadyForQuery`, and finally `Disconnected`.
#[derive(Copy, Clone, Debug, Eq, PartialEq, Structural)]
pub enum ConnectionState {
    New,
    AwaitingAuthResponse,
    Authenticated,
    AuthenticationRejected,
    ReadyForQuery,
    AwaitingQueryResponse,
    AwaitingDataRows,
    Disconnected,
}

/// The characters of the MD5 password response for the given credentials
/// and salt.
pub open spec fn md5_hash_chars(user: Seq<char>, password: Seq<char>, salt: Seq<u8>) -> Seq<char> {
    "md5"@ + md5_hex_of(encode_utf8(md5_hex_of(encode_utf8(password) + encode_utf8(user))) + salt)
}

/// The full password-message frame answering an MD5 challenge.
pub open spec fn md5_password_frame(user: Seq<char>, password: Seq<char>, salt: Seq<u8>) -> Seq<
    u8,
> {
    spec_frame(Some(0x70u8), cstr_bytes(md5_hash_chars(user, password, salt)))
}

/// One step of the startup machine in state `AwaitingAuthResponse`: what
/// the table of the startup handshake prescribes for each message.
pub open spec fn spec_handle_auth(
    msg: ServerMsgV,
    user: Seq<char>,
    password: Seq<char>,
) -> Result<(ConnectionState, Option<Seq<u8>>), ErrView> {
    match msg {
        ServerMsgV::Auth(AuthMsgV::AuthOk) => Ok((ConnectionState::Authenticated, None)),
        ServerMsgV::Auth(AuthMsgV::Md5(salt)) => Ok(
            (
                ConnectionState::AwaitingAuthResponse,
                Some(md5_password_frame(user, password, salt)),
            ),
        ),
        ServerMsgV::Auth(AuthMsgV::Cleartext) => if encode_utf8(password).len() + 5 <= u32::MAX {
            Ok(
                (
                    ConnectionState::AwaitingAuthResponse,
                    Some(spec_frame(Some(0x70u8), cstr_bytes(password))),
                ),
            )
        } else {
            Err(ErrView::Other)
        },
        ServerMsgV::Auth(_) => Err(ErrView::Unauthenticated),
        ServerMsgV::ErrorResponse(_) => Ok((ConnectionState::AuthenticationRejected, None)),
        _ => Err(ErrView::Protocol),
    }
}

/// One step of the startup machine in state `Authenticated`: parameter
/// reports and notices are taken in stride, `ReadyForQuery` finishes the
/// startup, a server error is fatal.
pub open spec fn spec_handle_server_info(msg: ServerMsgV) -> Result<ConnectionState, ErrView> {
    match msg {
        ServerMsgV::ReadyForQuery(_) => Ok(ConnectionState::ReadyForQuery),
        ServerMsgV::ErrorResponse(fields) => Err(ErrView::Server(fields)),
        _ => Ok(ConnectionState::Authenticated),
    }
}

/// Runs the startup machine over a queue of decoded messages. Messages
/// after a `ReadyForQuery` are a protocol violation; after a rejection the
/// rest of the queue is left alone.
pub open spec fn spec_startup(
    state: ConnectionState,
    msgs: Seq<ServerMsgV>,
    user: Seq<char>,
    password: Seq<char>,
) -> Result<(ConnectionState, Seq<Seq<u8>>), ErrView>
    decreases msgs.len(),
{
    if msgs.len() == 0 {
        Ok((state, Seq::empty()))
    } else {
        match state {
            ConnectionState::AwaitingAuthResponse => match spec_handle_auth(
                msgs[0],
                user,
                password,
            ) {
                Err(e) => Err(e),
                Ok((st2, out)) => match spec_startup(st2, msgs.drop_first(), user, password) {
                    Err(e) => Err(e),
                    Ok((fin, outs)) => Ok(
                        (
                            fin,
                            (match out {
                                Some(b) => seq![b],
                                None => Seq::empty(),
                            }) + outs,
                        ),
                    ),
                },
            },
            ConnectionState::Authenticated => match spec_handle_server_info(msgs[0]) {
                Err(e) => Err(e),
                Ok(st2) => spec_startup(st2, msgs.drop_first(), user, password),
            },
            ConnectionState::ReadyForQuery => Err(ErrView::Protocol),
            ConnectionState::AuthenticationRejected => Ok(
                (ConnectionState::AuthenticationRejected, Seq::empty()),
            ),
            _ => Err(ErrView::Protocol),
        }
    }
}

/// View of a queue of outbound frames.
pub open spec fn outs_view(s: Seq<Vec<u8>>) -> Seq<Seq<u8>> {
    Seq::new(s.len(), |i: int| s[i]@)
}

/// Copies a (field code, text) list.
fn clone_pairs(fields: &Vec<(u8, String)>) -> (r: Vec<(u8, String)>)
    ensures
        pairs_view(r@) == pairs_view(fields@),
{
    let mut r: Vec<(u8, String)> = Vec::new();
    let mut i: usize = 0;
    while i < fields.len()
        invariant
            i <= fields@.len(),
            r@.len() == i,
            forall|j: int| 0 <= j < i ==> r@[j].0 == fields@[j].0 && r@[j].1@ == fields@[j].1@,
        decreases fields@.len() - i,
    {
        let pair = &fields[i];
        r.push((pair.0, pair.1.clone()));
        i = i + 1;
    }
    proof {
        assert(pairs_view(r@) =~= pairs_view(fields@));
    }
    r
}

/// One step of the startup machine in state `AwaitingAuthResponse`.
pub fn handle_auth(msg: &ServerMsg, user: &str, password: &str) -> (r: Result<
    (ConnectionState, Option<Vec<u8>>),
    PgError,
>)
    ensures
        match r {
            Ok((st, out)) => spec_handle_auth(msg@, user@, password@) == Ok::<
                (ConnectionState, Option<Seq<u8>>),
                ErrView,
            >(
                (
                    st,
                    match out {
                        Some(b) => Some(b@),
                        None => None,
                    },
                ),
            ),
            Err(e) => spec_handle_auth(msg@, user@, password@) == Err::<
                (ConnectionState, Option<Seq<u8>>),
                ErrView,
            >(e@),
        },
{
    match msg {
        ServerMsg::Auth(auth) => match auth {
            crate::servermsg::AuthMsg::AuthOk => Ok((ConnectionState::Authenticated, None)),
            crate::servermsg::AuthMsg::Md5(salt) => {
                let hash = build_md5_hash(user, password, salt.as_slice());
                match encode_password(hash.as_str()) {
                    Ok(frame) => Ok((ConnectionState::AwaitingAuthResponse, Some(frame))),
                    Err(e) => {
                        proof {
                            assert(false);
                        }
                        Err(e)
                    },
                }
            },
            crate::servermsg::AuthMsg::Cleartext => match encode_password(password) {
                Ok(frame) => Ok((ConnectionState::AwaitingAuthResponse, Some(frame))),
                Err(e) => Err(e),
            },
            _ => Err(PgError::Unauthenticated),
        },
        ServerMsg::ErrorResponse(_) => Ok((ConnectionState::AuthenticationRejected, None)),
        _ => Err(PgError::Protocol("unexpected message while awaiting authentication".to_owned())),
    }
}

/// One step of the startup machine in state `Authenticated`.
pub fn handle_server_info(msg: &ServerMsg) -> (r: Result<ConnectionState, PgError>)
    ensures
        match r {
            Ok(st) => spec_handle_server_info(msg@) == Ok::<ConnectionState, ErrView>(st),
            Err(e) => spec_handle_server_info(msg@) == Err::<ConnectionState, ErrView>(e@),
        },
{
    match msg {
        ServerMsg::ReadyForQuery(_) => Ok(ConnectionState::ReadyForQuery),
        ServerMsg::ErrorResponse(fields) => {
            let copied = clone_pairs(fields);
            proof {
                assert(PgError::Server(copied)@ == ErrView::Server(pairs_view(fields@)));
            }
            Err(PgError::Server(copied))
        },
        _ => Ok(ConnectionState::Authenticated),
    }
}

/// Runs the startup machine over a queue of decoded messages, returning
/// the final state and the frames to send back (password responses, in
/// order).
#[verifier::loop_isolation(false)]
pub fn process_startup_messages(
    state: ConnectionState,
    msgs: &Vec<ServerMsg>,
    user: &str,
    password: &str,
) -> (r: Result<(ConnectionState, Vec<Vec<u8>>), PgError>)
    ensures
        match r {
            Ok((st, outs)) => spec_startup(state, msgs_view(msgs@), user@, password@) == Ok::<
                (ConnectionState, Seq<Seq<u8>>),
                ErrView,
            >((st, outs_view(outs@))),
            Err(e) => spec_startup(state, msgs_view(msgs@), user@, password@) == Err::<
                (ConnectionState, Seq<Seq<u8>>),
                ErrView,
            >(e@),
        },
{
    let mut st = state;
    let mut outputs: Vec<Vec<u8>> = Vec::new();
    let mut i: usize = 0;
    proof {
        assert(outs_view(outputs@) =~= Seq::<Seq<u8>>::empty());
        assert(msgs_view(msgs@).skip(0) =~= msgs_view(msgs@));
    }
    while i < msgs.len()
        invariant
            i <= msgs@.len(),
            spec_startup(state, msgs_view(msgs@), user@, password@) == (match spec_startup(
                st,
                msgs_view(msgs@).skip(i as int),
                user@,
                password@,
            ) {
                Ok((fin, outs)) => Ok::<(ConnectionState, Seq<Seq<u8>>), ErrView>(
                    (fin, outs_view(outputs@) + outs),
                ),
                Err(e) => Err::<(ConnectionState, Seq<Seq<u8>>), ErrView>(e),
            }),
        decreases msgs@.len() - i,
    {
        let ghost rest = msgs_view(msgs@).skip(i as int);
        proof {
            assert(rest[0] == msgs@[i as int]@);
            assert(rest.drop_first() =~= msgs_view(msgs@).skip(i as int + 1));
        }
        match st {
            ConnectionState::AwaitingAuthResponse => {
                match handle_auth(&msgs[i], user, password) {
                    Ok((st2, out)) => {
                        st = st2;
                        let ghost old_outs = outs_view(outputs@);
                        match out {
                            Some(frame) => {
                                outputs.push(frame);
                                proof {
                                    let pushed = outs_view(outputs@)[old_outs.len() as int];
                                    assert(outs_view(outputs@) =~= old_outs + seq![pushed]);
                                    match spec_startup(
                                        st,
                                        msgs_view(msgs@).skip(i as int + 1),
                                        user@,
                                        password@,
                                    ) {
                                        Ok((fin, outs)) => {
                                            assert(old_outs + (seq![pushed] + outs) =~= (old_outs
                                                + seq![pushed]) + outs);
                                        },
                                        Err(_) => {},
                                    }
                                }
                            },
                            None => {
                                proof {
                                    match spec_startup(
                                        st,
                                        msgs_view(msgs@).skip(i as int + 1),
                                        user@,
                                        password@,
                                    ) {
                                        Ok((fin, outs)) => {
                                            assert(Seq::<Seq<u8>>::empty() + outs =~= outs);
                                        },
                                        Err(_) => {},
                                    }
                                }
                            },
                        }
                    },
                    Err(e) => {
                        return Err(e);
                    },
                }
            },
            ConnectionState::Authenticated => {
                match handle_server_info(&msgs[i]) {
                    Ok(st2) => {
                        st = st2;
                    },
                    Err(e) => {
                        return Err(e);
                    },
                }
            },
            ConnectionState::ReadyForQuery => {
                return Err(PgError::Protocol("unexpected message after ready for query".to_owned()));
            },
            ConnectionState::AuthenticationRejected => {
                proof {
                    assert(outs_view(outputs@) + Seq::<Seq<u8>>::empty() =~= outs_view(outputs@));
                }
                return Ok((st, outputs));
            },
            _ => {
                return Err(PgError::Protocol("invalid startup state".to_owned()));
            },
        }
        i = i + 1;
    }
    proof {
        assert(msgs_view(msgs@).skip(msgs@.len() as int) =~= Seq::<ServerMsgV>::empty());
        assert(outs_view(outputs@) + Seq::<Seq<u8>>::empty() =~= outs_view(outputs@));
    }
    Ok((st, outputs))
}

/// The mathematical value of a [`QueryOutcome`].
pub struct QueryOutcomeV {
    pub rows: Seq<Seq<Option<Seq<char>>>>,
    pub notices: Seq<Seq<(u8, Seq<char>)>>,
    pub fields: Option<Seq<FieldDescriptionV>>,
    pub tag: Option<Seq<char>>,
    pub server_error: Option<Seq<(u8, Seq<char>)>>,
    pub done: bool,
}

/// What a query burst accumulates: the rows, the notices, the row
/// description, the last command tag, a deferred server error, and whether
/// the closing `ReadyForQuery` has been seen.
pub struct QueryOutcome {
    pub rows: Vec<Vec<Option<String>>>,
    pub notices: Vec<Vec<(u8, String)>>,
    pub fields: Option<Vec<FieldDescription>>,
    pub tag: Option<String>,
    pub server_error: Option<Vec<(u8, String)>>,
    pub done: bool,
}

/// View of a list of rows.
pub open spec fn rows_view(s: Seq<Vec<Option<String>>>) -> Seq<Seq<Option<Seq<char>>>> {
    Seq::new(s.len(), |i: int| values_view(s[i]@))
}

/// View of a list of notices.
pub open spec fn notices_view(s: Seq<Vec<(u8, String)>>) -> Seq<Seq<(u8, Seq<char>)>> {
    Seq::new(s.len(), |i: int| pairs_view(s[i]@))
}

impl View for QueryOutcome {
    type V = QueryOutcomeV;

    open spec fn view(&self) -> QueryOutcomeV {
        QueryOutcomeV {
            rows: rows_view(self.rows@),
            notices: notices_view(self.notices@),
            fields: match self.fields {
                Some(ref f) => Some(fields_view(f@)),
                None => None,
            },
            tag: match self.tag {
                Some(ref t) => Some(t@),
                None => None,
            },
            server_error: match self.server_error {
                Some(ref e) => Some(pairs_view(e@)),
                None => None,
            },
            done: self.done,
        }
    }
}

impl QueryOutcome {
    /// An empty outcome, ready to fold a query burst into.
    pub fn new() -> (r: QueryOutcome)
        ensures
            r@ == (QueryOutcomeV {
                rows: Seq::empty(),
                notices: Seq::empty(),
                fields: None,
                tag: None,
                server_error: None,
                done: false,
            }),
    {
        let r = QueryOutcome {
            rows: Vec::new(),
            notices: Vec::new(),
            fields: None,
            tag: None,
            server_error: None,
            done: false,
        };
        proof {
            assert(rows_view(r.rows@) =~= Seq::<Seq<Option<Seq<char>>>>::empty());
            assert(notices_view(r.notices@) =~= Seq::<Seq<(u8, Seq<char>)>>::empty());
        }
        r
    }
}

/// One step of the query machine: what each message of a query response
/// does to the accumulated outcome. A data row must match the field count
/// of the row description when one has been seen; a server error is
/// deferred (first one kept); messages that have no place in a query burst
/// are protocol violations.
pub open spec fn spec_query_step(
    state: ConnectionState,
    out: QueryOutcomeV,
    msg: ServerMsgV,
) -> Result<(ConnectionState, QueryOutcomeV), ErrView> {
    match msg {
        ServerMsgV::DataRow(vals) => {
            if match out.fields {
                Some(fds) => vals.len() == fds.len(),
                None => true,
            } {
                Ok((state, QueryOutcomeV { rows: out.rows.push(vals), ..out }))
            } else {
                Err(ErrView::Protocol)
            }
        },
        ServerMsgV::RowDescription(fds) => Ok(
            (
                ConnectionState::AwaitingDataRows,
                QueryOutcomeV { fields: Some(fds), ..out },
            ),
        ),
        ServerMsgV::CommandComplete(t) => Ok((state, QueryOutcomeV { tag: Some(t), ..out })),
        ServerMsgV::NoticeResponse(fs) => Ok(
            (state, QueryOutcomeV { notices: out.notices.push(fs), ..out }),
        ),
        ServerMsgV::ErrorResponse(fs) => Ok(
            (
                state,
                QueryOutcomeV {
                    server_error: match out.server_error {
                        Some(first) => Some(first),
                        None => Some(fs),
                    },
                    ..out
                },
            ),
        ),
        ServerMsgV::ReadyForQuery(_) => Ok(
            (ConnectionState::ReadyForQuery, QueryOutcomeV { done: true, ..out }),
        ),
        _ => Err(ErrView::Protocol),
    }
}

/// Folds a queue of decoded messages into a query outcome. Messages after
/// the closing `ReadyForQuery` are a protocol violation.
pub open spec fn spec_query(
    state: ConnectionState,
    out: QueryOutcomeV,
    msgs: Seq<ServerMsgV>,
) -> Result<(ConnectionState, QueryOutcomeV), ErrView>
    decreases msgs.len(),
{
    if msgs.len() == 0 {
        Ok((state, out))
    } else if out.done {
        Err(ErrView::Protocol)
    } else {
        match spec_query_step(state, out, msgs[0]) {
            Err(e) => Err(e),
            Ok((s2, o2)) => spec_query(s2, o2, msgs.drop_first()),
        }
    }
}

/// Copies a list of nullable text values.
fn clone_values(vals: &Vec<Option<String>>) -> (r: Vec<Option<String>>)
    ensures
        values_view(r@) == values_view(vals@),
{
    let mut r: Vec<Option<String>> = Vec::new();
    let mut i: usize = 0;
    while i < vals.len()
        invariant
            i <= vals@.len(),
            r@.len() == i,
            forall|j: int|
                0 <= j < i ==> (match (#[trigger] r@[j]) {
                    Some(a) => vals@[j] matches Some(b) && a@ == b@,
                    None => vals@[j] is None,
                }),
        decreases vals@.len() - i,
    {
        match &vals[i] {
            Some(s) => r.push(Some(s.clone())),
            None => r.push(None),
        }
        i = i + 1;
    }
    proof {
        assert(values_view(r@) =~= values_view(vals@));
    }
    r
}

/// Copies a list of field descriptions.
fn clone_fields(fds: &Vec<FieldDescription>) -> (r: Vec<FieldDescription>)
    ensures
        fields_view(r@) == fields_view(fds@),
{
    let mut r: Vec<FieldDescription> = Vec::new();
    let mut i: usize = 0;
    while i < fds.len()
        invariant
            i <= fds@.len(),
            r@.len() == i,
            forall|j: int| 0 <= j < i ==> r@[j]@ == fds@[j]@,
        decreases fds@.len() - i,
    {
        let fd = &fds[i];
        r.push(FieldDescription { field_name: fd.field_name.clone(), format: fd.format });
        i = i + 1;
    }
    proof {
        assert(fields_view(r@) =~= fields_view(fds@));
    }
    r
}

/// Folds a queue of decoded messages into the outcome of a running query.
/// On an error the outcome is unusable and the session must be discarded.
#[verifier::loop_isolation(false)]
pub fn process_query_messages(
    state: ConnectionState,
    msgs: &Vec<ServerMsg>,
    out: &mut QueryOutcome,
) -> (r: Result<ConnectionState, PgError>)
    ensures
        match r {
            Ok(st) => spec_query(state, old(out)@, msgs_view(msgs@)) == Ok::<
                (ConnectionState, QueryOutcomeV),
                ErrView,
            >((st, final(out)@)),
            Err(e) => spec_query(state, old(out)@, msgs_view(msgs@)) == Err::<
                (ConnectionState, QueryOutcomeV),
                ErrView,
            >(e@),
        },
{
    let mut st = state;
    let mut i: usize = 0;
    proof {
        assert(msgs_view(msgs@).skip(0) =~= msgs_view(msgs@));
    }
    while i < msgs.len()
        invariant
            i <= msgs@.len(),
            spec_query(state, old(out)@, msgs_view(msgs@)) == spec_query(
                st,
                out@,
                msgs_view(msgs@).skip(i as int),
            ),
        decreases msgs@.len() - i,
    {
        let ghost rest = msgs_view(msgs@).skip(i as int);
        proof {
            assert(rest[0] == msgs@[i as int]@);
            assert(rest.drop_first() =~= msgs_view(msgs@).skip(i as int + 1));
        }
        if out.done {
            return Err(PgError::Protocol("received data after ready for query".to_owned()));
        }
        let ghost old_out = out@;
        match &msgs[i] {
            ServerMsg::DataRow(vals) => {
                let count_ok = match &out.fields {
                    Some(fds) => vals.len() == fds.len(),
                    None => true,
                };
                if !count_ok {
                    return Err(
                        PgError::Protocol("data row does not match row description".to_owned()),
                    );
                }
                let copied = clone_values(vals);
                out.rows.push(copied);
                proof {
                    assert(rows_view(out.rows@) =~= old_out.rows.push(values_view(vals@)));
                    assert(out@ == QueryOutcomeV { rows: old_out.rows.push(values_view(vals@)), ..old_out });
                }
            },
            ServerMsg::RowDescription(fds) => {
                let copied = clone_fields(fds);
                out.fields = Some(copied);
                st = ConnectionState::AwaitingDataRows;
                proof {
                    assert(out@ == QueryOutcomeV { fields: Some(fields_view(fds@)), ..old_out });
                }
            },
            ServerMsg::CommandComplete(t) => {
                out.tag = Some(t.clone());
                proof {
                    assert(out@ == QueryOutcomeV { tag: Some(t@), ..old_out });
                }
            },
            ServerMsg::NoticeResponse(fs) => {
                let copied = clone_pairs(fs);
                out.notices.push(copied);
                proof {
                    assert(notices_view(out.notices@) =~= old_out.notices.push(pairs_view(fs@)));
                    assert(out@ == QueryOutcomeV { notices: old_out.notices.push(pairs_view(fs@)), ..old_out });
                }
            },
            ServerMsg::ErrorResponse(fs) => {
                if out.server_error.is_none() {
                    let copied = clone_pairs(fs);
                    out.server_error = Some(copied);
                    proof {
                        assert(out@ == QueryOutcomeV { server_error: Some(pairs_view(fs@)), ..old_out });
                    }
                }
            },
            ServerMsg::ReadyForQuery(_) => {
                out.done = true;
                st = ConnectionState::ReadyForQuery;
                proof {
                    assert(out@ == QueryOutcomeV { done: true, ..old_out });
                }
            },
            _ => {
                return Err(PgError::Protocol("unexpected message in query response".to_owned()));
            },
        }
        i = i + 1;
    }
    proof {
        assert(msgs_view(msgs@).skip(msgs@.len() as int) =~= Seq::<ServerMsgV>::empty());
    }
    Ok(st)
}

/// What a finished query burst means for the caller: the rows when no
/// server error was deferred, otherwise the error, never both.
pub fn query_result(out: QueryOutcome) -> (r: Result<Vec<Vec<Option<String>>>, PgError>)
    ensures
        match r {
            Ok(rows) => out@.server_error is None && rows_view(rows@) == out@.rows,
            Err(e) => match out@.server_error {
                Some(fs) => e@ == ErrView::Server(fs),
                None => false,
            },
        },
{
    match out.server_error {
        Some(fields) => {
            proof {
                assert(PgError::Server(fields)@ == ErrView::Server(pairs_view(fields@)));
            }
            Err(PgError::Server(fields))
        },
        None => Ok(out.rows),
    }
}

/// A challenge the startup machine answers while staying in the
/// authentication phase: an MD5 challenge, or a cleartext request whose
/// answer fits in a frame.
pub open spec fn is_answerable_challenge(msg: ServerMsgV, password: Seq<char>) -> bool {
    ||| msg matches ServerMsgV::Auth(AuthMsgV::Md5(_))
    ||| (msg matches ServerMsgV::Auth(AuthMsgV::Cleartext) && encode_utf8(password).len() + 5
        <= u32::MAX)
}

/// A message the startup machine takes in stride after authentication.
pub open spec fn is_info_msg(msg: ServerMsgV) -> bool {
    match msg {
        ServerMsgV::ParamStatus(_, _) => true,
        ServerMsgV::BackendKeyData(_, _) => true,
        ServerMsgV::NoticeResponse(_) => true,
        _ => false,
    }
}

/// Running the startup machine over a concatenation is running it over the
/// first part and continuing over the second, as long as the first part
/// leaves the machine in a state that keeps consuming.
pub proof fn lemma_startup_append(
    state: ConnectionState,
    m1: Seq<ServerMsgV>,
    m2: Seq<ServerMsgV>,
    user: Seq<char>,
    password: Seq<char>,
)
    requires
        spec_startup(state, m1, user, password) matches Ok((st1, o1)) && (st1
            is AwaitingAuthResponse || st1 is Authenticated),
    ensures
        ({
            let r1 = spec_startup(state, m1, user, password);
            spec_startup(state, m1 + m2, user, password) == (match spec_startup(
                r1->Ok_0.0,
                m2,
                user,
                password,
            ) {
                Ok((fin, o2)) => Ok::<(ConnectionState, Seq<Seq<u8>>), ErrView>(
                    (fin, r1->Ok_0.1 + o2),
                ),
                Err(e) => Err::<(ConnectionState, Seq<Seq<u8>>), ErrView>(e),
            })
        }),
    decreases m1.len(),
{
    let r1 = spec_startup(state, m1, user, password);
    if m1.len() == 0 {
        assert(m1 + m2 =~= m2);
        match spec_startup(state, m2, user, password) {
            Ok((fin, o2)) => {
                assert(Seq::<Seq<u8>>::empty() + o2 =~= o2);
            },
            Err(_) => {},
        }
    } else {
        assert((m1 + m2)[0] == m1[0]);
        assert((m1 + m2).drop_first() =~= m1.drop_first() + m2);
        match state {
            ConnectionState::AwaitingAuthResponse => {
                match spec_handle_auth(m1[0], user, password) {
                    Ok((st2, out)) => {
                        lemma_startup_append(st2, m1.drop_first(), m2, user, password);
                        let rr = spec_startup(st2, m1.drop_first(), user, password);
                        match spec_startup(rr->Ok_0.0, m2, user, password) {
                            Ok((fin, o2)) => {
                                let pre = match out {
                                    Some(b) => seq![b],
                                    None => Seq::<Seq<u8>>::empty(),
                                };
                                assert(pre + (rr->Ok_0.1 + o2) =~= (pre + rr->Ok_0.1) + o2);
                            },
                            Err(_) => {},
                        }
                    },
                    Err(_) => {
                        assert(false);
                    },
                }
            },
            ConnectionState::Authenticated => {
                match spec_handle_server_info(m1[0]) {
                    Ok(st2) => {
                        lemma_startup_append(st2, m1.drop_first(), m2, user, password);
                    },
                    Err(_) => {
                        assert(false);
                    },
                }
            },
            _ => {
                assert(false);
            },
        }
    }
}

/// Any run of answerable challenges leaves the machine awaiting the
/// authentication outcome.
pub proof fn lemma_challenge_phase(
    challenges: Seq<ServerMsgV>,
    user: Seq<char>,
    password: Seq<char>,
)
    requires
        forall|i: int|
            0 <= i < challenges.len() ==> is_answerable_challenge(
                #[trigger] challenges[i],
                password,
            ),
    ensures
        spec_startup(ConnectionState::AwaitingAuthResponse, challenges, user, password) matches Ok(
            (st, _),
        ) && st is AwaitingAuthResponse,
    decreases challenges.len(),
{
    if challenges.len() > 0 {
        assert(is_answerable_challenge(challenges[0], password));
        lemma_challenge_phase(challenges.drop_first(), user, password);
    }
}

/// After authentication, any run of parameter, key-data and notice
/// messages closed by a `ReadyForQuery` ends the startup in
/// `ReadyForQuery` with nothing left to send.
pub proof fn lemma_info_phase(infos: Seq<ServerMsgV>, status: u8, user: Seq<char>, password: Seq<char>)
    requires
        forall|i: int| 0 <= i < infos.len() ==> is_info_msg(#[trigger] infos[i]),
    ensures
        spec_startup(
            ConnectionState::Authenticated,
            infos + seq![ServerMsgV::ReadyForQuery(status)],
            user,
            password,
        ) == Ok::<(ConnectionState, Seq<Seq<u8>>), ErrView>(
            (ConnectionState::ReadyForQuery, Seq::empty()),
        ),
    decreases infos.len(),
{
    let msgs = infos + seq![ServerMsgV::ReadyForQuery(status)];
    if infos.len() == 0 {
        assert(msgs[0] == ServerMsgV::ReadyForQuery(status));
        assert(spec_handle_server_info(msgs[0]) == Ok::<ConnectionState, ErrView>(
            ConnectionState::ReadyForQuery,
        ));
        assert(msgs.drop_first() =~= Seq::<ServerMsgV>::empty());
        assert(spec_startup(ConnectionState::ReadyForQuery, msgs.drop_first(), user, password)
            == Ok::<(ConnectionState, Seq<Seq<u8>>), ErrView>(
            (ConnectionState::ReadyForQuery, Seq::empty()),
        ));
    } else {
        assert(msgs[0] == infos[0]);
        assert(is_info_msg(infos[0]));
        assert(msgs.drop_first() =~= infos.drop_first() + seq![ServerMsgV::ReadyForQuery(status)]);
        lemma_info_phase(infos.drop_first(), status, user, password);
    }
}

/// Startup terminates on `ReadyForQuery`: a well-formed startup burst —
/// any number of answerable challenges, authentication success, any
/// number of parameter, key-data and notice reports, and a single closing
/// `ReadyForQuery` — drives the machine from `AwaitingAuthResponse` to
/// `ReadyForQuery` with the whole burst consumed, and such a burst holds
/// exactly one `ReadyForQuery`, its last message. Once the machine stands
/// in `ReadyForQuery` it decodes nothing further
/// ([`lemma_no_processing_after_ready`]).
pub proof fn lemma_startup_terminates(
    challenges: Seq<ServerMsgV>,
    infos: Seq<ServerMsgV>,
    status: u8,
    user: Seq<char>,
    password: Seq<char>,
)
    requires
        forall|i: int|
            0 <= i < challenges.len() ==> is_answerable_challenge(
                #[trigger] challenges[i],
                password,
            ),
        forall|i: int| 0 <= i < infos.len() ==> is_info_msg(#[trigger] infos[i]),
    ensures
        ({
            let burst = challenges + seq![ServerMsgV::Auth(AuthMsgV::AuthOk)] + infos + seq![
                ServerMsgV::ReadyForQuery(status),
            ];
            &&& spec_startup(
                ConnectionState::AwaitingAuthResponse,
                burst,
                user,
                password,
            ) matches Ok((fin, _)) && fin is ReadyForQuery
            &&& burst[burst.len() - 1] is ReadyForQuery
            &&& forall|i: int| 0 <= i < burst.len() - 1 ==> !(#[trigger] burst[i] is ReadyForQuery)
        }),
{
    let burst = challenges + seq![ServerMsgV::Auth(AuthMsgV::AuthOk)] + infos + seq![
        ServerMsgV::ReadyForQuery(status),
    ];
    let tail = seq![ServerMsgV::Auth(AuthMsgV::AuthOk)] + (infos + seq![
        ServerMsgV::ReadyForQuery(status),
    ]);
    assert(burst =~= challenges + tail);
    lemma_challenge_phase(challenges, user, password);
    lemma_startup_append(
        ConnectionState::AwaitingAuthResponse,
        challenges,
        tail,
        user,
        password,
    );
    assert(tail[0] == ServerMsgV::Auth(AuthMsgV::AuthOk));
    assert(tail.drop_first() =~= infos + seq![ServerMsgV::ReadyForQuery(status)]);
    lemma_info_phase(infos, status, user, password);
    assert forall|i: int| 0 <= i < burst.len() - 1 implies !(#[trigger] burst[i]
        is ReadyForQuery) by {
        if i < challenges.len() {
            assert(burst[i] == challenges[i]);
            assert(is_answerable_challenge(challenges[i], password));
        } else if i == challenges.len() {
            assert(burst[i] == ServerMsgV::Auth(AuthMsgV::AuthOk));
        } else {
            assert(burst[i] == infos[i - challenges.len() - 1]);
            assert(is_info_msg(infos[i - challenges.len() - 1]));
        }
    }
}

/// Once the startup machine stands in `ReadyForQuery`, any further message
/// in the same buffer is a protocol violation: nothing after the closing
/// `ReadyForQuery` is processed.
pub proof fn lemma_no_processing_after_ready(
    msgs: Seq<ServerMsgV>,
    user: Seq<char>,
    password: Seq<char>,
)
    requires
        msgs.len() > 0,
    ensures
        spec_startup(ConnectionState::ReadyForQuery, msgs, user, password) is Err,
{
}

/// What a finished startup run means for the caller: only `ReadyForQuery`
/// is success; a rejection surfaces as `Unauthenticated`, anything else as
/// a protocol violation.
pub fn startup_result(state: ConnectionState) -> (r: Result<(), PgError>)
    ensures
        match r {
            Ok(_) => state is ReadyForQuery,
            Err(e) => {
                &&& !(state is ReadyForQuery)
                &&& (state is AuthenticationRejected ==> e@ is Unauthenticated)
                &&& (!(state is AuthenticationRejected) ==> e@ is Protocol)
            },
        },
{
    match state {
        ConnectionState::ReadyForQuery => Ok(()),
        ConnectionState::AuthenticationRejected => Err(PgError::Unauthenticated),
        _ => Err(PgError::Protocol("unexpected state after startup".to_owned())),
    }
}

} // verus!
