//! Inbound side of the wire protocol: big-endian integer decoding, scanning
//! for sentinel bytes, null-terminated and length-prefixed string
//! extraction, framing (`take_msg`), and typed decoding of server messages
//! (`ServerMsg::from_slice`).
use vstd::prelude::*;

use crate::error::{ErrView, PgError};
use vstd::utf8::{decode_utf8, valid_utf8};

verus! {

/// Relies on `core::str::from_utf8`: it succeeds exactly on valid UTF-8 and
/// returns the string those bytes encode.
#[verifier::external_body]
pub(crate) fn try_utf8<'a>(input: &'a [u8]) -> (r: Option<&'a str>)
    ensures
        r is Some <==> valid_utf8(input@),
        r matches Some(s) ==> s@ == decode_utf8(input@),
{
    core::str::from_utf8(input).ok()
}

/// The value of a byte sequence read as a big-endian integer.
pub open spec fn be_val(s: Seq<u8>) -> nat
    decreases s.len(),
{
    if s.len() == 0 {
        0
    } else {
        (be_val(s.drop_last()) * 256 + s.last()) as nat
    }
}

/// 256 to the power `n`: the number of values of an `n`-byte big-endian
/// integer.
pub open spec fn pow256(n: nat) -> nat
    decreases n,
{
    if n == 0 {
        1
    } else {
        256 * pow256((n - 1) as nat)
    }
}

pub proof fn lemma_be_val_bound(s: Seq<u8>)
    ensures
        be_val(s) < pow256(s.len()),
    decreases s.len(),
{
    if s.len() == 0 {
    } else {
        lemma_be_val_bound(s.drop_last());
    }
}

/// Reads four bytes as a big-endian unsigned 32-bit integer.
pub fn slice_to_u32(input: &[u8]) -> (r: u32)
    requires
        input@.len() == 4,
    ensures
        r == be_val(input@),
{
    let mut value: u32 = 0;
    let mut i: usize = 0;
    while i < 4
        invariant
            i <= 4,
            input@.len() == 4,
            value == be_val(input@.take(i as int)),
            value < pow256(i as nat),
        decreases 4 - i,
    {
        proof {
            assert(input@.take(i as int + 1).drop_last() =~= input@.take(i as int));
            assert(pow256(0) == 1);
            assert(pow256(1) == 256);
            assert(pow256(2) == 256 * 256);
            assert(pow256(3) == 256 * 256 * 256);
            assert(pow256(4) == 256 * 256 * 256 * 256);
        }
        value = value * 256 + (input[i] as u32);
        i = i + 1;
    }
    proof {
        assert(input@.take(4) =~= input@);
    }
    value
}

/// Reads two bytes as a big-endian unsigned 16-bit integer.
pub fn slice_to_u16(input: &[u8]) -> (r: u16)
    requires
        input@.len() == 2,
    ensures
        r == be_val(input@),
{
    let mut value: u16 = 0;
    let mut i: usize = 0;
    while i < 2
        invariant
            i <= 2,
            input@.len() == 2,
            value == be_val(input@.take(i as int)),
            value < pow256(i as nat),
        decreases 2 - i,
    {
        proof {
            assert(input@.take(i as int + 1).drop_last() =~= input@.take(i as int));
            assert(pow256(0) == 1);
            assert(pow256(1) == 256);
            assert(pow256(2) == 256 * 256);
        }
        value = value * 256 + (input[i] as u16);
        i = i + 1;
    }
    proof {
        assert(input@.take(2) =~= input@);
    }
    value
}

/// The index of the first occurrence of `matched` in `input`, if any.
pub fn find_first(input: &[u8], matched: u8) -> (r: Option<usize>)
    ensures
        match r {
            Some(i) => {
                &&& i < input@.len()
                &&& input@[i as int] == matched
                &&& forall|j: int| 0 <= j < i ==> input@[j] != matched
            },
            None => forall|j: int| 0 <= j < input@.len() ==> input@[j] != matched,
        },
{
    let mut i: usize = 0;
    while i < input.len()
        invariant
            i <= input@.len(),
            forall|j: int| 0 <= j < i ==> input@[j] != matched,
        decreases input@.len() - i,
    {
        if input[i] == matched {
            return Some(i);
        }
        i = i + 1;
    }
    None
}

/// Splits a null-terminated byte string off the front of `bytes`: the bytes
/// before the first null, and everything after that null.
pub open spec fn spec_cstring(bytes: Seq<u8>) -> Option<(Seq<u8>, Seq<u8>)> {
    match bytes.index_of_first(0u8) {
        Some(i) => Some((bytes.take(i), bytes.skip(i + 1))),
        None => None,
    }
}

pub proof fn lemma_first_nul_at(s: Seq<u8>, i: int)
    requires
        0 <= i < s.len(),
        s[i] == 0u8,
        forall|j: int| 0 <= j < i ==> s[j] != 0u8,
    ensures
        s.index_of_first(0u8) == Some(i),
{
    s.index_of_first_ensures(0u8);
    assert(s.contains(0u8));
    match s.index_of_first(0u8) {
        Some(k) => {
            if k < i {
                assert(s[k] == 0u8);
                assert(false);
            } else if k > i {
                assert(s[i] != 0u8);
                assert(false);
            }
        },
        None => {
            assert(false);
        },
    }
}

pub proof fn lemma_no_nul(s: Seq<u8>)
    requires
        forall|j: int| 0 <= j < s.len() ==> s[j] != 0u8,
    ensures
        s.index_of_first(0u8) is None,
{
    s.index_of_first_ensures(0u8);
    match s.index_of_first(0u8) {
        Some(k) => {
            assert(s[k] == 0u8);
            assert(false);
        },
        None => {},
    }
}

/// Splits off a null-terminated UTF-8 string followed by `fixed` bytes of
/// fixed-size data, returning the string, the fixed bytes, and the rest.
pub fn take_cstring_plus_fixed<'a>(input: &'a [u8], fixed: usize) -> (r: Result<
    (&'a str, &'a [u8], &'a [u8]),
    PgError,
>)
    ensures
        ({
            let c = spec_cstring(input@);
            match r {
                Ok((string, fixed_data, extra)) => {
                    &&& c matches Some((sb, rest))
                    &&& valid_utf8(sb)
                    &&& rest.len() >= fixed
                    &&& string@ == decode_utf8(sb)
                    &&& fixed_data@ == rest.take(fixed as int)
                    &&& extra@ == rest.skip(fixed as int)
                },
                Err(e) => match c {
                    Option::None => e@ is Protocol,
                    Option::Some((sb, rest)) => {
                        if !valid_utf8(sb) {
                            e@ is Utf8
                        } else {
                            rest.len() < fixed && e@ is Protocol
                        }
                    },
                },
            }
        }),
{
    let strlen = match find_first(input, 0u8) {
        Some(i) => i,
        None => {
            proof {
                lemma_no_nul(input@);
            }
            return Err(PgError::Protocol("null byte not found".to_owned()));
        },
    };
    proof {
        lemma_first_nul_at(input@, strlen as int);
    }
    let string = match try_utf8(&input[0..strlen]) {
        Some(s) => s,
        None => {
            proof {
                assert(input@.subrange(0, strlen as int) =~= input@.take(strlen as int));
            }
            return Err(PgError::Utf8);
        },
    };
    proof {
        assert(input@.subrange(0, strlen as int) =~= input@.take(strlen as int));
    }
    let after = input.len() - (strlen + 1);
    if after < fixed {
        return Err(PgError::Protocol("fixed data missing after string".to_owned()));
    }
    let fixed_data = &input[strlen + 1..strlen + 1 + fixed];
    let extra = &input[strlen + 1 + fixed..input.len()];
    proof {
        let rest = input@.skip(strlen as int + 1);
        assert(fixed_data@ =~= rest.take(fixed as int));
        assert(extra@ =~= rest.skip(fixed as int));
    }
    Ok((string, fixed_data, extra))
}

/// Splits off a length-prefixed UTF-8 string: a big-endian 4-byte length,
/// then that many bytes of text.
pub fn take_sized_string<'a>(input: &'a [u8]) -> (r: Result<(&'a str, &'a [u8]), PgError>)
    ensures
        ({
            let size = be_val(input@.subrange(0, 4)) as int;
            match r {
                Ok((data, extra)) => {
                    &&& input@.len() >= 4
                    &&& input@.len() >= 4 + size
                    &&& valid_utf8(input@.subrange(4, 4 + size))
                    &&& data@ == decode_utf8(input@.subrange(4, 4 + size))
                    &&& extra@ == input@.skip(4 + size)
                },
                Err(e) => {
                    if input@.len() < 4 {
                        e@ is Protocol
                    } else if input@.len() < 4 + size {
                        e@ is Protocol
                    } else {
                        !valid_utf8(input@.subrange(4, 4 + size)) && e@ is Utf8
                    }
                },
            }
        }),
{
    if input.len() < 4 {
        return Err(PgError::Protocol("length prefix missing".to_owned()));
    }
    let size = slice_to_u32(&input[0..4]) as usize;
    if input.len() - 4 < size {
        return Err(PgError::Protocol("sized string extends past end of input".to_owned()));
    }
    let data = match try_utf8(&input[4..4 + size]) {
        Some(s) => s,
        None => {
            return Err(PgError::Utf8);
        },
    };
    let extra = &input[4 + size..input.len()];
    proof {
        assert(extra@ =~= input@.skip(4 + size as int));
    }
    Ok((data, extra))
}

/// The framing rule: a frame is an identifier byte, a big-endian 4-byte
/// length that counts itself but not the identifier, and the payload.
/// Splits off the first complete frame, or nothing when the input is too
/// short for one.
pub open spec fn spec_take_msg(input: Seq<u8>) -> Option<(Seq<u8>, Seq<u8>)> {
    if input.len() < 5 {
        None
    } else {
        let length = be_val(input.subrange(1, 5)) + 1;
        if input.len() < length {
            None
        } else {
            Some((input.take(length as int), input.skip(length as int)))
        }
    }
}

/// Splits the first complete frame off the front of `input`, returning the
/// frame and the remainder. Fails when fewer than five bytes are available
/// or the declared frame extends past the end of `input`; in that case the
/// caller must read more bytes and try again with the same buffer.
pub fn take_msg<'a>(input: &'a [u8]) -> (r: Result<(&'a [u8], &'a [u8]), PgError>)
    ensures
        match r {
            Ok((msg, rest)) => spec_take_msg(input@) == Some((msg@, rest@)),
            Err(e) => spec_take_msg(input@) is None && e@ is Protocol,
        },
{
    if input.len() < 5 {
        return Err(PgError::Protocol("input too short for a frame".to_owned()));
    }
    let length = slice_to_u32(&input[1..5]) as usize;
    proof {
        lemma_be_val_bound(input@.subrange(1, 5));
    }
    if input.len() - 1 < length {
        return Err(PgError::Protocol("frame extends past end of input".to_owned()));
    }
    let (msg, rest) = input.split_at(length + 1);
    proof {
        assert(msg@ =~= input@.take(length as int + 1));
        assert(rest@ =~= input@.skip(length as int + 1));
    }
    Ok((msg, rest))
}

/// Whether a field of a data row is sent as text or in the binary format.
#[derive(Debug, Eq, PartialEq, Structural, Clone, Copy)]
pub enum FieldFormat {
    Text,
    Binary,
}

/// The mathematical value of a [`FieldDescription`].
pub struct FieldDescriptionV {
    pub field_name: Seq<char>,
    pub format: FieldFormat,
}

/// One column of a row description: the column name and the format its
/// values are sent in.
#[derive(Debug, Eq, PartialEq)]
pub struct FieldDescription {
    pub field_name: String,
    pub format: FieldFormat,
}

impl View for FieldDescription {
    type V = FieldDescriptionV;

    open spec fn view(&self) -> FieldDescriptionV {
        FieldDescriptionV { field_name: self.field_name@, format: self.format }
    }
}

/// The mathematical value of an [`AuthMsg`].
pub enum AuthMsgV {
    AuthOk,
    Kerberos,
    Cleartext,
    Md5(Seq<u8>),
    ScmCredential,
    Gss,
    Sspi,
    GssContinue(Seq<u8>),
    Unknown,
}

/// An authentication request from the server, distinguished by the first
/// 32-bit word of the payload of an `R` frame.
#[derive(Debug, PartialEq, Eq)]
pub enum AuthMsg {
    AuthOk,
    Kerberos,
    Cleartext,
    Md5(Vec<u8>),
    ScmCredential,
    Gss,
    Sspi,
    GssContinue(Vec<u8>),
    Unknown,
}

impl View for AuthMsg {
    type V = AuthMsgV;

    open spec fn view(&self) -> AuthMsgV {
        match self {
            AuthMsg::AuthOk => AuthMsgV::AuthOk,
            AuthMsg::Kerberos => AuthMsgV::Kerberos,
            AuthMsg::Cleartext => AuthMsgV::Cleartext,
            AuthMsg::Md5(salt) => AuthMsgV::Md5(salt@),
            AuthMsg::ScmCredential => AuthMsgV::ScmCredential,
            AuthMsg::Gss => AuthMsgV::Gss,
            AuthMsg::Sspi => AuthMsgV::Sspi,
            AuthMsg::GssContinue(data) => AuthMsgV::GssContinue(data@),
            AuthMsg::Unknown => AuthMsgV::Unknown,
        }
    }
}

/// View of a sequence of (field code, text) pairs.
pub open spec fn pairs_view(s: Seq<(u8, String)>) -> Seq<(u8, Seq<char>)> {
    Seq::new(s.len(), |i: int| (s[i].0, s[i].1@))
}

/// View of a sequence of field descriptions.
pub open spec fn fields_view(s: Seq<FieldDescription>) -> Seq<FieldDescriptionV> {
    Seq::new(s.len(), |i: int| s[i]@)
}

/// View of a sequence of nullable text values.
pub open spec fn values_view(s: Seq<Option<String>>) -> Seq<Option<Seq<char>>> {
    Seq::new(
        s.len(),
        |i: int|
            match s[i] {
                Some(v) => Some(v@),
                None => None,
            },
    )
}

/// The mathematical value of a [`ServerMsg`].
pub enum ServerMsgV {
    ErrorResponse(Seq<(u8, Seq<char>)>),
    NoticeResponse(Seq<(u8, Seq<char>)>),
    Auth(AuthMsgV),
    ReadyForQuery(u8),
    CommandComplete(Seq<char>),
    ParamStatus(Seq<char>, Seq<char>),
    BackendKeyData(u32, u32),
    RowDescription(Seq<FieldDescriptionV>),
    DataRow(Seq<Option<Seq<char>>>),
    Unknown(Seq<char>, Seq<u8>),
}

/// A message sent by the server, decoded from one frame.
#[derive(Debug, PartialEq, Eq)]
pub enum ServerMsg {
    /// `E`: an ordered list of (field code, text) pairs.
    ErrorResponse(Vec<(u8, String)>),
    /// `N`: same shape as an error response, but not fatal.
    NoticeResponse(Vec<(u8, String)>),
    /// `R`: an authentication request.
    Auth(AuthMsg),
    /// `Z`: the server is idle; carries the transaction status byte.
    ReadyForQuery(u8),
    /// `C`: a statement finished; carries the command tag.
    CommandComplete(String),
    /// `S`: a run-time parameter name and its current value.
    ParamStatus(String, String),
    /// `K`: the backend process id and the secret key for cancellation.
    BackendKeyData(u32, u32),
    /// `T`: the columns of the rows that follow.
    RowDescription(Vec<FieldDescription>),
    /// `D`: one row; each value is text or NULL.
    DataRow(Vec<Option<String>>),
    /// Any other identifier: the identifier as a string and the raw payload.
    Unknown(String, Vec<u8>),
}

impl View for ServerMsg {
    type V = ServerMsgV;

    open spec fn view(&self) -> ServerMsgV {
        match self {
            ServerMsg::ErrorResponse(fields) => ServerMsgV::ErrorResponse(pairs_view(fields@)),
            ServerMsg::NoticeResponse(fields) => ServerMsgV::NoticeResponse(pairs_view(fields@)),
            ServerMsg::Auth(auth) => ServerMsgV::Auth(auth@),
            ServerMsg::ReadyForQuery(status) => ServerMsgV::ReadyForQuery(*status),
            ServerMsg::CommandComplete(tag) => ServerMsgV::CommandComplete(tag@),
            ServerMsg::ParamStatus(name, value) => ServerMsgV::ParamStatus(name@, value@),
            ServerMsg::BackendKeyData(pid, key) => ServerMsgV::BackendKeyData(*pid, *key),
            ServerMsg::RowDescription(fields) => ServerMsgV::RowDescription(fields_view(fields@)),
            ServerMsg::DataRow(values) => ServerMsgV::DataRow(values_view(values@)),
            ServerMsg::Unknown(id, payload) => ServerMsgV::Unknown(id@, payload@),
        }
    }
}

/// Decodes the payload of an `R` frame.
pub open spec fn spec_auth_msg(extra: Seq<u8>) -> Result<AuthMsgV, ErrView> {
    if extra.len() < 4 {
        Err(ErrView::Protocol)
    } else {
        let kind = be_val(extra.subrange(0, 4));
        if kind == 0 {
            Ok(AuthMsgV::AuthOk)
        } else if kind == 2 {
            Ok(AuthMsgV::Kerberos)
        } else if kind == 3 {
            Ok(AuthMsgV::Cleartext)
        } else if kind == 5 {
            if extra.len() >= 8 {
                Ok(AuthMsgV::Md5(extra.subrange(4, 8)))
            } else {
                Err(ErrView::Protocol)
            }
        } else if kind == 6 {
            Ok(AuthMsgV::ScmCredential)
        } else if kind == 7 {
            Ok(AuthMsgV::Gss)
        } else if kind == 8 {
            Ok(AuthMsgV::GssContinue(extra.skip(4)))
        } else if kind == 9 {
            Ok(AuthMsgV::Sspi)
        } else {
            Ok(AuthMsgV::Unknown)
        }
    }
}

/// Decodes the payload of an `S` frame: two null-terminated UTF-8 strings
/// and nothing more.
pub open spec fn spec_param_status(p: Seq<u8>) -> Result<ServerMsgV, ErrView> {
    match spec_cstring(p) {
        None => Err(ErrView::Protocol),
        Some((nb, r1)) => if !valid_utf8(nb) {
            Err(ErrView::Utf8)
        } else {
            match spec_cstring(r1) {
                None => Err(ErrView::Protocol),
                Some((vb, r2)) => if !valid_utf8(vb) {
                    Err(ErrView::Utf8)
                } else if r2.len() != 0 {
                    Err(ErrView::Protocol)
                } else {
                    Ok(ServerMsgV::ParamStatus(decode_utf8(nb), decode_utf8(vb)))
                },
            }
        },
    }
}

/// Decodes one field description: a null-terminated name and 18 fixed
/// bytes whose last big-endian 16-bit word is the format.
pub open spec fn spec_field(b: Seq<u8>) -> Result<(FieldDescriptionV, Seq<u8>), ErrView> {
    match spec_cstring(b) {
        None => Err(ErrView::Protocol),
        Some((nb, r)) => if !valid_utf8(nb) {
            Err(ErrView::Utf8)
        } else if r.len() < 18 {
            Err(ErrView::Protocol)
        } else {
            let fmt = be_val(r.subrange(16, 18));
            if fmt == 0 {
                Ok(
                    (
                        FieldDescriptionV { field_name: decode_utf8(nb), format: FieldFormat::Text },
                        r.skip(18),
                    ),
                )
            } else if fmt == 1 {
                Ok(
                    (
                        FieldDescriptionV {
                            field_name: decode_utf8(nb),
                            format: FieldFormat::Binary,
                        },
                        r.skip(18),
                    ),
                )
            } else {
                Err(ErrView::Protocol)
            }
        },
    }
}

/// Decodes `n` consecutive field descriptions.
pub open spec fn spec_fields(b: Seq<u8>, n: nat) -> Result<
    (Seq<FieldDescriptionV>, Seq<u8>),
    ErrView,
>
    decreases n,
{
    if n == 0 {
        Ok((Seq::empty(), b))
    } else {
        match spec_field(b) {
            Err(e) => Err(e),
            Ok((f, rest)) => match spec_fields(rest, (n - 1) as nat) {
                Err(e) => Err(e),
                Ok((fs, fin)) => Ok((seq![f] + fs, fin)),
            },
        }
    }
}

/// Decodes the payload of a `T` frame: a big-endian 16-bit field count,
/// then exactly that many field descriptions.
pub open spec fn spec_row_description(p: Seq<u8>) -> Result<ServerMsgV, ErrView> {
    if p.len() < 2 {
        Err(ErrView::Protocol)
    } else {
        match spec_fields(p.skip(2), be_val(p.subrange(0, 2))) {
            Err(e) => Err(e),
            Ok((fs, rest)) => if rest.len() == 0 {
                Ok(ServerMsgV::RowDescription(fs))
            } else {
                Err(ErrView::Protocol)
            },
        }
    }
}

/// Decodes one row value: a big-endian 32-bit length, then that many bytes
/// of UTF-8 text; the length `0xffff_ffff` (-1 as a signed value) means
/// NULL and is followed by no bytes.
pub open spec fn spec_value(b: Seq<u8>) -> Result<(Option<Seq<char>>, Seq<u8>), ErrView> {
    if b.len() < 4 {
        Err(ErrView::Protocol)
    } else {
        let size = be_val(b.subrange(0, 4)) as int;
        if size == 0xffff_ffff {
            Ok((None, b.skip(4)))
        } else if b.len() < 4 + size {
            Err(ErrView::Protocol)
        } else if !valid_utf8(b.subrange(4, 4 + size)) {
            Err(ErrView::Utf8)
        } else {
            Ok((Some(decode_utf8(b.subrange(4, 4 + size))), b.skip(4 + size)))
        }
    }
}

/// Decodes `n` consecutive row values.
pub open spec fn spec_values(b: Seq<u8>, n: nat) -> Result<
    (Seq<Option<Seq<char>>>, Seq<u8>),
    ErrView,
>
    decreases n,
{
    if n == 0 {
        Ok((Seq::empty(), b))
    } else {
        match spec_value(b) {
            Err(e) => Err(e),
            Ok((v, rest)) => match spec_values(rest, (n - 1) as nat) {
                Err(e) => Err(e),
                Ok((vs, fin)) => Ok((seq![v] + vs, fin)),
            },
        }
    }
}

/// Decodes the payload of a `D` frame: a big-endian 16-bit value count,
/// then exactly that many row values.
pub open spec fn spec_data_row(p: Seq<u8>) -> Result<ServerMsgV, ErrView> {
    if p.len() < 2 {
        Err(ErrView::Protocol)
    } else {
        match spec_values(p.skip(2), be_val(p.subrange(0, 2))) {
            Err(e) => Err(e),
            Ok((vs, rest)) => if rest.len() == 0 {
                Ok(ServerMsgV::DataRow(vs))
            } else {
                Err(ErrView::Protocol)
            },
        }
    }
}

/// Decodes the payload of an `E` or `N` frame: (field code, text) pairs
/// terminated by a single zero byte.
pub open spec fn spec_err_fields(b: Seq<u8>) -> Result<Seq<(u8, Seq<char>)>, ErrView>
    decreases b.len(),
    via spec_err_fields_decreases
{
    if b.len() == 0 {
        Err(ErrView::Protocol)
    } else if b[0] == 0 {
        if b.len() == 1 {
            Ok(Seq::empty())
        } else {
            Err(ErrView::Protocol)
        }
    } else {
        match spec_cstring(b.skip(1)) {
            None => Err(ErrView::Protocol),
            Some((tb, rest)) => if !valid_utf8(tb) {
                Err(ErrView::Utf8)
            } else {
                match spec_err_fields(rest) {
                    Err(e) => Err(e),
                    Ok(fs) => Ok(seq![(b[0], decode_utf8(tb))] + fs),
                }
            },
        }
    }
}

#[via_fn]
proof fn spec_err_fields_decreases(b: Seq<u8>) {
    if b.len() > 0 && b[0] != 0 {
        b.skip(1).index_of_first_ensures(0u8);
    }
}

/// Decodes one complete frame into a server message: the exact statement of
/// what [`ServerMsg::from_slice`] returns.
pub open spec fn spec_server_msg(m: Seq<u8>) -> Result<ServerMsgV, ErrView> {
    if m.len() < 5 {
        Err(ErrView::Protocol)
    } else if m.len() != be_val(m.subrange(1, 5)) + 1 {
        Err(ErrView::Protocol)
    } else {
        let id = m[0];
        let p = m.skip(5);
        if id == 82 {
            match spec_auth_msg(p) {
                Ok(a) => Ok(ServerMsgV::Auth(a)),
                Err(e) => Err(e),
            }
        } else if id == 83 {
            spec_param_status(p)
        } else if id == 75 {
            if p.len() == 8 {
                Ok(
                    ServerMsgV::BackendKeyData(
                        be_val(p.subrange(0, 4)) as u32,
                        be_val(p.subrange(4, 8)) as u32,
                    ),
                )
            } else {
                Err(ErrView::Protocol)
            }
        } else if id == 84 {
            spec_row_description(p)
        } else if id == 68 {
            spec_data_row(p)
        } else if id == 67 {
            match spec_cstring(p) {
                None => Err(ErrView::Protocol),
                Some((tb, rest)) => if !valid_utf8(tb) {
                    Err(ErrView::Utf8)
                } else if rest.len() != 0 {
                    Err(ErrView::Protocol)
                } else {
                    Ok(ServerMsgV::CommandComplete(decode_utf8(tb)))
                },
            }
        } else if id == 90 {
            if p.len() == 1 {
                Ok(ServerMsgV::ReadyForQuery(p[0]))
            } else {
                Err(ErrView::Protocol)
            }
        } else if id == 78 {
            match spec_err_fields(p) {
                Ok(fs) => Ok(ServerMsgV::NoticeResponse(fs)),
                Err(e) => Err(e),
            }
        } else if id == 69 {
            match spec_err_fields(p) {
                Ok(fs) => Ok(ServerMsgV::ErrorResponse(fs)),
                Err(e) => Err(e),
            }
        } else if !valid_utf8(seq![id]) {
            Err(ErrView::Utf8)
        } else {
            Ok(ServerMsgV::Unknown(decode_utf8(seq![id]), p))
        }
    }
}

pub proof fn lemma_be_val_u32(s: Seq<u8>)
    requires
        s.len() == 4,
    ensures
        be_val(s) < 0x1_0000_0000,
{
    lemma_be_val_bound(s);
    assert(pow256(0) == 1);
    assert(pow256(1) == 256);
    assert(pow256(2) == 65536);
    assert(pow256(3) == 16777216);
    assert(pow256(4) == 4294967296);
}

/// Prepends already-decoded field descriptions to the result of decoding
/// the rest.
pub open spec fn fields_step(
    pre: Seq<FieldDescriptionV>,
    r: Result<(Seq<FieldDescriptionV>, Seq<u8>), ErrView>,
) -> Result<(Seq<FieldDescriptionV>, Seq<u8>), ErrView> {
    match r {
        Ok((fs, fin)) => Ok((pre + fs, fin)),
        Err(e) => Err(e),
    }
}

/// Prepends already-decoded row values to the result of decoding the rest.
pub open spec fn values_step(
    pre: Seq<Option<Seq<char>>>,
    r: Result<(Seq<Option<Seq<char>>>, Seq<u8>), ErrView>,
) -> Result<(Seq<Option<Seq<char>>>, Seq<u8>), ErrView> {
    match r {
        Ok((vs, fin)) => Ok((pre + vs, fin)),
        Err(e) => Err(e),
    }
}

/// Prepends already-decoded (code, text) pairs to the result of decoding
/// the rest.
pub open spec fn pairs_step(
    pre: Seq<(u8, Seq<char>)>,
    r: Result<Seq<(u8, Seq<char>)>, ErrView>,
) -> Result<Seq<(u8, Seq<char>)>, ErrView> {
    match r {
        Ok(fs) => Ok(pre + fs),
        Err(e) => Err(e),
    }
}

/// Parses the (field code, text) pairs of an error or notice payload, up to
/// and including the terminating zero byte.
fn parse_err_fields(extra: &[u8]) -> (r: Result<Vec<(u8, String)>, PgError>)
    ensures
        match r {
            Ok(fields) => spec_err_fields(extra@) == Ok::<Seq<(u8, Seq<char>)>, ErrView>(
                pairs_view(fields@),
            ),
            Err(e) => spec_err_fields(extra@) == Err::<Seq<(u8, Seq<char>)>, ErrView>(e@),
        },
{
    let mut remainder: &[u8] = extra;
    let mut fields: Vec<(u8, String)> = Vec::new();
    proof {
        assert(pairs_view(fields@) =~= Seq::<(u8, Seq<char>)>::empty());
    }
    while remainder.len() > 0 && remainder[0] != 0
        invariant
            spec_err_fields(extra@) == pairs_step(pairs_view(fields@), spec_err_fields(remainder@)),
        decreases remainder@.len(),
    {
        let code = remainder[0];
        let tail = &remainder[1..remainder.len()];
        proof {
            assert(tail@ =~= remainder@.skip(1));
        }
        let (msg, _fixed, end) = match take_cstring_plus_fixed(tail, 0) {
            Ok(t) => t,
            Err(e) => {
                return Err(e);
            },
        };
        let ghost old_rem = remainder@;
        let ghost old_v = pairs_view(fields@);
        proof {
            match spec_cstring(tail@) {
                Some((tb, rest)) => {
                    assert(rest.skip(0) =~= rest);
                    tail@.index_of_first_ensures(0u8);
                },
                None => {
                    assert(false);
                },
            }
        }
        fields.push((code, msg.to_owned()));
        remainder = end;
        proof {
            match spec_cstring(old_rem.skip(1)) {
                Some((tb, rest)) => {
                    assert(pairs_view(fields@) =~= old_v + seq![(code, decode_utf8(tb))]);
                    match spec_err_fields(rest) {
                        Ok(fs) => {
                            assert(old_v + (seq![(code, decode_utf8(tb))] + fs) =~= (old_v + seq![
                                (code, decode_utf8(tb)),
                            ]) + fs);
                        },
                        Err(_) => {},
                    }
                },
                None => {
                    assert(false);
                },
            }
        }
    }
    if remainder.len() == 0 {
        return Err(PgError::Protocol("no terminator in error fields".to_owned()));
    }
    if remainder.len() > 1 {
        return Err(PgError::Protocol("data after terminator in error fields".to_owned()));
    }
    proof {
        assert(pairs_view(fields@) + Seq::<(u8, Seq<char>)>::empty() =~= pairs_view(fields@));
    }
    Ok(fields)
}

impl AuthMsg {
    /// Decodes the payload of an `R` frame into an authentication request.
    pub fn from_slice(extra: &[u8]) -> (r: Result<AuthMsg, PgError>)
        ensures
            match r {
                Ok(m) => spec_auth_msg(extra@) == Ok::<AuthMsgV, ErrView>(m@),
                Err(e) => spec_auth_msg(extra@) == Err::<AuthMsgV, ErrView>(e@),
            },
    {
        if extra.len() < 4 {
            return Err(PgError::Protocol("authentication payload too short".to_owned()));
        }
        let kind = slice_to_u32(&extra[0..4]);
        match kind {
            0 => Ok(AuthMsg::AuthOk),
            2 => Ok(AuthMsg::Kerberos),
            3 => Ok(AuthMsg::Cleartext),
            5 => {
                if extra.len() < 8 {
                    Err(PgError::Protocol("salt missing from md5 challenge".to_owned()))
                } else {
                    let salt = vstd::slice::slice_to_vec(&extra[4..8]);
                    Ok(AuthMsg::Md5(salt))
                }
            },
            6 => Ok(AuthMsg::ScmCredential),
            7 => Ok(AuthMsg::Gss),
            8 => {
                let rest = vstd::slice::slice_to_vec(&extra[4..extra.len()]);
                proof {
                    assert(extra@.subrange(4, extra@.len() as int) =~= extra@.skip(4));
                }
                Ok(AuthMsg::GssContinue(rest))
            },
            9 => Ok(AuthMsg::Sspi),
            _ => Ok(AuthMsg::Unknown),
        }
    }
}

impl FieldDescription {
    /// Splits one field description off the front of `input`: the name and
    /// the 18 fixed bytes that follow it.
    fn take_field<'a>(input: &'a [u8]) -> (r: Result<(&'a str, &'a [u8], &'a [u8]), PgError>)
        ensures
            ({
                let c = spec_cstring(input@);
                match r {
                    Ok((string, fixed_data, extra)) => {
                        &&& c matches Some((sb, rest))
                        &&& valid_utf8(sb)
                        &&& rest.len() >= 18
                        &&& string@ == decode_utf8(sb)
                        &&& fixed_data@ == rest.take(18)
                        &&& extra@ == rest.skip(18)
                    },
                    Err(e) => match c {
                        Option::None => e@ is Protocol,
                        Option::Some((sb, rest)) => {
                            if !valid_utf8(sb) {
                                e@ is Utf8
                            } else {
                                rest.len() < 18 && e@ is Protocol
                            }
                        },
                    },
                }
            }),
    {
        take_cstring_plus_fixed(input, 18)
    }

    /// Builds a field description from its name and the 18 fixed bytes; the
    /// last big-endian 16-bit word of those is the format.
    fn new(name: &str, fixed_data: &[u8]) -> (r: Result<FieldDescription, PgError>)
        requires
            fixed_data@.len() >= 18,
        ensures
            ({
                let fmt = be_val(fixed_data@.subrange(16, 18));
                match r {
                    Ok(fd) => {
                        &&& fd@.field_name == name@
                        &&& (fmt == 0 ==> fd@.format == FieldFormat::Text)
                        &&& (fmt == 1 ==> fd@.format == FieldFormat::Binary)
                        &&& (fmt == 0 || fmt == 1)
                    },
                    Err(e) => fmt != 0 && fmt != 1 && e@ is Protocol,
                }
            }),
    {
        let fmt = slice_to_u16(&fixed_data[16..18]);
        let format = match fmt {
            0 => FieldFormat::Text,
            1 => FieldFormat::Binary,
            _ => {
                return Err(PgError::Protocol("invalid field format".to_owned()));
            },
        };
        Ok(FieldDescription { field_name: name.to_owned(), format })
    }
}

/// Prepends already-decoded messages to the result of decoding the rest.
pub open spec fn msgs_step(
    pre: Seq<ServerMsgV>,
    r: Result<Seq<ServerMsgV>, ErrView>,
) -> Result<Seq<ServerMsgV>, ErrView> {
    match r {
        Ok(ms) => Ok(pre + ms),
        Err(e) => Err(e),
    }
}

/// View of a sequence of decoded messages.
pub open spec fn msgs_view(s: Seq<ServerMsg>) -> Seq<ServerMsgV> {
    Seq::new(s.len(), |i: int| s[i]@)
}

/// Splits a whole buffer into frames and decodes each: the buffer must
/// hold a whole number of frames.
pub open spec fn spec_parse_messages(b: Seq<u8>) -> Result<Seq<ServerMsgV>, ErrView>
    decreases b.len(),
{
    if b.len() == 0 {
        Ok(Seq::empty())
    } else {
        match spec_take_msg(b) {
            None => Err(ErrView::Protocol),
            Some((frame, rest)) => match spec_server_msg(frame) {
                Err(e) => Err(e),
                Ok(m) => match spec_parse_messages(rest) {
                    Err(e) => Err(e),
                    Ok(ms) => Ok(seq![m] + ms),
                },
            },
        }
    }
}

/// Splits as many complete frames as the buffer holds and decodes each,
/// stopping at a partial frame; the second component is the undecoded
/// tail.
pub open spec fn spec_parse_available(b: Seq<u8>) -> Result<(Seq<ServerMsgV>, Seq<u8>), ErrView>
    decreases b.len(),
{
    match spec_take_msg(b) {
        None => Ok((Seq::empty(), b)),
        Some((frame, rest)) => match spec_server_msg(frame) {
            Err(e) => Err(e),
            Ok(m) => match spec_parse_available(rest) {
                Err(e) => Err(e),
                Ok((ms, tail)) => Ok((seq![m] + ms, tail)),
            },
        },
    }
}

/// Decodes a buffer that holds a whole number of frames, failing on a
/// partial frame at the end as well as on any decoding error.
#[verifier::loop_isolation(false)]
pub fn parse_messages(buf: &[u8]) -> (r: Result<Vec<ServerMsg>, PgError>)
    ensures
        match r {
            Ok(msgs) => spec_parse_messages(buf@) == Ok::<Seq<ServerMsgV>, ErrView>(
                msgs_view(msgs@),
            ),
            Err(e) => spec_parse_messages(buf@) == Err::<Seq<ServerMsgV>, ErrView>(e@),
        },
{
    let mut remainder: &[u8] = buf;
    let mut msgs: Vec<ServerMsg> = Vec::new();
    proof {
        assert(msgs_view(msgs@) =~= Seq::<ServerMsgV>::empty());
    }
    while remainder.len() > 0
        invariant
            spec_parse_messages(buf@) == msgs_step(
                msgs_view(msgs@),
                spec_parse_messages(remainder@),
            ),
        decreases remainder@.len(),
    {
        let (frame, rest) = match take_msg(remainder) {
            Ok(t) => t,
            Err(e) => {
                return Err(e);
            },
        };
        let msg = match ServerMsg::from_slice(frame) {
            Ok(m) => m,
            Err(e) => {
                return Err(e);
            },
        };
        let ghost old_v = msgs_view(msgs@);
        msgs.push(msg);
        remainder = rest;
        proof {
            let pushed = msgs_view(msgs@)[old_v.len() as int];
            assert(msgs_view(msgs@) =~= old_v + seq![pushed]);
            match spec_parse_messages(remainder@) {
                Ok(ms) => {
                    assert(old_v + (seq![pushed] + ms) =~= (old_v + seq![pushed]) + ms);
                },
                Err(_) => {},
            }
        }
    }
    proof {
        assert(msgs_view(msgs@) + Seq::<ServerMsgV>::empty() =~= msgs_view(msgs@));
    }
    Ok(msgs)
}

/// Decodes the complete frames at the front of a streaming buffer,
/// returning the messages and how many bytes they occupied; a partial
/// frame at the tail is left for the caller to complete with further
/// reads.
#[verifier::loop_isolation(false)]
pub fn parse_available(buf: &[u8]) -> (r: Result<(Vec<ServerMsg>, usize), PgError>)
    ensures
        match r {
            Ok((msgs, consumed)) => {
                &&& consumed <= buf@.len()
                &&& spec_parse_available(buf@) == Ok::<(Seq<ServerMsgV>, Seq<u8>), ErrView>(
                    (msgs_view(msgs@), buf@.skip(consumed as int)),
                )
            },
            Err(e) => spec_parse_available(buf@) == Err::<(Seq<ServerMsgV>, Seq<u8>), ErrView>(e@),
        },
{
    let mut consumed: usize = 0;
    let mut msgs: Vec<ServerMsg> = Vec::new();
    proof {
        assert(msgs_view(msgs@) =~= Seq::<ServerMsgV>::empty());
        assert(buf@.skip(0) =~= buf@);
    }
    loop
        invariant
            consumed <= buf@.len(),
            spec_parse_available(buf@) == (match spec_parse_available(buf@.skip(consumed as int)) {
                Ok((ms, tail)) => Ok::<(Seq<ServerMsgV>, Seq<u8>), ErrView>(
                    (msgs_view(msgs@) + ms, tail),
                ),
                Err(e) => Err::<(Seq<ServerMsgV>, Seq<u8>), ErrView>(e),
            }),
        decreases buf@.len() - consumed,
    {
        let remainder = &buf[consumed..buf.len()];
        proof {
            assert(remainder@ =~= buf@.skip(consumed as int));
        }
        let (frame, rest) = match take_msg(remainder) {
            Ok(t) => t,
            Err(_) => {
                proof {
                    assert(msgs_view(msgs@) + Seq::<ServerMsgV>::empty() =~= msgs_view(msgs@));
                }
                return Ok((msgs, consumed));
            },
        };
        let msg = match ServerMsg::from_slice(frame) {
            Ok(m) => m,
            Err(e) => {
                return Err(e);
            },
        };
        let ghost old_v = msgs_view(msgs@);
        let ghost old_consumed = consumed as int;
        msgs.push(msg);
        consumed = consumed + frame.len();
        proof {
            assert(buf@.skip(consumed as int) =~= buf@.skip(old_consumed).skip(frame@.len() as int));
            let pushed = msgs_view(msgs@)[old_v.len() as int];
            assert(msgs_view(msgs@) =~= old_v + seq![pushed]);
            match spec_parse_available(buf@.skip(consumed as int)) {
                Ok((ms, tail)) => {
                    assert(old_v + (seq![pushed] + ms) =~= (old_v + seq![pushed]) + ms);
                },
                Err(_) => {},
            }
        }
    }
}

impl ServerMsg {
    /// Decodes one complete frame, identifier byte first, into a typed
    /// server message. The result is exactly [`spec_server_msg`] of the
    /// frame bytes.
    #[verifier::loop_isolation(false)]
    pub fn from_slice(message: &[u8]) -> (r: Result<ServerMsg, PgError>)
        ensures
            match r {
                Ok(msg) => spec_server_msg(message@) == Ok::<ServerMsgV, ErrView>(msg@),
                Err(e) => spec_server_msg(message@) == Err::<ServerMsgV, ErrView>(e@),
            },
    {
        if message.len() < 5 {
            return Err(PgError::Protocol("message too short".to_owned()));
        }
        let declared = slice_to_u32(&message[1..5]);
        if message.len() - 1 != declared as usize {
            return Err(PgError::Protocol("wrong length for message".to_owned()));
        }
        let identifier = message[0];
        let extra = &message[5..message.len()];
        proof {
            assert(extra@ =~= message@.skip(5));
        }
        match identifier {
            82 => {  // 'R': authentication request
                match AuthMsg::from_slice(extra) {
                    Ok(a) => Ok(ServerMsg::Auth(a)),
                    Err(e) => Err(e),
                }
            },
            83 => {  // 'S': parameter status
                let (name, _fixed1, rest1) = match take_cstring_plus_fixed(extra, 0) {
                    Ok(t) => t,
                    Err(e) => {
                        return Err(e);
                    },
                };
                proof {
                    match spec_cstring(extra@) {
                        Some((sb, rest)) => {
                            assert(rest.skip(0) =~= rest);
                        },
                        None => {
                            assert(false);
                        },
                    }
                }
                let (value, _fixed2, rest2) = match take_cstring_plus_fixed(rest1, 0) {
                    Ok(t) => t,
                    Err(e) => {
                        return Err(e);
                    },
                };
                proof {
                    match spec_cstring(rest1@) {
                        Some((vb, rest)) => {
                            assert(rest.skip(0) =~= rest);
                        },
                        None => {
                            assert(false);
                        },
                    }
                }
                if rest2.len() != 0 {
                    return Err(PgError::Protocol("extra value after param status".to_owned()));
                }
                Ok(ServerMsg::ParamStatus(name.to_owned(), value.to_owned()))
            },
            75 => {  // 'K': backend key data
                if extra.len() != 8 {
                    return Err(PgError::Protocol("wrong length for backend key data".to_owned()));
                }
                let pid = slice_to_u32(&extra[0..4]);
                let key = slice_to_u32(&extra[4..8]);
                proof {
                    lemma_be_val_u32(extra@.subrange(0, 4));
                    lemma_be_val_u32(extra@.subrange(4, 8));
                }
                Ok(ServerMsg::BackendKeyData(pid, key))
            },
            84 => {  // 'T': row description
                if extra.len() < 2 {
                    return Err(PgError::Protocol("field count missing".to_owned()));
                }
                let field_count = slice_to_u16(&extra[0..2]);
                let mut rem: &[u8] = &extra[2..extra.len()];
                proof {
                    assert(rem@ =~= extra@.skip(2));
                }
                let mut fields: Vec<FieldDescription> = Vec::new();
                let mut k: u16 = 0;
                proof {
                    assert(fields_view(fields@) =~= Seq::<FieldDescriptionV>::empty());
                }
                while k < field_count
                    invariant
                        k <= field_count,
                        spec_fields(extra@.skip(2), field_count as nat) == fields_step(
                            fields_view(fields@),
                            spec_fields(rem@, (field_count - k) as nat),
                        ),
                    decreases field_count - k,
                {
                    let (name, bytes18, rest) = match FieldDescription::take_field(rem) {
                        Ok(t) => t,
                        Err(e) => {
                            proof {
                                assert(spec_field(rem@) == Err::<
                                    (FieldDescriptionV, Seq<u8>),
                                    ErrView,
                                >(e@));
                                assert(spec_fields(rem@, (field_count - k) as nat) == Err::<
                                    (Seq<FieldDescriptionV>, Seq<u8>),
                                    ErrView,
                                >(e@));
                                assert(spec_fields(extra@.skip(2), field_count as nat) == Err::<
                                    (Seq<FieldDescriptionV>, Seq<u8>),
                                    ErrView,
                                >(e@));
                                assert(spec_row_description(extra@) == Err::<ServerMsgV, ErrView>(
                                    e@,
                                ));
                                assert(spec_server_msg(message@) == Err::<ServerMsgV, ErrView>(e@));
                            }
                            return Err(e);
                        },
                    };
                    proof {
                        match spec_cstring(rem@) {
                            Some((sb, r0)) => {
                                assert(r0.take(18).subrange(16, 18) =~= r0.subrange(16, 18));
                            },
                            None => {
                                assert(false);
                            },
                        }
                    }
                    let fd = match FieldDescription::new(name, bytes18) {
                        Ok(f) => f,
                        Err(e) => {
                            proof {
                                assert(spec_field(rem@) == Err::<
                                    (FieldDescriptionV, Seq<u8>),
                                    ErrView,
                                >(e@));
                                assert(spec_fields(rem@, (field_count - k) as nat) == Err::<
                                    (Seq<FieldDescriptionV>, Seq<u8>),
                                    ErrView,
                                >(e@));
                                assert(spec_fields(extra@.skip(2), field_count as nat) == Err::<
                                    (Seq<FieldDescriptionV>, Seq<u8>),
                                    ErrView,
                                >(e@));
                                assert(spec_row_description(extra@) == Err::<ServerMsgV, ErrView>(
                                    e@,
                                ));
                                assert(spec_server_msg(message@) == Err::<ServerMsgV, ErrView>(e@));
                            }
                            return Err(e);
                        },
                    };
                    let ghost old_rem = rem@;
                    let ghost old_v = fields_view(fields@);
                    proof {
                        assert(spec_field(old_rem) == Ok::<(FieldDescriptionV, Seq<u8>), ErrView>(
                            (fd@, rest@),
                        ));
                    }
                    fields.push(fd);
                    rem = rest;
                    k = k + 1;
                    proof {
                        assert(fields_view(fields@) =~= old_v + seq![fd@]);
                        match spec_fields(rem@, (field_count - k) as nat) {
                            Ok((fs, fin)) => {
                                assert(old_v + (seq![fd@] + fs) =~= (old_v + seq![fd@]) + fs);
                            },
                            Err(_) => {},
                        }
                    }
                }
                if rem.len() != 0 {
                    return Err(
                        PgError::Protocol("unexpected extra data in row description".to_owned()),
                    );
                }
                proof {
                    assert(fields_view(fields@) + Seq::<FieldDescriptionV>::empty() =~= fields_view(
                        fields@,
                    ));
                }
                Ok(ServerMsg::RowDescription(fields))
            },
            68 => {  // 'D': data row
                if extra.len() < 2 {
                    return Err(PgError::Protocol("value count missing".to_owned()));
                }
                let value_count = slice_to_u16(&extra[0..2]);
                let mut rem: &[u8] = &extra[2..extra.len()];
                proof {
                    assert(rem@ =~= extra@.skip(2));
                }
                let mut values: Vec<Option<String>> = Vec::new();
                let mut k: u16 = 0;
                proof {
                    assert(values_view(values@) =~= Seq::<Option<Seq<char>>>::empty());
                }
                while k < value_count
                    invariant
                        k <= value_count,
                        spec_values(extra@.skip(2), value_count as nat) == values_step(
                            values_view(values@),
                            spec_values(rem@, (value_count - k) as nat),
                        ),
                    decreases value_count - k,
                {
                    if rem.len() < 4 {
                        proof {
                            assert(spec_value(rem@) == Err::<
                                (Option<Seq<char>>, Seq<u8>),
                                ErrView,
                            >(ErrView::Protocol));
                            assert(spec_values(rem@, (value_count - k) as nat) == Err::<
                                (Seq<Option<Seq<char>>>, Seq<u8>),
                                ErrView,
                            >(ErrView::Protocol));
                            assert(spec_values(extra@.skip(2), value_count as nat) == Err::<
                                (Seq<Option<Seq<char>>>, Seq<u8>),
                                ErrView,
                            >(ErrView::Protocol));
                            assert(spec_data_row(extra@) == Err::<ServerMsgV, ErrView>(
                                ErrView::Protocol,
                            ));
                            assert(spec_server_msg(message@) == Err::<ServerMsgV, ErrView>(
                                ErrView::Protocol,
                            ));
                        }
                        return Err(PgError::Protocol("value length missing".to_owned()));
                    }
                    let size = slice_to_u32(&rem[0..4]);
                    let ghost old_rem = rem@;
                    let ghost old_v = values_view(values@);
                    if size == 0xffff_ffff {
                        values.push(None);
                        let next = &rem[4..rem.len()];
                        proof {
                            assert(next@ =~= old_rem.skip(4));
                        }
                        rem = next;
                        proof {
                            assert(spec_value(old_rem) == Ok::<
                                (Option<Seq<char>>, Seq<u8>),
                                ErrView,
                            >((None, old_rem.skip(4))));
                        }
                    } else {
                        let (s, more) = match take_sized_string(rem) {
                            Ok(t) => t,
                            Err(e) => {
                                proof {
                                    assert(spec_value(rem@) == Err::<
                                        (Option<Seq<char>>, Seq<u8>),
                                        ErrView,
                                    >(e@));
                                    assert(spec_values(rem@, (value_count - k) as nat) == Err::<
                                        (Seq<Option<Seq<char>>>, Seq<u8>),
                                        ErrView,
                                    >(e@));
                                    assert(spec_data_row(extra@) == Err::<ServerMsgV, ErrView>(e@));
                                    assert(spec_server_msg(message@) == Err::<ServerMsgV, ErrView>(
                                        e@,
                                    ));
                                }
                                return Err(e);
                            },
                        };
                        values.push(Some(s.to_owned()));
                        rem = more;
                        proof {
                            assert(spec_value(old_rem) == Ok::<
                                (Option<Seq<char>>, Seq<u8>),
                                ErrView,
                            >(
                                (
                                    Some(
                                        decode_utf8(
                                            old_rem.subrange(
                                                4,
                                                4 + be_val(old_rem.subrange(0, 4)) as int,
                                            ),
                                        ),
                                    ),
                                    old_rem.skip(4 + be_val(old_rem.subrange(0, 4)) as int),
                                ),
                            ));
                        }
                    }
                    k = k + 1;
                    proof {
                        let pushed = values_view(values@)[old_v.len() as int];
                        assert(values_view(values@) =~= old_v + seq![pushed]);
                        match spec_values(rem@, (value_count - k) as nat) {
                            Ok((vs, fin)) => {
                                assert(old_v + (seq![pushed] + vs) =~= (old_v + seq![pushed]) + vs);
                            },
                            Err(_) => {},
                        }
                    }
                }
                if rem.len() != 0 {
                    return Err(PgError::Protocol("unexpected extra data in data row".to_owned()));
                }
                proof {
                    assert(values_view(values@) + Seq::<Option<Seq<char>>>::empty() =~= values_view(
                        values@,
                    ));
                }
                Ok(ServerMsg::DataRow(values))
            },
            67 => {  // 'C': command complete
                let (tag, _fixed, rest) = match take_cstring_plus_fixed(extra, 0) {
                    Ok(t) => t,
                    Err(e) => {
                        return Err(e);
                    },
                };
                if rest.len() != 0 {
                    return Err(
                        PgError::Protocol("unexpected extra data in command complete".to_owned()),
                    );
                }
                proof {
                    match spec_cstring(extra@) {
                        Some((tb, r0)) => {
                            assert(r0.skip(0) =~= r0);
                        },
                        None => {
                            assert(false);
                        },
                    }
                }
                Ok(ServerMsg::CommandComplete(tag.to_owned()))
            },
            90 => {  // 'Z': ready for query
                if extra.len() != 1 {
                    return Err(
                        PgError::Protocol("wrong length for ready for query".to_owned()),
                    );
                }
                Ok(ServerMsg::ReadyForQuery(extra[0]))
            },
            78 => {  // 'N': notice response
                match parse_err_fields(extra) {
                    Ok(fields) => Ok(ServerMsg::NoticeResponse(fields)),
                    Err(e) => Err(e),
                }
            },
            69 => {  // 'E': error response
                match parse_err_fields(extra) {
                    Ok(fields) => Ok(ServerMsg::ErrorResponse(fields)),
                    Err(e) => Err(e),
                }
            },
            _ => {
                proof {
                    assert(message@.subrange(0, 1) =~= seq![message@[0]]);
                }
                match try_utf8(&message[0..1]) {
                    Some(s) => {
                        let payload = vstd::slice::slice_to_vec(extra);
                        Ok(ServerMsg::Unknown(s.to_owned(), payload))
                    },
                    None => Err(PgError::Utf8),
                }
            },
        }
    }
}

} // verus!
