//! Outbound side of the wire protocol: the envelope shared by every
//! client-originated message (optional identifier byte, big-endian 4-byte
//! length counting itself, payload) and the four message encoders.
use vstd::prelude::*;

use crate::error::PgError;
use crate::servermsg::{be_val, pow256};
use vstd::utf8::encode_utf8;

verus! {

/// The big-endian bytes of `x`, `n` bytes long, least-significant byte
/// last.
pub open spec fn nat_to_be(x: nat, n: nat) -> Seq<u8>
    decreases n,
{
    if n == 0 {
        Seq::empty()
    } else {
        nat_to_be(x / 256, (n - 1) as nat).push((x % 256) as u8)
    }
}

/// The four big-endian bytes of a 32-bit value.
pub open spec fn spec_u32_be(x: u32) -> Seq<u8> {
    nat_to_be(x as nat, 4)
}

/// Writing `n` big-endian bytes and reading them back yields the value.
pub proof fn lemma_nat_to_be_val(x: nat, n: nat)
    requires
        x < pow256(n),
    ensures
        nat_to_be(x, n).len() == n,
        be_val(nat_to_be(x, n)) == x,
    decreases n,
{
    if n == 0 {
    } else {
        assert(x < 256 * pow256((n - 1) as nat));
        assert(x / 256 < pow256((n - 1) as nat)) by {
            if x / 256 >= pow256((n - 1) as nat) {
                assert(x >= 256 * pow256((n - 1) as nat)) by (nonlinear_arith)
                    requires
                        x / 256 >= pow256((n - 1) as nat),
                ;
            }
        }
        lemma_nat_to_be_val(x / 256, (n - 1) as nat);
        assert(nat_to_be(x, n).drop_last() =~= nat_to_be(x / 256, (n - 1) as nat));
        assert(x / 256 * 256 + x % 256 == x);
    }
}

/// Emits the four big-endian bytes of `x`.
pub fn u32_to_be(x: u32) -> (r: Vec<u8>)
    ensures
        r@ == spec_u32_be(x),
        r@.len() == 4,
{
    let d3 = (x % 256) as u8;
    let x1 = x / 256;
    let d2 = (x1 % 256) as u8;
    let x2 = x1 / 256;
    let d1 = (x2 % 256) as u8;
    let x3 = x2 / 256;
    let d0 = (x3 % 256) as u8;
    let mut v: Vec<u8> = Vec::new();
    v.push(d0);
    v.push(d1);
    v.push(d2);
    v.push(d3);
    proof {
        assert(x1 <= 0xffffff);
        assert(x2 <= 0xffff);
        assert(x3 <= 0xff);
        assert(x3 as nat / 256 == 0);
        assert(nat_to_be(x3 as nat / 256, 0) =~= Seq::<u8>::empty());
        assert(nat_to_be(x3 as nat, 1) =~= seq![d0]);
        assert(nat_to_be(x2 as nat, 2) =~= seq![d0, d1]);
        assert(nat_to_be(x1 as nat, 3) =~= seq![d0, d1, d2]);
        assert(v@ =~= nat_to_be(x as nat, 4));
    }
    v
}

/// A null-terminated string on the wire: the UTF-8 bytes of the text, then
/// a zero byte.
pub open spec fn cstr_bytes(s: Seq<char>) -> Seq<u8> {
    encode_utf8(s) + seq![0u8]
}

/// The envelope rule: the identifier byte if there is one, then the payload
/// length plus four as a big-endian 32-bit value, then the payload.
pub open spec fn spec_frame(id: Option<u8>, body: Seq<u8>) -> Seq<u8> {
    (match id {
        Some(i) => seq![i],
        None => Seq::empty(),
    }) + spec_u32_be((body.len() + 4) as u32) + body
}

/// Appends the UTF-8 bytes of `s` and a terminating zero byte to `body`.
fn extend_string(body: &mut Vec<u8>, s: &str)
    ensures
        final(body)@ == old(body)@ + cstr_bytes(s@),
{
    let bs = s.as_bytes();
    body.extend_from_slice(bs);
    body.push(0);
    proof {
        assert(body@ =~= old(body)@ + cstr_bytes(s@));
    }
}

/// A client-originated message: an optional identifier byte and a payload,
/// sent inside the common envelope.
pub trait Message {
    /// The identifier byte of this message type, if it has one.
    spec fn id_spec(&self) -> Option<u8>;

    /// The payload bytes of this message.
    spec fn body_spec(&self) -> Seq<u8>;

    fn get_id(&self) -> (r: Option<u8>)
        ensures
            r == self.id_spec(),
    ;

    fn get_body(&self) -> (r: Vec<u8>)
        ensures
            r@ == self.body_spec(),
    ;

    /// Encodes the whole frame: identifier (if any), length, payload.
    fn to_bytes(&self) -> (r: Vec<u8>)
        requires
            self.body_spec().len() + 4 <= u32::MAX,
        ensures
            r@ == spec_frame(self.id_spec(), self.body_spec()),
    {
        let body = self.get_body();
        let length = (body.len() + 4) as u32;
        let mut bytes: Vec<u8> = Vec::new();
        match self.get_id() {
            Some(id) => bytes.push(id),
            None => {},
        }
        let mut len_bytes = u32_to_be(length);
        bytes.append(&mut len_bytes);
        let mut body_owned = body;
        bytes.append(&mut body_owned);
        proof {
            assert(bytes@ =~= spec_frame(self.id_spec(), self.body_spec()));
        }
        bytes
    }
}

/// The payload of a startup message: the protocol version, the `user`
/// parameter, the optional `database` parameter, the extra parameters in
/// order, and a closing zero byte.
pub open spec fn startup_body(
    user: Seq<char>,
    database: Option<Seq<char>>,
    params: Seq<(String, String)>,
) -> Seq<u8> {
    seq![0u8, 3u8, 0u8, 0u8] + cstr_bytes("user"@) + cstr_bytes(user) + (match database {
        Some(db) => cstr_bytes("database"@) + cstr_bytes(db),
        None => Seq::empty(),
    }) + params_bytes(params) + seq![0u8]
}

/// The wire form of the extra startup parameters: each name and value as a
/// null-terminated string.
pub open spec fn params_bytes(ps: Seq<(String, String)>) -> Seq<u8>
    decreases ps.len(),
{
    if ps.len() == 0 {
        Seq::empty()
    } else {
        cstr_bytes(ps[0].0@) + cstr_bytes(ps[0].1@) + params_bytes(ps.drop_first())
    }
}

/// The first message of a session: no identifier byte, and the payload
/// described by [`startup_body`].
#[derive(Debug, Eq, PartialEq)]
pub struct StartupMessage {
    pub user: String,
    pub database: Option<String>,
    pub params: Vec<(String, String)>,
}

impl Message for StartupMessage {
    open spec fn id_spec(&self) -> Option<u8> {
        None
    }

    open spec fn body_spec(&self) -> Seq<u8> {
        startup_body(
            self.user@,
            match self.database {
                Some(ref db) => Some(db@),
                None => None,
            },
            self.params@,
        )
    }

    fn get_id(&self) -> (r: Option<u8>) {
        None
    }

    #[verifier::loop_isolation(false)]
    fn get_body(&self) -> (r: Vec<u8>) {
        let mut body: Vec<u8> = Vec::new();
        body.push(0);
        body.push(3);
        body.push(0);
        body.push(0);
        extend_string(&mut body, "user");
        extend_string(&mut body, self.user.as_str());
        match &self.database {
            Some(db) => {
                extend_string(&mut body, "database");
                extend_string(&mut body, db.as_str());
            },
            None => {},
        }
        let ghost head = body@;
        proof {
            assert(self.params@.skip(0) =~= self.params@);
        }
        let mut i: usize = 0;
        while i < self.params.len()
            invariant
                i <= self.params@.len(),
                body@ + params_bytes(self.params@.skip(i as int)) == head + params_bytes(
                    self.params@,
                ),
            decreases self.params@.len() - i,
        {
            let ghost before = body@;
            let pair = &self.params[i];
            extend_string(&mut body, pair.0.as_str());
            extend_string(&mut body, pair.1.as_str());
            proof {
                let ps = self.params@.skip(i as int);
                assert(ps[0] == self.params@[i as int]);
                assert(ps.drop_first() =~= self.params@.skip(i as int + 1));
                assert(body@ + params_bytes(self.params@.skip(i as int + 1)) =~= before
                    + params_bytes(ps));
            }
            i = i + 1;
        }
        proof {
            assert(params_bytes(self.params@.skip(self.params@.len() as int))
                =~= Seq::<u8>::empty());
            assert(body@ =~= head + params_bytes(self.params@));
        }
        body.push(0);
        proof {
            assert(body@ =~= self.body_spec());
        }
        body
    }
}

/// The response to an authentication challenge: identifier `p`, payload one
/// null-terminated string holding the password or its MD5 digest.
#[derive(Debug, Eq, PartialEq)]
pub struct PasswordMessage {
    pub hash: String,
}

impl Message for PasswordMessage {
    open spec fn id_spec(&self) -> Option<u8> {
        Some(0x70u8)
    }

    open spec fn body_spec(&self) -> Seq<u8> {
        cstr_bytes(self.hash@)
    }

    fn get_id(&self) -> (r: Option<u8>) {
        Some(0x70)
    }

    fn get_body(&self) -> (r: Vec<u8>) {
        let mut body: Vec<u8> = Vec::new();
        extend_string(&mut body, self.hash.as_str());
        proof {
            assert(body@ =~= self.body_spec());
        }
        body
    }
}

/// The session-closing message: identifier `X`, empty payload; always the
/// five bytes `58 00 00 00 04`.
#[derive(Debug, Eq, PartialEq)]
pub struct Terminate;

impl Message for Terminate {
    open spec fn id_spec(&self) -> Option<u8> {
        Some(0x58u8)
    }

    open spec fn body_spec(&self) -> Seq<u8> {
        Seq::empty()
    }

    fn get_id(&self) -> (r: Option<u8>) {
        Some(0x58)
    }

    fn get_body(&self) -> (r: Vec<u8>) {
        let body: Vec<u8> = Vec::new();
        proof {
            assert(body@ =~= self.body_spec());
        }
        body
    }
}

/// A simple textual query: identifier `Q`, payload one null-terminated SQL
/// string.
#[derive(Debug, Eq, PartialEq)]
pub struct Query {
    pub query: String,
}

impl Message for Query {
    open spec fn id_spec(&self) -> Option<u8> {
        Some(0x51u8)
    }

    open spec fn body_spec(&self) -> Seq<u8> {
        cstr_bytes(self.query@)
    }

    fn get_id(&self) -> (r: Option<u8>) {
        Some(0x51)
    }

    fn get_body(&self) -> (r: Vec<u8>) {
        let mut body: Vec<u8> = Vec::new();
        extend_string(&mut body, self.query.as_str());
        proof {
            assert(body@ =~= self.body_spec());
        }
        body
    }
}

/// Encodes a query frame, rejecting a SQL string whose encoding would
/// overflow the frame length field.
pub fn encode_query(sql: &str) -> (r: Result<Vec<u8>, PgError>)
    ensures
        match r {
            Ok(b) => {
                &&& encode_utf8(sql@).len() + 5 <= u32::MAX
                &&& b@ == spec_frame(Some(0x51u8), cstr_bytes(sql@))
            },
            Err(e) => encode_utf8(sql@).len() + 5 > u32::MAX && e@ is Other,
        },
{
    let q = Query { query: sql.to_owned() };
    let body = q.get_body();
    if body.len() > (u32::MAX - 4) as usize {
        return Err(PgError::Other);
    }
    proof {
        assert(q.body_spec().len() == encode_utf8(sql@).len() + 1);
    }
    Ok(q.to_bytes())
}

/// Encodes a password-message frame, rejecting a string whose encoding
/// would overflow the frame length field.
pub fn encode_password(hash: &str) -> (r: Result<Vec<u8>, PgError>)
    ensures
        match r {
            Ok(b) => {
                &&& encode_utf8(hash@).len() + 5 <= u32::MAX
                &&& b@ == spec_frame(Some(0x70u8), cstr_bytes(hash@))
            },
            Err(e) => encode_utf8(hash@).len() + 5 > u32::MAX && e@ is Other,
        },
{
    let m = PasswordMessage { hash: hash.to_owned() };
    let body = m.get_body();
    if body.len() > (u32::MAX - 4) as usize {
        return Err(PgError::Other);
    }
    proof {
        assert(m.body_spec().len() == encode_utf8(hash@).len() + 1);
    }
    Ok(m.to_bytes())
}

/// Encodes a startup frame, rejecting parameters whose encoding would
/// overflow the frame length field.
pub fn encode_startup(user: &str, database: Option<&str>, params: Vec<(String, String)>) -> (r:
    Result<Vec<u8>, PgError>)
    ensures
        ({
            let dbv = match database {
                Some(db) => Some(db@),
                None => None,
            };
            match r {
                Ok(b) => {
                    &&& startup_body(user@, dbv, params@).len() + 4 <= u32::MAX
                    &&& b@ == spec_frame(None, startup_body(user@, dbv, params@))
                },
                Err(e) => startup_body(user@, dbv, params@).len() + 4 > u32::MAX && e@ is Other,
            }
        }),
{
    let msg = StartupMessage {
        user: user.to_owned(),
        database: match database {
            Some(db) => Some(db.to_owned()),
            None => None,
        },
        params,
    };
    let body = msg.get_body();
    if body.len() > (u32::MAX - 4) as usize {
        return Err(PgError::Other);
    }
    Ok(msg.to_bytes())
}

} // verus!
