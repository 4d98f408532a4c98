//! The laws that tie the two sides of the codec together: framing
//! round-trips, length consistency, framer progress over concatenated
//! frames, refusal of truncated frames, and decoder/encoder symmetry for
//! the message types both sides can express.
use vstd::prelude::*;

use crate::error::ErrView;
use crate::message::{cstr_bytes, spec_frame, spec_u32_be, lemma_nat_to_be_val};
use crate::servermsg::{
    be_val, lemma_first_nul_at, pow256, spec_cstring, spec_server_msg, spec_take_msg, ServerMsgV,
};
use vstd::utf8::{
    decode_utf8, encode_scalar, encode_utf8, encode_utf8_decode_utf8, encode_utf8_valid_utf8,
    valid_utf8,
};

verus! {

pub proof fn lemma_pow256_4()
    ensures
        pow256(4) == 0x1_0000_0000,
{
    assert(pow256(0) == 1);
    assert(pow256(1) == 256);
    assert(pow256(2) == 65536);
    assert(pow256(3) == 16777216);
    assert(pow256(4) == 4294967296);
}

/// How an identifier-bearing frame decomposes: its identifier, its length
/// field, and its payload.
pub proof fn lemma_frame_shape(id: u8, body: Seq<u8>)
    requires
        body.len() + 4 <= u32::MAX,
    ensures
        spec_frame(Some(id), body).len() == body.len() + 5,
        spec_frame(Some(id), body)[0] == id,
        spec_frame(Some(id), body).subrange(1, 5) == spec_u32_be((body.len() + 4) as u32),
        be_val(spec_frame(Some(id), body).subrange(1, 5)) == body.len() + 4,
        spec_frame(Some(id), body).skip(5) == body,
{
    lemma_pow256_4();
    lemma_nat_to_be_val((body.len() + 4) as nat, 4);
    let frame = spec_frame(Some(id), body);
    assert(spec_u32_be((body.len() + 4) as u32).len() == 4);
    assert(frame.subrange(1, 5) =~= spec_u32_be((body.len() + 4) as u32));
    assert(frame.skip(5) =~= body);
}

/// Length consistency: in an identifier-bearing frame the length field
/// plus one is the frame's size; in the identifier-less startup frame the
/// length field itself is the frame's size.
pub proof fn lemma_length_consistency(id: u8, body: Seq<u8>)
    requires
        body.len() + 4 <= u32::MAX,
    ensures
        be_val(spec_frame(Some(id), body).subrange(1, 5)) + 1 == spec_frame(Some(id), body).len(),
        be_val(spec_frame(None, body).subrange(0, 4)) == spec_frame(None, body).len(),
{
    lemma_frame_shape(id, body);
    lemma_pow256_4();
    lemma_nat_to_be_val((body.len() + 4) as nat, 4);
    assert(spec_frame(None, body).subrange(0, 4) =~= spec_u32_be((body.len() + 4) as u32));
}

/// Round-trip framing: the framer returns an identifier-bearing encoder
/// output whole, with nothing left over. The startup message is the one
/// encoder output without an identifier byte; it is framed by its leading
/// length field instead and never passes through `take_msg`, which would
/// misread its bytes, so it is left out here.
pub proof fn lemma_round_trip_framing(id: u8, body: Seq<u8>)
    requires
        body.len() + 4 <= u32::MAX,
    ensures
        spec_take_msg(spec_frame(Some(id), body)) == Some(
            (spec_frame(Some(id), body), Seq::<u8>::empty()),
        ),
{
    lemma_frame_shape(id, body);
    let frame = spec_frame(Some(id), body);
    assert(frame.take(frame.len() as int) =~= frame);
    assert(frame.skip(frame.len() as int) =~= Seq::<u8>::empty());
}

/// A frame as the framer sees it: long enough for the header, and sized
/// exactly as its length field declares.
pub open spec fn is_wf_frame(f: Seq<u8>) -> bool {
    f.len() >= 5 && be_val(f.subrange(1, 5)) + 1 == f.len()
}

/// No partial acceptance: the framer refuses every strict prefix of a
/// well-formed frame, and so consumes nothing of it.
pub proof fn lemma_no_partial_acceptance(f: Seq<u8>, k: int)
    requires
        is_wf_frame(f),
        0 <= k < f.len(),
    ensures
        spec_take_msg(f.take(k)) is None,
{
    if k >= 5 {
        assert(f.take(k).subrange(1, 5) =~= f.subrange(1, 5));
    }
}

/// A sequence of frames laid end to end.
pub open spec fn concat_frames(fs: Seq<Seq<u8>>) -> Seq<u8>
    decreases fs.len(),
{
    if fs.len() == 0 {
        Seq::empty()
    } else {
        fs[0] + concat_frames(fs.drop_first())
    }
}

/// All the frames that successive `take_msg` calls split a buffer into,
/// when the buffer holds a whole number of frames.
pub open spec fn take_all_frames(b: Seq<u8>) -> Option<Seq<Seq<u8>>>
    decreases b.len(),
{
    if b.len() == 0 {
        Some(Seq::empty())
    } else {
        match spec_take_msg(b) {
            None => None,
            Some((f, rest)) => match take_all_frames(rest) {
                None => None,
                Some(fs) => Some(seq![f] + fs),
            },
        }
    }
}

/// The framer takes a well-formed frame off the front of any buffer that
/// starts with one, leaving exactly what follows.
pub proof fn lemma_take_msg_prefix(f: Seq<u8>, rest: Seq<u8>)
    requires
        is_wf_frame(f),
    ensures
        spec_take_msg(f + rest) == Some((f, rest)),
{
    let b = f + rest;
    assert(b.subrange(1, 5) =~= f.subrange(1, 5));
    assert(b.take(f.len() as int) =~= f);
    assert(b.skip(f.len() as int) =~= rest);
}

/// Framer progress: successive `take_msg` calls split a concatenation of
/// well-formed frames into exactly those frames, with no remainder.
pub proof fn lemma_framer_progress(fs: Seq<Seq<u8>>)
    requires
        forall|i: int| 0 <= i < fs.len() ==> is_wf_frame(#[trigger] fs[i]),
    ensures
        take_all_frames(concat_frames(fs)) == Some(fs),
    decreases fs.len(),
{
    if fs.len() == 0 {
        assert(concat_frames(fs) =~= Seq::<u8>::empty());
        assert(take_all_frames(concat_frames(fs)).unwrap() =~= fs);
    } else {
        let rest = concat_frames(fs.drop_first());
        lemma_take_msg_prefix(fs[0], rest);
        lemma_framer_progress(fs.drop_first());
        assert(seq![fs[0]] + fs.drop_first() =~= fs);
    }
}

/// No byte of the UTF-8 encoding of a null-free character sequence is
/// zero: a zero byte encodes only the null character.
pub proof fn lemma_encode_scalar_no_nul(c: char)
    requires
        c != '\0',
    ensures
        forall|j: int|
            0 <= j < encode_scalar(c as u32).len() ==> #[trigger] encode_scalar(c as u32)[j]
                != 0u8,
{
    vstd::utf8::char_is_scalar(c);
    let s = c as u32;
    if s == 0 {
        vstd::utf8::char_u32_cast(c, s);
        assert(('\0' as u32) == 0);
        vstd::utf8::char_u32_cast('\0', 0);
        assert(false);
    }
    assert((s & 0x7F) as u8 != 0u8 || s > 0x7f) by (bit_vector)
        requires
            s != 0,
    ;
    assert((0xC0u8 | (((s >> 6) & 0x1F) as u8)) != 0u8) by (bit_vector);
    assert((0xE0u8 | (((s >> 12) & 0x0F) as u8)) != 0u8) by (bit_vector);
    assert((0xF0u8 | (((s >> 18) & 0x7) as u8)) != 0u8) by (bit_vector);
    assert((0x80u8 | ((s & 0x3F) as u8)) != 0u8) by (bit_vector);
    assert((0x80u8 | (((s >> 6) & 0x3F) as u8)) != 0u8) by (bit_vector);
    assert((0x80u8 | (((s >> 12) & 0x3F) as u8)) != 0u8) by (bit_vector);
}

pub proof fn lemma_encode_utf8_no_nul(s: Seq<char>)
    requires
        forall|i: int| 0 <= i < s.len() ==> s[i] != '\0',
    ensures
        forall|j: int| 0 <= j < encode_utf8(s).len() ==> encode_utf8(s)[j] != 0u8,
    decreases s.len(),
{
    if s.len() > 0 {
        lemma_encode_scalar_no_nul(s[0]);
        lemma_encode_utf8_no_nul(s.drop_first());
        assert forall|j: int| 0 <= j < encode_utf8(s).len() implies encode_utf8(s)[j] != 0u8 by {
            let head = encode_scalar(s[0] as u32);
            let tail = encode_utf8(s.drop_first());
            assert(encode_utf8(s) == head + tail);
            if j < head.len() {
                assert(encode_utf8(s)[j] == head[j]);
            } else {
                assert(encode_utf8(s)[j] == tail[j - head.len()]);
            }
        }
    }
}

/// Splitting a null-terminated encoded string off a buffer recovers the
/// original characters and what follows the terminator.
pub proof fn lemma_cstring_split(s: Seq<char>, rest: Seq<u8>)
    requires
        forall|i: int| 0 <= i < s.len() ==> s[i] != '\0',
    ensures
        spec_cstring(cstr_bytes(s) + rest) == Some((encode_utf8(s), rest)),
        valid_utf8(encode_utf8(s)),
        decode_utf8(encode_utf8(s)) == s,
{
    broadcast use encode_utf8_valid_utf8, encode_utf8_decode_utf8;

    lemma_encode_utf8_no_nul(s);
    let b = cstr_bytes(s) + rest;
    let n = encode_utf8(s).len() as int;
    assert(b[n] == 0u8);
    assert forall|j: int| 0 <= j < n implies b[j] != 0u8 by {
        assert(b[j] == encode_utf8(s)[j]);
    }
    lemma_first_nul_at(b, n);
    assert(b.take(n) =~= encode_utf8(s));
    assert(b.skip(n + 1) =~= rest);
}

/// Decoding a single byte below 0x80 yields the character with that code.
pub proof fn lemma_decode_single_ascii(b: u8)
    requires
        b < 0x80,
    ensures
        valid_utf8(seq![b]),
        decode_utf8(seq![b]) == seq![(b as u32) as char],
{
    let s = seq![b];
    assert((b & 0x7F) == b) by (bit_vector)
        requires
            b < 0x80,
    ;
    assert(vstd::utf8::is_leading_byte_width_1(b));
    assert(vstd::utf8::length_of_first_codepoint(s) == 1);
    assert(vstd::utf8::decode_first_codepoint(s) == b as u32);
    assert(vstd::utf8::valid_first_scalar(s));
    assert(vstd::utf8::length_of_first_scalar(s) == 1);
    assert(vstd::utf8::pop_first_scalar(s) =~= Seq::<u8>::empty());
    assert(valid_utf8(Seq::<u8>::empty()));
    assert(valid_utf8(s));
    assert(decode_utf8(Seq::<u8>::empty()) =~= Seq::<char>::empty());
    assert(decode_utf8(s) =~= seq![(b as u32) as char]);
}

/// Decoder/encoder symmetry for parameter status: decoding the wire form
/// of a (name, value) pair yields that pair.
pub proof fn lemma_param_status_roundtrip(name: Seq<char>, value: Seq<char>)
    requires
        forall|i: int| 0 <= i < name.len() ==> name[i] != '\0',
        forall|i: int| 0 <= i < value.len() ==> value[i] != '\0',
        cstr_bytes(name).len() + cstr_bytes(value).len() + 4 <= u32::MAX,
    ensures
        spec_server_msg(spec_frame(Some(83u8), cstr_bytes(name) + cstr_bytes(value))) == Ok::<
            ServerMsgV,
            ErrView,
        >(ServerMsgV::ParamStatus(name, value)),
{
    let body = cstr_bytes(name) + cstr_bytes(value);
    lemma_frame_shape(83, body);
    lemma_cstring_split(name, cstr_bytes(value));
    lemma_cstring_split(value, Seq::<u8>::empty());
    assert(cstr_bytes(value) + Seq::<u8>::empty() =~= cstr_bytes(value));
}

/// Decoder/encoder symmetry for backend key data: decoding the wire form
/// of a (pid, key) pair yields that pair.
pub proof fn lemma_backend_key_data_roundtrip(pid: u32, key: u32)
    ensures
        spec_server_msg(spec_frame(Some(75u8), spec_u32_be(pid) + spec_u32_be(key))) == Ok::<
            ServerMsgV,
            ErrView,
        >(ServerMsgV::BackendKeyData(pid, key)),
{
    lemma_pow256_4();
    lemma_nat_to_be_val(pid as nat, 4);
    lemma_nat_to_be_val(key as nat, 4);
    let body = spec_u32_be(pid) + spec_u32_be(key);
    lemma_frame_shape(75, body);
    assert(body.subrange(0, 4) =~= spec_u32_be(pid));
    assert(body.subrange(4, 8) =~= spec_u32_be(key));
}

/// Decoder/encoder symmetry for ready-for-query: decoding the wire form of
/// a transaction status byte yields that byte.
pub proof fn lemma_ready_for_query_roundtrip(status: u8)
    ensures
        spec_server_msg(spec_frame(Some(90u8), seq![status])) == Ok::<ServerMsgV, ErrView>(
            ServerMsgV::ReadyForQuery(status),
        ),
{
    lemma_frame_shape(90, seq![status]);
}

/// Decoder/encoder symmetry for command complete: decoding the wire form
/// of a command tag yields that tag.
pub proof fn lemma_command_complete_roundtrip(tag: Seq<char>)
    requires
        forall|i: int| 0 <= i < tag.len() ==> tag[i] != '\0',
        cstr_bytes(tag).len() + 4 <= u32::MAX,
    ensures
        spec_server_msg(spec_frame(Some(67u8), cstr_bytes(tag))) == Ok::<ServerMsgV, ErrView>(
            ServerMsgV::CommandComplete(tag),
        ),
{
    lemma_frame_shape(67, cstr_bytes(tag));
    lemma_cstring_split(tag, Seq::<u8>::empty());
    assert(cstr_bytes(tag) + Seq::<u8>::empty() =~= cstr_bytes(tag));
}

/// Decoder/encoder symmetry for the query message: the decoder knows no
/// `Q` message (the server never sends one), so it surfaces the frame as
/// `Unknown` with the identifier and the raw payload, from which the SQL
/// text is recovered exactly.
pub proof fn lemma_query_roundtrip(sql: Seq<char>)
    requires
        forall|i: int| 0 <= i < sql.len() ==> sql[i] != '\0',
        cstr_bytes(sql).len() + 4 <= u32::MAX,
    ensures
        spec_server_msg(spec_frame(Some(0x51u8), cstr_bytes(sql))) == Ok::<ServerMsgV, ErrView>(
            ServerMsgV::Unknown(seq!['Q'], cstr_bytes(sql)),
        ),
        spec_cstring(cstr_bytes(sql)) == Some((encode_utf8(sql), Seq::<u8>::empty())),
        decode_utf8(encode_utf8(sql)) == sql,
{
    lemma_frame_shape(0x51, cstr_bytes(sql));
    lemma_decode_single_ascii(0x51);
    assert(('Q' as u32) == 0x51);
    vstd::utf8::char_u32_cast('Q', 0x51);
    assert(decode_utf8(seq![0x51u8]) =~= seq!['Q']);
    lemma_cstring_split(sql, Seq::<u8>::empty());
    assert(cstr_bytes(sql) + Seq::<u8>::empty() =~= cstr_bytes(sql));
}

/// Decoder/encoder symmetry for the password message, surfaced as
/// `Unknown` exactly as the query message is.
pub proof fn lemma_password_roundtrip(hash: Seq<char>)
    requires
        forall|i: int| 0 <= i < hash.len() ==> hash[i] != '\0',
        cstr_bytes(hash).len() + 4 <= u32::MAX,
    ensures
        spec_server_msg(spec_frame(Some(0x70u8), cstr_bytes(hash))) == Ok::<ServerMsgV, ErrView>(
            ServerMsgV::Unknown(seq!['p'], cstr_bytes(hash)),
        ),
        spec_cstring(cstr_bytes(hash)) == Some((encode_utf8(hash), Seq::<u8>::empty())),
        decode_utf8(encode_utf8(hash)) == hash,
{
    lemma_frame_shape(0x70, cstr_bytes(hash));
    lemma_decode_single_ascii(0x70);
    assert(('p' as u32) == 0x70);
    vstd::utf8::char_u32_cast('p', 0x70);
    assert(decode_utf8(seq![0x70u8]) =~= seq!['p']);
    lemma_cstring_split(hash, Seq::<u8>::empty());
    assert(cstr_bytes(hash) + Seq::<u8>::empty() =~= cstr_bytes(hash));
}

/// Decoder/encoder symmetry for the terminate message: its five fixed
/// bytes decode to `Unknown` with identifier `X` and an empty payload.
pub proof fn lemma_terminate_roundtrip()
    ensures
        spec_frame(Some(0x58u8), Seq::<u8>::empty()) =~= seq![0x58u8, 0u8, 0u8, 0u8, 4u8],
        spec_server_msg(spec_frame(Some(0x58u8), Seq::<u8>::empty())) == Ok::<ServerMsgV, ErrView>(
            ServerMsgV::Unknown(seq!['X'], Seq::<u8>::empty()),
        ),
{
    lemma_frame_shape(0x58, Seq::<u8>::empty());
    lemma_decode_single_ascii(0x58);
    assert(('X' as u32) == 0x58);
    vstd::utf8::char_u32_cast('X', 0x58);
    assert(decode_utf8(seq![0x58u8]) =~= seq!['X']);
    assert(crate::message::nat_to_be(4, 4) =~= seq![0u8, 0u8, 0u8, 4u8]) by {
        assert(crate::message::nat_to_be(4, 4) == crate::message::nat_to_be(0, 3).push(4u8));
        assert(crate::message::nat_to_be(0, 3) == crate::message::nat_to_be(0, 2).push(0u8));
        assert(crate::message::nat_to_be(0, 2) == crate::message::nat_to_be(0, 1).push(0u8));
        assert(crate::message::nat_to_be(0, 1) == crate::message::nat_to_be(0, 0).push(0u8));
    }
    assert(spec_frame(Some(0x58u8), Seq::<u8>::empty()) =~= seq![0x58u8, 0u8, 0u8, 0u8, 4u8]);
}

} // verus!
