//! The MD5 challenge-response primitive: given the user name, the password
//! and the server's four-byte salt, the password message body is
//! `"md5" ‖ hex(md5(hex(md5(password ‖ user)) ‖ salt))` with lowercase
//! 32-character hexadecimal digests.
use crypto::digest::Digest;
use crypto::md5::Md5;
use vstd::prelude::*;

use vstd::string::{StringExecFns, StringSliceAdditionalSpecFns};
use vstd::utf8::{encode_utf8, is_ascii_chars};

verus! {

/// The lowercase hexadecimal MD5 digest of a byte sequence. The digest
/// itself is a function of the bytes alone; it is named here, not written
/// out, and the library states its results through this name.
pub uninterp spec fn md5_hex_of(bytes: Seq<u8>) -> Seq<char>;

/// True of a lowercase hexadecimal character.
pub open spec fn is_lower_hex_char(c: char) -> bool {
    ('0' <= c && c <= '9') || ('a' <= c && c <= 'f')
}

/// Relies on `crypto::md5::Md5` through `crypto::digest::Digest`: the
/// digest depends on the input bytes alone, and `result_str` renders its
/// sixteen bytes as 32 lowercase hexadecimal characters.
#[verifier::external_body]
fn md5_hex(data: &[u8]) -> (r: String)
    ensures
        r@ == md5_hex_of(data@),
        r@.len() == 32,
        forall|i: int| 0 <= i < r@.len() ==> is_lower_hex_char(#[trigger] r@[i]),
{
    let mut hasher = Md5::new();
    hasher.input(data);
    hasher.result_str()
}

/// Builds the body of the password message answering an MD5 challenge.
pub fn build_md5_hash(user: &str, password: &str, salt: &[u8]) -> (r: String)
    ensures
        r@ == "md5"@ + md5_hex_of(
            encode_utf8(md5_hex_of(encode_utf8(password@) + encode_utf8(user@))) + salt@,
        ),
        r@.len() == 35,
        is_ascii_chars(r@),
        encode_utf8(r@).len() == 35,
{
    let mut data: Vec<u8> = Vec::new();
    data.extend_from_slice(password.as_bytes());
    data.extend_from_slice(user.as_bytes());
    let first = md5_hex(data.as_slice());
    let mut salted: Vec<u8> = Vec::new();
    salted.extend_from_slice(first.as_str().as_bytes());
    salted.extend_from_slice(salt);
    let second = md5_hex(salted.as_slice());
    let mut result = String::new();
    result.append("md5");
    result.append(second.as_str());
    proof {
        reveal_strlit("md5");
        assert(data@ =~= encode_utf8(password@) + encode_utf8(user@));
        assert(salted@ =~= encode_utf8(first@) + salt@);
        assert(result@ == "md5"@ + second@);
        assert(result@.len() == 35);
        assert forall|i: int| 0 <= i < result@.len() implies '\0' <= #[trigger] result@[i]
            <= '\u{7f}' by {
            if i >= 3 {
                assert(is_lower_hex_char(second@[i - 3]));
            }
        }
        vstd::utf8::is_ascii_chars_encode_utf8(result@);
    }
    result
}

} // verus!
