//! Calls into other crates, and into the parts of std that have no specification.
//!
//! Nothing in this module is proved: each contract says what is taken for granted
//! of the function that the body calls.

use byteorder::{BigEndian, WriteBytesExt};
use sha1::{Digest, Sha1};
use std::collections::VecDeque;
use url::Url;
use vstd::prelude::*;

verus! {

// ---- httparse ----

/// A request head as it is parsed: the path, if there was one, and the headers in
/// order, each a name and a value.
pub type RequestHead = (Option<String>, Vec<(String, Vec<u8>)>);

/// The view of a parsed request head.
pub open spec fn head_view(head: RequestHead) -> (Option<Seq<char>>, Seq<(Seq<char>, Seq<u8>)>) {
    (
        match head.0 {
            Some(p) => Some(p@),
            None => None,
        },
        head.1@.map_values(|h: (String, Vec<u8>)| (h.0@, h.1@)),
    )
}

/// What `httparse` makes of bytes, with room for so many headers: the head if it is
/// complete, nothing if it is only the start of one, an error if it is neither.
pub uninterp spec fn http_request(buf: Seq<u8>, slots: nat) -> Result<
    Option<(Option<Seq<char>>, Seq<(Seq<char>, Seq<u8>)>)>,
    (),
>;

/// `httparse::Request::parse` on `buf`, with `slots` places for headers. The result is
/// named by [`http_request`]; beside that, header values are parts of `buf` and so no
/// longer than it.
#[verifier::external_body]
pub(crate) fn parse_request(buf: &[u8], slots: usize) -> (r: Result<Option<RequestHead>, ()>)
    requires
        slots <= u16::MAX,
    ensures
        match r {
            Ok(Some(head)) => http_request(buf@, slots as nat) == Ok::<_, ()>(Some(head_view(head))),
            Ok(None) => http_request(buf@, slots as nat) == Ok::<_, ()>(
                None::<(Option<Seq<char>>, Seq<(Seq<char>, Seq<u8>)>)>,
            ),
            Err(_) => http_request(buf@, slots as nat) is Err,
        },
        r matches Ok(Some(head)) ==> forall|i: int|
            0 <= i < head.1@.len() ==> (#[trigger] head.1@[i]).1@.len() <= buf@.len(),
{
    let mut headers = vec![httparse::EMPTY_HEADER; slots];
    let mut req = httparse::Request::new(&mut headers);
    match req.parse(buf) {
        Ok(httparse::Status::Complete(_)) => Ok(
            Some(
                (
                    req.path.map(|p| p.to_owned()),
                    req.headers.iter().map(|h| (h.name.to_owned(), h.value.to_vec())).collect(),
                ),
            ),
        ),
        Ok(httparse::Status::Partial) => Ok(None),
        Err(_) => Err(()),
    }
}

// ---- url ----

/// The path of the URL that `reference` stands for next to the URL `base`, in the
/// percent-encoded form that the `url` crate gives it, if both can be parsed.
pub uninterp spec fn joined_path(base: Seq<char>, reference: Seq<char>) -> Option<Seq<char>>;

/// `Url::parse` of `base`, `Url::join` of `reference` to it, and `Url::path` of what
/// comes out, named by [`joined_path`].
#[verifier::external_body]
pub(crate) fn join_path(base: &str, reference: &str) -> (r: Option<String>)
    ensures
        match r {
            Some(p) => joined_path(base@, reference@) == Some(p@),
            None => joined_path(base@, reference@) is None,
        },
{
    match Url::parse(base).and_then(|b| b.join(reference)) {
        Ok(u) => Some(u.path().to_owned()),
        Err(_) => None,
    }
}

// ---- sha1 ----

/// The SHA-1 digest of bytes.
pub uninterp spec fn sha1_digest(data: Seq<u8>) -> Seq<u8>;

/// The most bytes that SHA-1 is defined for.
pub const SHA1_MAX: u64 = 0x1fff_ffff_ffff_ffff;

/// `Sha1::new`, `update` with `data`, and `finalize`, named by [`sha1_digest`]. The
/// digest has twenty bytes.
#[verifier::external_body]
pub(crate) fn sha1(data: &[u8]) -> (r: Vec<u8>)
    requires
        data@.len() <= SHA1_MAX,
    ensures
        r@ == sha1_digest(data@),
        r@.len() == 20,
{
    let mut hasher = Sha1::new();
    hasher.update(data);
    hasher.finalize().to_vec()
}

// ---- base64 ----

/// Bytes in base 64, with the standard alphabet and padding.
pub uninterp spec fn base64_text(data: Seq<u8>) -> Seq<char>;

/// `base64::encode` of `data`, named by [`base64_text`].
#[verifier::external_body]
pub(crate) fn base64_encode(data: &[u8]) -> (r: String)
    requires
        data@.len() <= usize::MAX / 2,
    ensures
        r@ == base64_text(data@),
{
    base64::encode(data)
}

// ---- byteorder ----

/// The eight bytes of `n`, most significant first.
pub open spec fn be_bytes(n: u64) -> Seq<u8> {
    seq![
        (n / 0x100_0000_0000_0000 % 0x100) as u8,
        (n / 0x1_0000_0000_0000 % 0x100) as u8,
        (n / 0x100_0000_0000 % 0x100) as u8,
        (n / 0x1_0000_0000 % 0x100) as u8,
        (n / 0x100_0000 % 0x100) as u8,
        (n / 0x1_0000 % 0x100) as u8,
        (n / 0x100 % 0x100) as u8,
        (n % 0x100) as u8,
    ]
}

/// `WriteBytesExt::write_u64::<BigEndian>` on a vector, which appends the eight bytes of
/// `n`, most significant first.
#[verifier::external_body]
pub(crate) fn write_u64_be(v: &mut Vec<u8>, n: u64)
    ensures
        final(v)@ == old(v)@ + be_bytes(n),
{
    v.write_u64::<BigEndian>(n).unwrap()
}

// ---- std ----

/// The lower case of text that is not ASCII, as Unicode has it.
pub uninterp spec fn unicode_lowercase(s: Seq<char>) -> Seq<char>;

/// The lower case of an ASCII character.
pub open spec fn ascii_lowercase(c: char) -> char {
    if 'A' <= c <= 'Z' {
        (c as u8 + 32) as char
    } else {
        c
    }
}

/// The lower case of text: of ASCII text letter by letter, of other text as Unicode has
/// it.
pub open spec fn lowercase(s: Seq<char>) -> Seq<char> {
    if vstd::utf8::is_ascii_chars(s) {
        s.map_values(|c: char| ascii_lowercase(c))
    } else {
        unicode_lowercase(s)
    }
}

/// `str::to_lowercase`. On ASCII text it maps the letters `A` to `Z` to `a` to `z` and
/// keeps all else; what it does to other text is named by [`unicode_lowercase`].
#[verifier::external_body]
pub(crate) fn to_lowercase(s: &str) -> (r: String)
    ensures
        vstd::utf8::is_ascii_chars(s@) ==> r@ == s@.map_values(|c: char| ascii_lowercase(c)),
        !vstd::utf8::is_ascii_chars(s@) ==> r@ == unicode_lowercase(s@),
{
    s.to_lowercase()
}

/// `String::from_utf8`: the text that the bytes encode, unless they are not UTF-8.
#[verifier::external_body]
pub(crate) fn from_utf8(v: Vec<u8>) -> (r: Option<String>)
    ensures
        match r {
            Some(s) => vstd::utf8::valid_utf8(v@) && s@ == vstd::utf8::decode_utf8(v@),
            None => !vstd::utf8::valid_utf8(v@),
        },
{
    match String::from_utf8(v) {
        Ok(s) => Some(s),
        Err(_) => None,
    }
}

/// `VecDeque::as_slices`: the contents in order, cut in two somewhere. Where the cut
/// falls depends on how the deque lies in memory, and nothing is said about it.
#[verifier::external_body]
pub(crate) fn as_slices(v: &VecDeque<u8>) -> (r: (&[u8], &[u8]))
    ensures
        r.0@ + r.1@ == v@,
{
    v.as_slices()
}

} // verus!
