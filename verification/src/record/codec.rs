//! The compact `MS1:` envelope of a record: URL-safe Base64 (no padding) of
//! the DEFLATE-compressed JSON. A text without the tag is the JSON itself.
use crate::text::{chars_of, is_space_spec, push_all, push_str, slice_of, string_from_chars, trim, trim_spec};
use base64::Engine as _;
use vstd::prelude::*;

verus! {

/// Tag identifying the compact form (version 1 of the envelope).
pub const PREFIX: &'static str = "MS1:";

/// What `URL_SAFE_NO_PAD.encode` returns for `data`.
pub uninterp spec fn b64_encode_spec(data: Seq<u8>) -> Seq<char>;

/// What `URL_SAFE_NO_PAD.decode` returns for `text`: the bytes, or the text of
/// its error.
pub uninterp spec fn b64_decode_spec(text: Seq<char>) -> Result<Seq<u8>, Seq<char>>;

/// What `miniz_oxide::deflate::compress_to_vec` returns for `data` at `level`.
pub uninterp spec fn deflate_spec(data: Seq<u8>, level: u8) -> Seq<u8>;

/// What `miniz_oxide::inflate::decompress_to_vec` returns for `data`: the
/// bytes, or the debug text of its error.
pub uninterp spec fn inflate_spec(data: Seq<u8>) -> Result<Seq<u8>, Seq<char>>;

/// `r` is a success holding `v`.
pub open spec fn yields(r: Result<Seq<u8>, Seq<char>>, v: Seq<u8>) -> bool {
    r == Ok::<Seq<u8>, Seq<char>>(v)
}

/// `r` is a failure with message `e`.
pub open spec fn fails_with(r: Result<Seq<u8>, Seq<char>>, e: Seq<char>) -> bool {
    r == Err::<Seq<u8>, Seq<char>>(e)
}

/// A character of the URL-safe Base64 alphabet.
pub open spec fn url_safe_char(c: char) -> bool {
    ('A' <= c && c <= 'Z') || ('a' <= c && c <= 'z') || ('0' <= c && c <= '9') || c == '-' || c == '_'
}

/// Base64-encode `data` with the URL-safe alphabet and no padding
/// (`base64::engine::general_purpose::URL_SAFE_NO_PAD.encode`). The text uses
/// only that alphabet, and decoding it gives `data` back. (The call panics
/// only when the encoded length overflows `usize`, which no slice in memory
/// reaches.)
#[verifier::external_body]
pub(crate) fn b64_encode(data: &[u8]) -> (r: String)
    ensures
        r@ == b64_encode_spec(data@),
        forall|i: int| 0 <= i < r@.len() ==> url_safe_char(#[trigger] r@[i]),
        yields(b64_decode_spec(r@), data@),
{
    base64::engine::general_purpose::URL_SAFE_NO_PAD.encode(data)
}

/// Base64-decode `text` with the URL-safe alphabet and no padding
/// (`base64::engine::general_purpose::URL_SAFE_NO_PAD.decode`); an error comes
/// back as its message.
#[verifier::external_body]
pub(crate) fn b64_decode(text: &str) -> (r: Result<Vec<u8>, String>)
    ensures
        match r {
            Ok(v) => yields(b64_decode_spec(text@), v@),
            Err(e) => fails_with(b64_decode_spec(text@), e@),
        },
{
    match base64::engine::general_purpose::URL_SAFE_NO_PAD.decode(text) {
        Ok(v) => Ok(v),
        Err(e) => Err(e.to_string()),
    }
}

/// DEFLATE-compress `data` (`miniz_oxide::deflate::compress_to_vec`);
/// decompressing the result gives `data` back.
#[verifier::external_body]
pub(crate) fn deflate(data: &[u8], level: u8) -> (r: Vec<u8>)
    ensures
        r@ == deflate_spec(data@, level),
        yields(inflate_spec(r@), data@),
{
    miniz_oxide::deflate::compress_to_vec(data, level)
}

/// DEFLATE-decompress `data` (`miniz_oxide::inflate::decompress_to_vec`); an
/// error comes back as its debug text.
#[verifier::external_body]
pub(crate) fn inflate(data: &[u8]) -> (r: Result<Vec<u8>, String>)
    ensures
        match r {
            Ok(v) => yields(inflate_spec(data@), v@),
            Err(e) => fails_with(inflate_spec(data@), e@),
        },
{
    match miniz_oxide::inflate::decompress_to_vec(data) {
        Ok(v) => Ok(v),
        Err(e) => Err(format!("{e:?}")),
    }
}

/// What an envelope holds: the inflated JSON bytes of a compact text, or the
/// (trimmed) text itself when it is plain JSON.
pub enum Payload {
    Compact(Vec<u8>),
    Json(String),
}

/// Why an `MS1:` envelope could not be opened.
pub enum CodecError {
    /// The payload was not valid Base64.
    Base64(String),
    /// The Base64 payload did not DEFLATE-decompress.
    Inflate(String),
}

/// The mathematical value of a [`Payload`].
pub enum PayloadView {
    Compact(Seq<u8>),
    Json(Seq<char>),
}

/// The mathematical value of a [`CodecError`].
pub enum CodecErrorView {
    Base64(Seq<char>),
    Inflate(Seq<char>),
}

impl View for Payload {
    type V = PayloadView;

    open spec fn view(&self) -> PayloadView {
        match self {
            Payload::Compact(v) => PayloadView::Compact(v@),
            Payload::Json(s) => PayloadView::Json(s@),
        }
    }
}

impl View for CodecError {
    type V = CodecErrorView;

    open spec fn view(&self) -> CodecErrorView {
        match self {
            CodecError::Base64(s) => CodecErrorView::Base64(s@),
            CodecError::Inflate(s) => CodecErrorView::Inflate(s@),
        }
    }
}

/// `t` starts with the tag `tag`.
pub open spec fn has_tag(t: Seq<char>, tag: Seq<char>) -> bool {
    t.len() >= tag.len() && t.subrange(0, tag.len() as int) == tag
}

/// The payload of a text: an `MS1:`-tagged text (surrounding whitespace
/// ignored) is opened; any other is the JSON itself.
pub open spec fn decode_spec(text: Seq<char>) -> Result<PayloadView, CodecErrorView> {
    let t = trim_spec(text);
    if has_tag(t, PREFIX@) {
        match b64_decode_spec(trim_spec(t.subrange(PREFIX@.len() as int, t.len() as int))) {
            Err(e) => Err(CodecErrorView::Base64(e)),
            Ok(c) => match inflate_spec(c) {
                Err(e) => Err(CodecErrorView::Inflate(e)),
                Ok(j) => Ok(PayloadView::Compact(j)),
            },
        }
    } else {
        Ok(PayloadView::Json(t))
    }
}

/// Whether `t` starts with `tag`.
pub fn starts_with_tag(t: &[char], tag: &[char]) -> (r: bool)
    ensures
        r == has_tag(t@, tag@),
{
    if t.len() < tag.len() {
        return false;
    }
    let mut i: usize = 0;
    while i < tag.len()
        invariant
            i <= tag@.len() <= t@.len(),
            forall|j: int| 0 <= j < i ==> t@[j] == tag@[j],
        decreases tag@.len() - i,
    {
        if t[i] != tag[i] {
            proof {
                assert(t@.subrange(0, tag@.len() as int)[i as int] != tag@[i as int]);
            }
            return false;
        }
        i = i + 1;
    }
    proof {
        assert(t@.subrange(0, tag@.len() as int) =~= tag@);
    }
    true
}

/// Encode JSON bytes to the compact `MS1:` form (DEFLATE level 9, then
/// URL-safe Base64); [`decode_payload`] opens it back to the same bytes.
pub fn encode_envelope(json: &[u8]) -> (r: String)
    ensures
        r@ == PREFIX@ + b64_encode_spec(deflate_spec(json@, 9)),
        decode_spec(r@) == Ok::<PayloadView, CodecErrorView>(PayloadView::Compact(json@)),
{
    let compressed = deflate(json, 9);
    let b64 = b64_encode(&compressed);
    let mut out: Vec<char> = Vec::new();
    push_str(&mut out, PREFIX);
    let bcs = chars_of(b64.as_str());
    push_all(&mut out, &bcs);
    proof {
        reveal_strlit("MS1:");
        let t = out@;
        let b = b64@;
        assert(t =~= PREFIX@ + b);
        assert(!is_space_spec(t[0]));
        if b.len() > 0 {
            assert(url_safe_char(b[b.len() - 1]));
            assert(t.last() == b.last());
            assert(!is_space_spec(b.last()));
            assert(!is_space_spec(b[0]));
        }
        assert(!is_space_spec(t.last()));
        crate::text::lemma_trim_fixed(t);
        assert(t.subrange(0, 4) =~= PREFIX@);
        assert(t.subrange(4, t.len() as int) =~= b);
        if b.len() > 0 {
            crate::text::lemma_trim_fixed(b);
        }
    }
    string_from_chars(&out)
}

/// Open a record text: the `MS1:` compact envelope is Base64-decoded and
/// inflated to its JSON bytes; any other text is taken as the JSON itself.
/// Surrounding whitespace is ignored.
pub fn decode_payload(text: &str) -> (r: Result<Payload, CodecError>)
    ensures
        match r {
            Ok(p) => decode_spec(text@) == Ok::<PayloadView, CodecErrorView>(p@),
            Err(e) => decode_spec(text@) == Err::<PayloadView, CodecErrorView>(e@),
        },
{
    let cs = chars_of(text);
    let t = trim(&cs);
    let tag = chars_of(PREFIX);
    if starts_with_tag(&t, &tag) {
        let body = trim(&slice_of(&t, tag.len(), t.len()));
        let body_s = string_from_chars(&body);
        match b64_decode(body_s.as_str()) {
            Err(e) => Err(CodecError::Base64(e)),
            Ok(c) => match inflate(&c) {
                Err(e) => Err(CodecError::Inflate(e)),
                Ok(j) => Ok(Payload::Compact(j)),
            },
        }
    } else {
        Ok(Payload::Json(string_from_chars(&t)))
    }
}

} // verus!
