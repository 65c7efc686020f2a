//! The record embedded in exported pictures: a PNG `tEXt` chunk or an SVG
//! `<metadata>` element carrying the `MS1:` text. Drawing itself is done
//! outside the library.
use crate::game::line::Dir;
use crate::text::{
    chars_of, find_char, find_spec, find_sub, find_sub_from, find_sub_spec, lemma_find, lemma_find_sub,
    lemma_find_sub_at, occurs_at, push_all, push_str, slice_of, string_from_chars, trim, trim_spec,
};
use vstd::prelude::*;

verus! {

/// Rendering options.
pub struct RenderOpts {
    /// Print each move's number inside its point.
    pub numbers: bool,
}

impl Default for RenderOpts {
    fn default() -> (r: Self)
        ensures
            r.numbers,
    {
        Self { numbers: true }
    }
}

/// The colour of the lines of a direction.
pub fn dir_color(dir: Dir) -> (r: &'static str)
    ensures
        r@ == match dir {
            Dir::H => "#3b62c4"@,
            Dir::V => "#c8632e"@,
            Dir::DP => "#2f9e44"@,
            Dir::DN => "#b5359c"@,
        },
{
    match dir {
        Dir::H => "#3b62c4",
        Dir::V => "#c8632e",
        Dir::DP => "#2f9e44",
        Dir::DN => "#b5359c",
    }
}

/// One shift-register step of the reflected CRC-32 (polynomial `0xEDB88320`).
pub open spec fn crc_round(c: u32) -> u32 {
    (c >> 1u32) ^ (0xEDB8_8320u32 & 0u32.wrapping_sub(c & 1u32))
}

/// `k` steps of [`crc_round`].
pub open spec fn crc_rounds(c: u32, k: nat) -> u32
    decreases k,
{
    if k == 0 {
        c
    } else {
        crc_round(crc_rounds(c, (k - 1) as nat))
    }
}

/// The CRC register after the bytes `bs`, from `c`.
pub open spec fn crc_fold(c: u32, bs: Seq<u8>) -> u32
    decreases bs.len(),
{
    if bs.len() == 0 {
        c
    } else {
        crc_rounds(crc_fold(c, bs.drop_last()) ^ (bs.last() as u32), 8)
    }
}

/// CRC-32 (ISO-HDLC, the PNG/zlib checksum) of `bs`.
pub open spec fn crc32_spec(bs: Seq<u8>) -> u32 {
    !crc_fold(0xFFFF_FFFFu32, bs)
}

/// CRC-32 (ISO-HDLC, the PNG/zlib polynomial), computed table-free.
pub fn crc32(bytes: &[u8]) -> (r: u32)
    ensures
        r == crc32_spec(bytes@),
{
    let mut crc: u32 = 0xFFFF_FFFF;
    let mut i: usize = 0;
    while i < bytes.len()
        invariant
            i <= bytes@.len(),
            crc == crc_fold(0xFFFF_FFFFu32, bytes@.take(i as int)),
        decreases bytes@.len() - i,
    {
        let ghost c0 = crc;
        crc = crc ^ (bytes[i] as u32);
        let ghost start = crc;
        let mut k: usize = 0;
        while k < 8
            invariant
                k <= 8,
                crc == crc_rounds(start, k as nat),
            decreases 8 - k,
        {
            let mask = 0u32.wrapping_sub(crc & 1);
            crc = (crc >> 1) ^ (0xEDB8_8320 & mask);
            k = k + 1;
        }
        proof {
            assert(bytes@.take(i + 1).drop_last() =~= bytes@.take(i as int));
        }
        i = i + 1;
    }
    proof {
        assert(bytes@.take(bytes@.len() as int) =~= bytes@);
    }
    !crc
}

/// The PNG file signature.
pub open spec fn png_sig() -> Seq<u8> {
    seq![0x89u8, 0x50u8, 0x4eu8, 0x47u8, 0x0du8, 0x0au8, 0x1au8, 0x0au8]
}

/// The `tEXt` chunk type.
pub open spec fn text_tag() -> Seq<u8> {
    seq![0x74u8, 0x45u8, 0x58u8, 0x74u8]
}

/// The `IEND` chunk type.
pub open spec fn iend_tag() -> Seq<u8> {
    seq![0x49u8, 0x45u8, 0x4eu8, 0x44u8]
}

/// The `IHDR` chunk type.
pub open spec fn ihdr_tag() -> Seq<u8> {
    seq![0x49u8, 0x48u8, 0x44u8, 0x52u8]
}

/// The keyword of the record's `tEXt` chunk: `msr`.
pub open spec fn msr_key() -> Seq<u8> {
    seq![0x6du8, 0x73u8, 0x72u8]
}

/// Big-endian bytes of a 32-bit word.
pub open spec fn be32(n: u32) -> Seq<u8> {
    seq![(n >> 24u32) as u8, (n >> 16u32) as u8, (n >> 8u32) as u8, n as u8]
}

/// The 32-bit word of four big-endian bytes.
pub open spec fn read_be32(b: Seq<u8>, at: int) -> u32 {
    ((b[at] as u32) << 24u32) | ((b[at + 1] as u32) << 16u32) | ((b[at + 2] as u32) << 8u32) | (b[at + 3] as u32)
}

/// The data of the record's `tEXt` chunk: keyword, NUL, text.
pub open spec fn text_data(msr: Seq<u8>) -> Seq<u8> {
    msr_key() + seq![0u8] + msr
}

/// The record's `tEXt` chunk: length, type, data and CRC of type and data.
pub open spec fn text_chunk(msr: Seq<u8>) -> Seq<u8> {
    let d = text_data(msr);
    be32(d.len() as u32) + text_tag() + d + be32(crc32_spec(text_tag() + d))
}

/// Where the chunk goes: just after IHDR (signature, then IHDR's length, type,
/// data and CRC), or at the end of a shorter stream.
pub open spec fn insert_at(png: Seq<u8>) -> int {
    if png.len() >= 12 {
        let end = 20 + read_be32(png, 8) as int;
        if end < png.len() {
            end
        } else {
            png.len() as int
        }
    } else {
        png.len() as int
    }
}

/// `png` with the record's `tEXt` chunk spliced in after IHDR.
pub open spec fn embed_png_spec(png: Seq<u8>, msr: Seq<u8>) -> Seq<u8> {
    let at = insert_at(png);
    png.subrange(0, at) + text_chunk(msr) + png.subrange(at, png.len() as int)
}

/// Append all of `s`.
fn push_bytes(out: &mut Vec<u8>, s: &[u8])
    ensures
        final(out)@ == old(out)@ + s@,
{
    let ghost o0 = out@;
    let mut i: usize = 0;
    while i < s.len()
        invariant
            i <= s@.len(),
            out@ == o0 + s@.subrange(0, i as int),
        decreases s@.len() - i,
    {
        out.push(s[i]);
        proof {
            assert(out@ =~= o0 + s@.subrange(0, i + 1));
        }
        i = i + 1;
    }
    proof {
        assert(s@.subrange(0, s@.len() as int) =~= s@);
    }
}

/// Big-endian bytes of a 32-bit word.
fn be_bytes(n: u32) -> (r: [u8; 4])
    ensures
        r@ == be32(n),
{
    let r = [(n >> 24) as u8, (n >> 16) as u8, (n >> 8) as u8, n as u8];
    proof {
        assert(r@ =~= be32(n));
    }
    r
}

/// Splice a `tEXt` chunk holding `msr` into a PNG byte stream, just after
/// IHDR.
pub fn embed_msr_png(png: &[u8], msr: &str) -> (r: Vec<u8>)
    ensures
        r@ == embed_png_spec(png@, vstd::utf8::encode_utf8(msr@)),
{
    let key: [u8; 3] = [0x6d, 0x73, 0x72];
    let tag: [u8; 4] = [0x74, 0x45, 0x58, 0x74];
    proof {
        assert(key@ =~= msr_key());
        assert(tag@ =~= text_tag());
    }
    let mut data: Vec<u8> = Vec::new();
    push_bytes(&mut data, &key);
    data.push(0);
    push_bytes(&mut data, msr.as_bytes());
    proof {
        assert(data@ =~= text_data(vstd::utf8::encode_utf8(msr@)));
    }
    let mut chunk: Vec<u8> = Vec::new();
    #[verifier::truncate]
    let len32 = data.len() as u32;
    push_bytes(&mut chunk, &be_bytes(len32));
    push_bytes(&mut chunk, &tag);
    push_bytes(&mut chunk, &data);
    let mut crc_in: Vec<u8> = Vec::new();
    push_bytes(&mut crc_in, &tag);
    push_bytes(&mut crc_in, &data);
    push_bytes(&mut chunk, &be_bytes(crc32(&crc_in)));
    proof {
        assert(chunk@ =~= text_chunk(vstd::utf8::encode_utf8(msr@)));
    }
    let insert_at: usize = if png.len() >= 12 {
        let ihdr_len = ((png[8] as u32) << 24) | ((png[9] as u32) << 16) | ((png[10] as u32) << 8) | (png[11] as u32);
        let end: u64 = 20 + ihdr_len as u64;
        if end < png.len() as u64 {
            end as usize
        } else {
            png.len()
        }
    } else {
        png.len()
    };
    let mut out: Vec<u8> = Vec::new();
    let head = slice_bytes(png, 0, insert_at);
    push_bytes(&mut out, &head);
    push_bytes(&mut out, &chunk);
    let tail = slice_bytes(png, insert_at, png.len());
    push_bytes(&mut out, &tail);
    proof {
        assert(out@ =~= embed_png_spec(png@, vstd::utf8::encode_utf8(msr@)));
    }
    out
}

/// The bytes `s[lo..hi]`.
fn slice_bytes(s: &[u8], lo: usize, hi: usize) -> (r: Vec<u8>)
    requires
        lo <= hi <= s@.len(),
    ensures
        r@ == s@.subrange(lo as int, hi as int),
{
    let mut out: Vec<u8> = Vec::new();
    let mut i: usize = lo;
    while i < hi
        invariant
            lo <= i <= hi <= s@.len(),
            out@ == s@.subrange(lo as int, i as int),
        decreases hi - i,
    {
        out.push(s[i]);
        proof {
            assert(out@ =~= s@.subrange(lo as int, i + 1));
        }
        i = i + 1;
    }
    out
}

/// Index of the first zero byte of `d`.
pub open spec fn first_nul(d: Seq<u8>) -> Option<int>
    decreases d.len(),
{
    if d.len() == 0 {
        None
    } else if d[0] == 0 {
        Some(0)
    } else {
        match first_nul(d.drop_first()) {
            Some(i) => Some(i + 1),
            None => None,
        }
    }
}

/// The text of a `tEXt` chunk's data when its keyword is `msr`.
pub open spec fn msr_text(data: Seq<u8>) -> Option<Seq<u8>> {
    match first_nul(data) {
        Some(n) => if 0 <= n < data.len() && data.subrange(0, n) == msr_key() {
            Some(data.subrange(n + 1, data.len() as int))
        } else {
            None
        },
        None => None,
    }
}

/// Walk the chunks from `pos` to the first `msr` `tEXt` chunk, stopping at a
/// truncated chunk or at `IEND`.
pub open spec fn chunk_walk(b: Seq<u8>, pos: int) -> Option<Seq<u8>>
    decreases b.len() - pos,
{
    if pos < 0 || pos + 8 > b.len() {
        None
    } else {
        let dend = pos + 8 + read_be32(b, pos) as int;
        if dend + 4 > b.len() {
            None
        } else {
            let ctype = b.subrange(pos + 4, pos + 8);
            let text = msr_text(b.subrange(pos + 8, dend));
            if ctype == text_tag() && text is Some {
                text
            } else if ctype == iend_tag() {
                None
            } else {
                chunk_walk(b, dend + 4)
            }
        }
    }
}

/// The record a PNG stream carries: the text of its first `msr` `tEXt`
/// chunk, when that is UTF-8.
pub open spec fn extract_png_spec(b: Seq<u8>) -> Option<Seq<char>> {
    if b.len() < 8 || b.subrange(0, 8) != png_sig() {
        None
    } else {
        match chunk_walk(b, 8) {
            Some(t) => if vstd::utf8::valid_utf8(t) {
                Some(vstd::utf8::decode_utf8(t))
            } else {
                None
            },
            None => None,
        }
    }
}

/// The string of UTF-8 bytes (`std::str::from_utf8`, copied out), or `None`
/// when they are not UTF-8.
#[verifier::external_body]
fn str_from_utf8(bytes: &[u8]) -> (r: Option<String>)
    ensures
        match r {
            Some(s) => vstd::utf8::valid_utf8(bytes@) && s@ == vstd::utf8::decode_utf8(bytes@),
            None => !vstd::utf8::valid_utf8(bytes@),
        },
{
    match std::str::from_utf8(bytes) {
        Ok(s) => Some(s.to_owned()),
        Err(_) => None,
    }
}

/// Whether two byte slices are equal.
fn bytes_eq(a: &[u8], b: &[u8]) -> (r: bool)
    ensures
        r == (a@ == b@),
{
    if a.len() != b.len() {
        return false;
    }
    let mut i: usize = 0;
    while i < a.len()
        invariant
            i <= a@.len() == b@.len(),
            forall|j: int| 0 <= j < i ==> a@[j] == b@[j],
        decreases a@.len() - i,
    {
        if a[i] != b[i] {
            return false;
        }
        i = i + 1;
    }
    proof {
        assert(a@ =~= b@);
    }
    true
}

/// The text of a chunk's data when its keyword is `msr`.
fn msr_text_of(data: &[u8]) -> (r: Option<Vec<u8>>)
    ensures
        match r {
            Some(t) => msr_text(data@) == Some(t@),
            None => msr_text(data@) is None,
        },
{
    proof {
        lemma_first_nul(data@);
    }
    let mut n: usize = 0;
    while n < data.len() && data[n] != 0
        invariant
            n <= data@.len(),
            forall|j: int| 0 <= j < n ==> data@[j] != 0,
        decreases data@.len() - n,
    {
        n = n + 1;
    }
    if n == data.len() {
        return None;
    }
    let key: [u8; 3] = [0x6d, 0x73, 0x72];
    proof {
        assert(key@ =~= msr_key());
    }
    if !bytes_eq(&slice_bytes(data, 0, n), &key) {
        return None;
    }
    Some(slice_bytes(data, n + 1, data.len()))
}

/// The first zero byte is where [`first_nul`] says.
proof fn lemma_first_nul(d: Seq<u8>)
    ensures
        match first_nul(d) {
            Some(n) => 0 <= n < d.len() && d[n] == 0 && forall|j: int| 0 <= j < n ==> d[j] != 0,
            None => forall|j: int| 0 <= j < d.len() ==> d[j] != 0,
        },
    decreases d.len(),
{
    if d.len() > 0 {
        lemma_first_nul(d.drop_first());
        if d[0] != 0 {
            assert forall|j: int| 0 < j < d.len() implies d[j] == d.drop_first()[j - 1] by {}
        }
    }
}

/// Pull the `msr` `tEXt` chunk out of a PNG, if present.
pub fn extract_msr_png(bytes: &[u8]) -> (r: Option<String>)
    ensures
        match r {
            Some(s) => extract_png_spec(bytes@) == Some(s@),
            None => extract_png_spec(bytes@) is None,
        },
{
    let sig: [u8; 8] = [0x89, 0x50, 0x4e, 0x47, 0x0d, 0x0a, 0x1a, 0x0a];
    proof {
        assert(sig@ =~= png_sig());
    }
    if bytes.len() < 8 || !bytes_eq(&slice_bytes(bytes, 0, 8), &sig) {
        return None;
    }
    let mut pos: usize = 8;
    loop
        invariant
            8 <= pos <= bytes@.len(),
            chunk_walk(bytes@, 8) == chunk_walk(bytes@, pos as int),
            bytes@.len() >= 8 && bytes@.subrange(0, 8) == png_sig(),
        decreases bytes@.len() - pos,
    {
        if bytes.len() - pos < 8 {
            return None;
        }
        let len = ((bytes[pos] as u32) << 24) | ((bytes[pos + 1] as u32) << 16) | ((bytes[pos + 2] as u32) << 8) | (
        bytes[pos + 3] as u32);
        let dstart = pos + 8;
        let dend = match dstart.checked_add(len as usize) {
            Some(d) => d,
            None => {
                return None;
            },
        };
        if dend > bytes.len() || bytes.len() - dend < 4 {
            return None;
        }
        let ctype = slice_bytes(bytes, pos + 4, pos + 8);
        let tag: [u8; 4] = [0x74, 0x45, 0x58, 0x74];
        let iend: [u8; 4] = [0x49, 0x45, 0x4e, 0x44];
        proof {
            assert(tag@ =~= text_tag());
            assert(iend@ =~= iend_tag());
        }
        if bytes_eq(&ctype, &tag) {
            let data = slice_bytes(bytes, dstart, dend);
            match msr_text_of(&data) {
                Some(t) => {
                    return str_from_utf8(&t);
                },
                None => {},
            }
        }
        if bytes_eq(&ctype, &iend) {
            return None;
        }
        pos = dend + 4;
    }
}

/// A PNG stream whose first chunk is a complete `IHDR`.
pub open spec fn png_with_ihdr(png: Seq<u8>) -> bool {
    &&& png.len() >= 16
    &&& png.subrange(0, 8) == png_sig()
    &&& png.subrange(12, 16) == ihdr_tag()
    &&& 20 + read_be32(png, 8) <= png.len()
}

/// Reading back big-endian bytes gives the word.
proof fn lemma_be32(n: u32)
    ensures
        read_be32(be32(n), 0) == n,
{
    let b = be32(n);
    let (b0, b1, b2, b3) = ((n >> 24u32) as u8, (n >> 16u32) as u8, (n >> 8u32) as u8, n as u8);
    assert(b[0] == b0 && b[1] == b1 && b[2] == b2 && b[3] == b3);
    assert(((b0 as u32) << 24u32) | ((b1 as u32) << 16u32) | ((b2 as u32) << 8u32) | (b3 as u32) == n) by (bit_vector)
        requires
            b0 == (n >> 24u32) as u8,
            b1 == (n >> 16u32) as u8,
            b2 == (n >> 8u32) as u8,
            b3 == n as u8,
    ;
}

/// Reading a word inside a longer stream.
proof fn lemma_read_at(a: Seq<u8>, b: Seq<u8>, i: int)
    requires
        0 <= i,
        i + 4 <= a.len(),
        forall|k: int| 0 <= k < 4 ==> a[i + k] == b[k],
        b.len() >= 4,
    ensures
        read_be32(a, i) == read_be32(b, 0),
{
    assert(a[i] == b[0] && a[i + 1] == b[1] && a[i + 2] == b[2] && a[i + 3] == b[3]);
}

/// Embedding a record in a PNG whose first chunk is a complete `IHDR` and
/// extracting it again gives the record back.
pub proof fn lemma_png_roundtrip(png: Seq<u8>, msr: Seq<char>)
    requires
        png_with_ihdr(png),
        vstd::utf8::encode_utf8(msr).len() + 4 < 0x1_0000_0000,
    ensures
        extract_png_spec(embed_png_spec(png, vstd::utf8::encode_utf8(msr))) == Some(msr),
{
    let mb = vstd::utf8::encode_utf8(msr);
    let out = embed_png_spec(png, mb);
    let at = insert_at(png);
    let chunk = text_chunk(mb);
    let d = text_data(mb);
    let l = read_be32(png, 8) as int;
    assert(at == 20 + l);
    assert(out =~= png.subrange(0, at) + chunk + png.subrange(at, png.len() as int));
    assert(out.subrange(0, 8) =~= png_sig()) by {
        assert forall|k: int| 0 <= k < 8 implies out[k] == png[k] by {}
    }
    lemma_read_at(out, png.subrange(8, 12), 8);
    lemma_read_at(png, png.subrange(8, 12), 8);
    assert(out.subrange(12, 16) =~= ihdr_tag()) by {
        assert forall|k: int| 12 <= k < 16 implies out[k] == png[k] by {}
    }
    assert(out.subrange(12, 16) != text_tag());
    assert(out.subrange(12, 16) != iend_tag());
    assert(chunk_walk(out, 8) == chunk_walk(out, at));
    let dl = d.len() as u32;
    assert(dl as int == d.len());
    lemma_be32(dl);
    lemma_read_at(out, be32(dl), at);
    assert(out.subrange(at + 4, at + 8) =~= text_tag());
    assert(out.subrange(at + 8, at + 8 + d.len()) =~= d);
    lemma_first_nul(d);
    assert(d[3] == 0u8);
    assert(first_nul(d) == Some(3int)) by {
        lemma_first_nul(d);
        assert(d[0] != 0 && d[1] != 0 && d[2] != 0);
    }
    assert(d.subrange(0, 3) =~= msr_key());
    assert(d.subrange(4, d.len() as int) =~= mb);
    assert(msr_text(d) == Some(mb));
    vstd::utf8::encode_utf8_valid_utf8(msr);
    vstd::utf8::encode_utf8_decode_utf8(msr);
}

/// The `id` of the SVG `<metadata>` element that carries the record.
pub const SVG_MSR_ID: &'static str = "morpion-solitaire-record";

/// The record's `<metadata>` element.
pub open spec fn svg_meta(msr: Seq<char>) -> Seq<char> {
    "<metadata id=\""@ + SVG_MSR_ID@ + "\">"@ + msr + "</metadata>"@
}

/// The text that opens the record's element: `id="…">`.
pub open spec fn svg_open_marker() -> Seq<char> {
    "id=\""@ + SVG_MSR_ID@ + "\">"@
}

/// `svg` with the record's `<metadata>` element inserted as the first child
/// of `<svg>` (or appended, when there is no `<svg …>` tag).
pub open spec fn embed_svg_spec(svg: Seq<char>, msr: Seq<char>) -> Seq<char> {
    let meta = svg_meta(msr);
    match find_sub_spec(svg, "<svg"@) {
        Some(s) => match find_spec(svg.subrange(s, svg.len() as int), '>') {
            Some(o) => {
                let a = s + o + 1;
                svg.subrange(0, a) + seq!['\n'] + meta + svg.subrange(a, svg.len() as int)
            },
            None => svg + seq!['\n'] + meta,
        },
        None => svg + seq!['\n'] + meta,
    }
}

/// The record an SVG text carries: the trimmed content of the record's
/// `<metadata>` element.
pub open spec fn extract_svg_spec(text: Seq<char>) -> Option<Seq<char>> {
    let open = svg_open_marker();
    match find_sub_spec(text, open) {
        None => None,
        Some(i) => {
            let start = i + open.len();
            match find_sub_spec(text.subrange(start, text.len() as int), "</metadata>"@) {
                None => None,
                Some(e) => Some(trim_spec(text.subrange(start, start + e))),
            }
        },
    }
}

/// Insert a `<metadata>` element holding `msr` as the first child of
/// `<svg>`. The record is Base64url or JSON text with no XML-special
/// characters, so it needs no escaping.
pub fn embed_msr_svg(svg: &str, msr: &str) -> (r: String)
    ensures
        r@ == embed_svg_spec(svg@, msr@),
{
    let mut meta: Vec<char> = Vec::new();
    push_str(&mut meta, "<metadata id=\"");
    push_str(&mut meta, SVG_MSR_ID);
    push_str(&mut meta, "\">");
    push_str(&mut meta, msr);
    push_str(&mut meta, "</metadata>");
    let sc = chars_of(svg);
    let open_tag = chars_of("<svg");
    let mut out: Vec<char> = Vec::new();
    match find_sub(&sc, &open_tag) {
        Some(s) => {
            proof {
                lemma_find_sub(sc@, open_tag@, 0);
            }
            let tail = slice_of(&sc, s, sc.len());
            match find_char(&tail, '>') {
                Some(o) => {
                    proof {
                        lemma_find(tail@, '>');
                    }
                    let a = s + o + 1;
                    push_all(&mut out, &slice_of(&sc, 0, a));
                    out.push('\n');
                    push_all(&mut out, &meta);
                    push_all(&mut out, &slice_of(&sc, a, sc.len()));
                },
                None => {
                    push_all(&mut out, &sc);
                    out.push('\n');
                    push_all(&mut out, &meta);
                },
            }
        },
        None => {
            push_all(&mut out, &sc);
            out.push('\n');
            push_all(&mut out, &meta);
        },
    }
    proof {
        assert(out@ =~= embed_svg_spec(svg@, msr@));
    }
    string_from_chars(&out)
}

/// Pull the record out of an SVG `<metadata>` element, if present.
pub fn extract_msr_svg(text: &str) -> (r: Option<String>)
    ensures
        match r {
            Some(s) => extract_svg_spec(text@) == Some(s@),
            None => extract_svg_spec(text@) is None,
        },
{
    let mut open: Vec<char> = Vec::new();
    push_str(&mut open, "id=\"");
    push_str(&mut open, SVG_MSR_ID);
    push_str(&mut open, "\">");
    let tc = chars_of(text);
    let i = match find_sub(&tc, &open) {
        Some(i) => i,
        None => {
            return None;
        },
    };
    proof {
        lemma_find_sub(tc@, open@, 0);
        assert(i + open@.len() <= tc.len());
    }
    let start = i + open.len();
    let rest = slice_of(&tc, start, tc.len());
    let close = chars_of("</metadata>");
    let e = match find_sub(&rest, &close) {
        Some(e) => e,
        None => {
            return None;
        },
    };
    proof {
        lemma_find_sub(rest@, close@, 0);
        assert(rest@.subrange(0, e as int) =~= tc@.subrange(start as int, start + e));
    }
    let body = trim(&slice_of(&tc, start, start + e));
    Some(string_from_chars(&body))
}

/// The split point of [`embed_svg_spec`]: just after the `<svg …>` tag, or
/// the end of the text.
pub open spec fn svg_split(svg: Seq<char>) -> int {
    match find_sub_spec(svg, "<svg"@) {
        Some(s) => match find_spec(svg.subrange(s, svg.len() as int), '>') {
            Some(o) => s + o + 1,
            None => svg.len() as int,
        },
        None => svg.len() as int,
    }
}

/// The embedded text is the SVG split at [`svg_split`] around a newline and
/// the element.
proof fn lemma_svg_split(svg: Seq<char>, msr: Seq<char>)
    ensures
        0 <= svg_split(svg) <= svg.len(),
        embed_svg_spec(svg, msr) == svg.subrange(0, svg_split(svg)) + seq!['\n'] + svg_meta(msr) + svg.subrange(
            svg_split(svg),
            svg.len() as int,
        ),
{
    lemma_find_sub(svg, "<svg"@, 0);
    match find_sub_spec(svg, "<svg"@) {
        Some(s) => {
            lemma_find(svg.subrange(s, svg.len() as int), '>');
        },
        None => {},
    }
    let a = svg_split(svg);
    if a == svg.len() {
        assert(svg.subrange(0, a) =~= svg);
        assert(svg.subrange(a, svg.len() as int) =~= Seq::<char>::empty());
        assert(svg + seq!['\n'] + svg_meta(msr) =~= svg.subrange(0, a) + seq!['\n'] + svg_meta(msr)
            + svg.subrange(a, svg.len() as int));
    }
}

/// Embedding a record in an SVG that carries none and extracting it again
/// gives the record back, for a record without `<` or surrounding whitespace
/// (as every `MS1:` text is).
pub proof fn lemma_svg_roundtrip(svg: Seq<char>, msr: Seq<char>)
    requires
        find_sub_spec(svg, svg_open_marker()) is None,
        forall|i: int| 0 <= i < msr.len() ==> msr[i] != '<',
        trim_spec(msr) == msr,
    ensures
        extract_svg_spec(embed_svg_spec(svg, msr)) == Some(msr),
{
    reveal_strlit("<metadata id=\"");
    reveal_strlit("morpion-solitaire-record");
    reveal_strlit("\">");
    reveal_strlit("</metadata>");
    reveal_strlit("id=\"");
    let open = svg_open_marker();
    let close = "</metadata>"@;
    let lead = seq!['<', 'm', 'e', 't', 'a', 'd', 'a', 't', 'a', ' '];
    assert(svg_meta(msr) =~= lead + open + msr + close);
    lemma_svg_split(svg, msr);
    let a = svg_split(svg);
    let p = svg.subrange(0, a);
    let tail = svg.subrange(a, svg.len() as int);
    let text = embed_svg_spec(svg, msr);
    assert(text =~= p + seq!['\n'] + lead + open + msr + close + tail);
    let k = a + 11;
    assert(text.subrange(k, k + open.len()) =~= open);
    lemma_find_sub(svg, open, 0);
    assert(open.len() == 30);
    assert(open[0] == 'i');
    assert forall|m: int| 0 <= m < open.len() implies open[m] != '\n' by {}
    assert forall|j: int| 0 <= j < k implies !occurs_at(text, open, j) by {
        if j + open.len() <= a {
            if occurs_at(text, open, j) {
                assert(svg.subrange(j, j + open.len()) =~= text.subrange(j, j + open.len()));
                assert(occurs_at(svg, open, j));
            }
        } else if j < a {
            let m = a - j;
            assert(text[a] == '\n');
            assert(text.subrange(j, j + open.len())[m] != open[m]);
        } else {
            assert(text[j] != 'i');
            assert(text.subrange(j, j + open.len())[0] != open[0]);
        }
    }
    lemma_find_sub_at(text, open, 0, k);
    let start = k + open.len();
    let rest = text.subrange(start, text.len() as int);
    assert(rest =~= msr + close + tail);
    assert(rest.subrange(msr.len() as int, msr.len() + close.len() as int) =~= close);
    assert forall|j: int| 0 <= j < msr.len() implies !occurs_at(rest, close, j) by {
        assert(rest.subrange(j, j + close.len())[0] != close[0]);
    }
    lemma_find_sub_at(rest, close, 0, msr.len() as int);
    assert(text.subrange(start, start + msr.len()) =~= msr);
}

} // verus!
