//! Content encodings that responses may use.
use vstd::prelude::*;

use crate::text::{
    chars_eq_ignore_ascii_case, chars_of, chars_trim, eq_ignore_ascii_case,
    lemma_piece_between_separators, lemma_trim_no_whitespace, split_nonempty, split_nonempty_chars,
    trim, trim_end, trim_start,
};

verus! {

/// Supported encoding formats for HTTP Content-Encoding
#[derive(Debug, Clone, Copy, PartialEq, Eq, Structural)]
pub enum Encoding {
    Gzip,
}

/// An `Accept-Encoding` value accepts gzip when one of its comma-separated
/// entries, with surrounding whitespace removed, is `gzip` in any ASCII case.
pub open spec fn accepts_gzip(header: Seq<char>) -> bool {
    exists|i: int|
        0 <= i < split_nonempty(header, ',').len() && eq_ignore_ascii_case(
            trim(#[trigger] split_nonempty(header, ',')[i]),
            "gzip"@,
        )
}

/// The encoding that an `Accept-Encoding` value selects, if any.
pub open spec fn accepted_encoding(header: Seq<char>) -> Option<Encoding> {
    if accepts_gzip(header) {
        Some(Encoding::Gzip)
    } else {
        None
    }
}

/// The token that names an encoding.
pub open spec fn encoding_name(e: Encoding) -> Seq<char> {
    match e {
        Encoding::Gzip => "gzip"@,
    }
}

impl Encoding {
    /// Parse Accept-Encoding header string and return matching Encoding if supported
    pub fn parse_accept_encoding(header: &str) -> (r: Option<Self>)
        ensures
            r == accepted_encoding(header@),
    {
        let cs = chars_of(header);
        let parts = split_nonempty_chars(cs.as_slice(), ',');
        let gzip = chars_of("gzip");
        let mut i: usize = 0;
        while i < parts.len()
            invariant
                i <= parts@.len(),
                gzip@ == "gzip"@,
                parts@.len() == split_nonempty(header@, ',').len(),
                forall|k: int|
                    0 <= k < parts@.len() ==> #[trigger] parts@[k]@ == split_nonempty(
                        header@,
                        ',',
                    )[k],
                forall|k: int|
                    0 <= k < i ==> !eq_ignore_ascii_case(
                        trim(#[trigger] split_nonempty(header@, ',')[k]),
                        "gzip"@,
                    ),
            decreases parts@.len() - i,
        {
            let t = chars_trim(parts[i].as_slice());
            if chars_eq_ignore_ascii_case(t.as_slice(), gzip.as_slice()) {
                assert(parts@[i as int]@ == split_nonempty(header@, ',')[i as int]);
                return Some(Encoding::Gzip);
            }
            assert(parts@[i as int]@ == split_nonempty(header@, ',')[i as int]);
            i = i + 1;
        }
        None
    }

    pub fn as_str(&self) -> (r: &'static str)
        ensures
            r@ == encoding_name(*self),
    {
        match self {
            Encoding::Gzip => "gzip",
        }
    }
}

/// The name of an encoding is accepted as that encoding: a request whose
/// `Accept-Encoding` is exactly the encoding's name gets that encoding.
pub proof fn law_encoding_name_is_accepted(e: Encoding)
    ensures
        accepted_encoding(encoding_name(e)) == Some(e),
{
    reveal_strlit("gzip");
    let h = "gzip"@;
    assert(h.len() == 4);
    crate::text::lemma_split_without_separator(h, ',');
    crate::text::lemma_trim_no_whitespace(h);
    assert(eq_ignore_ascii_case(trim(split_nonempty(h, ',')[0]), "gzip"@));
}

proof fn lemma_trim_shorter(s: Seq<char>)
    ensures
        trim_start(s).len() <= s.len(),
        trim_end(s).len() <= s.len(),
    decreases s.len(),
{
    if s.len() > 0 {
        lemma_trim_shorter(s.drop_first());
        lemma_trim_shorter(s.drop_last());
    }
}

/// A header in which gzip is one of the entries selects gzip, whatever the
/// entries around it: `a,w,b`, `w,b` and `a,w` all do, for any texts `a` and
/// `b` and any entry `w` that reads `gzip` (in any ASCII case) once its
/// surrounding whitespace is removed.
pub proof fn law_gzip_entry_anywhere_is_accepted(a: Seq<char>, w: Seq<char>, b: Seq<char>)
    requires
        forall|i: int| 0 <= i < w.len() ==> w[i] != ',',
        eq_ignore_ascii_case(trim(w), "gzip"@),
    ensures
        accepted_encoding(a.push(',') + w + seq![','] + b) == Some(Encoding::Gzip),
        accepted_encoding(w + seq![','] + b) == Some(Encoding::Gzip),
        accepted_encoding(a.push(',') + w) == Some(Encoding::Gzip),
{
    reveal_strlit("gzip");
    lemma_trim_shorter(w);
    lemma_trim_shorter(trim_start(w));
    assert(w.len() > 0);
    lemma_piece_between_separators(a, w, b, ',');
    let h1 = a.push(',') + w + seq![','] + b;
    let h2 = w + seq![','] + b;
    let h3 = a.push(',') + w;
    let k1 = choose|k: int| 0 <= k < split_nonempty(h1, ',').len() && split_nonempty(h1, ',')[k] == w;
    assert(eq_ignore_ascii_case(trim(split_nonempty(h1, ',')[k1]), "gzip"@));
    let k2 = choose|k: int| 0 <= k < split_nonempty(h2, ',').len() && split_nonempty(h2, ',')[k] == w;
    assert(eq_ignore_ascii_case(trim(split_nonempty(h2, ',')[k2]), "gzip"@));
    let k3 = choose|k: int| 0 <= k < split_nonempty(h3, ',').len() && split_nonempty(h3, ',')[k] == w;
    assert(eq_ignore_ascii_case(trim(split_nonempty(h3, ',')[k3]), "gzip"@));
}

/// The usual spellings: `gzip` listed first, last, or between other entries
/// is accepted, for any texts `a` and `b` around it (so `gzip, deflate, br`
/// selects gzip).
pub proof fn law_gzip_listed_is_accepted(a: Seq<char>, b: Seq<char>)
    ensures
        accepted_encoding(a + ",gzip,"@ + b) == Some(Encoding::Gzip),
        accepted_encoding("gzip,"@ + b) == Some(Encoding::Gzip),
        accepted_encoding(a + ",gzip"@) == Some(Encoding::Gzip),
{
    reveal_strlit("gzip");
    reveal_strlit(",gzip,");
    reveal_strlit("gzip,");
    reveal_strlit(",gzip");
    let w = "gzip"@;
    lemma_trim_no_whitespace(w);
    assert(eq_ignore_ascii_case(trim(w), "gzip"@));
    law_gzip_entry_anywhere_is_accepted(a, w, b);
    assert(a + ",gzip,"@ + b =~= a.push(',') + w + seq![','] + b);
    assert("gzip,"@ + b =~= w + seq![','] + b);
    assert(a + ",gzip"@ =~= a.push(',') + w);
}

/// The gzip stream (header, DEFLATE data at the default level, trailer) that
/// `flate2` produces for `data`.
pub uninterp spec fn gzip_compressed(data: Seq<u8>) -> Seq<u8>;

/// The ten-byte gzip header that flate2 writes by default: the magic bytes
/// `1f 8b`, method 8 (DEFLATE), no flags, modification time 0, no extra
/// flags at the default level, and operating system 255 (unknown).
pub open spec fn gzip_header() -> Seq<u8> {
    seq![0x1fu8, 0x8bu8, 8u8, 0u8, 0u8, 0u8, 0u8, 0u8, 0u8, 255u8]
}

/// The last four bytes of a gzip stream: the input's length modulo 2^32,
/// least significant byte first.
pub open spec fn gzip_size_trailer(n: nat) -> Seq<u8> {
    seq![
        (n % 256) as u8,
        (n / 256 % 256) as u8,
        (n / 65536 % 256) as u8,
        (n / 16777216 % 256) as u8,
    ]
}

/// `flate2::read::GzEncoder` at `Compression::default()`, read to the end.
/// The output is named by `gzip_compressed`: flate2 writes a fixed header
/// (no timestamp), so it depends on the bytes alone.  Of its contents only
/// the frame is claimed: the header that `GzBuilder` writes first, and the
/// trailer whose last four bytes hold the input's length; nothing is claimed
/// of the DEFLATE data between them, such as what decompressing it gives.
#[verifier::external_body]
fn gzip_encode(data: &[u8]) -> (r: Vec<u8>)
    ensures
        r@ == gzip_compressed(data@),
        r@.len() >= 18,
        r@.take(10) == gzip_header(),
        r@.skip(r@.len() - 4) == gzip_size_trailer(data@.len()),
{
    let mut encoder = flate2::read::GzEncoder::new(data, flate2::Compression::default());
    let mut compressed = Vec::new();
    let _ = std::io::Read::read_to_end(&mut encoder, &mut compressed);
    compressed
}

/// The bytes of `data` in encoding `e`.
pub open spec fn encoded(data: Seq<u8>, e: Encoding) -> Seq<u8> {
    match e {
        Encoding::Gzip => gzip_compressed(data),
    }
}

/// Compress input bytes using specified encoding
pub fn compress(data: &[u8], encoding: Encoding) -> (r: Vec<u8>)
    ensures
        r@ == encoded(data@, encoding),
        encoding == Encoding::Gzip ==> r@.len() >= 18 && r@.take(10) == gzip_header() && r@.skip(
            r@.len() - 4,
        ) == gzip_size_trailer(data@.len()),
{
    match encoding {
        Encoding::Gzip => gzip_encode(data),
    }
}

} // verus!
