//! Compression kinds, suffix classification, and byte-level codecs.
//!
//! A file name's trailing characters decide whether it is a JSON artifact and
//! under which compression kind; the codecs turn a whole in-memory byte string
//! into its compressed form and back.
use vstd::prelude::*;

use crate::bytes::{has_suffix, spec_ends_with};

verus! {

/// The closed set of compression kinds an artifact can carry.
#[derive(PartialEq, Eq, Structural, Clone, Copy, Debug)]
pub enum CType {
    Raw,
    Gzip,
    Snappy,
    Zlib,
}

/// What classifying a file name yields: a JSON artifact under some
/// compression kind, or something this crate does not touch.
#[derive(PartialEq, Eq, Structural, Clone, Copy, Debug)]
pub enum ContentType {
    Other,
    Json(CType),
}

/// The canonical file extension of each compression kind, without the
/// leading dot: `json`, `json.gz`, `json.sz`, `json.zz`.
pub open spec fn spec_extension(ct: CType) -> Seq<u8> {
    let json = seq!['j' as u8, 's' as u8, 'o' as u8, 'n' as u8];
    match ct {
        CType::Raw => json,
        CType::Gzip => json + seq!['.' as u8, 'g' as u8, 'z' as u8],
        CType::Snappy => json + seq!['.' as u8, 's' as u8, 'z' as u8],
        CType::Zlib => json + seq!['.' as u8, 'z' as u8, 'z' as u8],
    }
}

/// The recognized name suffix of a compression kind: a dot followed by its
/// extension.
pub open spec fn spec_suffix(ct: CType) -> Seq<u8> {
    seq!['.' as u8] + spec_extension(ct)
}

/// Suffix-based classification of a file name: which of the four recognized
/// suffixes it ends with, if any.
pub open spec fn spec_classify(name: Seq<u8>) -> ContentType {
    if spec_ends_with(name, spec_suffix(CType::Raw)) {
        ContentType::Json(CType::Raw)
    } else if spec_ends_with(name, spec_suffix(CType::Gzip)) {
        ContentType::Json(CType::Gzip)
    } else if spec_ends_with(name, spec_suffix(CType::Snappy)) {
        ContentType::Json(CType::Snappy)
    } else if spec_ends_with(name, spec_suffix(CType::Zlib)) {
        ContentType::Json(CType::Zlib)
    } else {
        ContentType::Other
    }
}

impl CType {
    /// The extension the output artifact of this kind is written under.
    pub fn get_extension(&self) -> (r: Vec<u8>)
        ensures
            r@ == spec_extension(*self),
    {
        match self {
            CType::Raw => {
                let v = vec!['j' as u8, 's' as u8, 'o' as u8, 'n' as u8];
                proof {
                    assert(v@ =~= spec_extension(CType::Raw));
                }
                v
            },
            CType::Gzip => {
                let v = vec![
                    'j' as u8,
                    's' as u8,
                    'o' as u8,
                    'n' as u8,
                    '.' as u8,
                    'g' as u8,
                    'z' as u8,
                ];
                proof {
                    assert(v@ =~= spec_extension(CType::Gzip));
                }
                v
            },
            CType::Snappy => {
                let v = vec![
                    'j' as u8,
                    's' as u8,
                    'o' as u8,
                    'n' as u8,
                    '.' as u8,
                    's' as u8,
                    'z' as u8,
                ];
                proof {
                    assert(v@ =~= spec_extension(CType::Snappy));
                }
                v
            },
            CType::Zlib => {
                let v = vec![
                    'j' as u8,
                    's' as u8,
                    'o' as u8,
                    'n' as u8,
                    '.' as u8,
                    'z' as u8,
                    'z' as u8,
                ];
                proof {
                    assert(v@ =~= spec_extension(CType::Zlib));
                }
                v
            },
        }
    }
}

/// Classifies a file name by its trailing characters alone.
pub fn classify(name: &[u8]) -> (r: ContentType)
    ensures
        r == spec_classify(name@),
{
    let s_raw = vec!['.' as u8, 'j' as u8, 's' as u8, 'o' as u8, 'n' as u8];
    proof {
        assert(s_raw@ =~= spec_suffix(CType::Raw));
    }
    if has_suffix(name, s_raw.as_slice()) {
        return ContentType::Json(CType::Raw);
    }
    let s_gz = vec![
        '.' as u8,
        'j' as u8,
        's' as u8,
        'o' as u8,
        'n' as u8,
        '.' as u8,
        'g' as u8,
        'z' as u8,
    ];
    proof {
        assert(s_gz@ =~= spec_suffix(CType::Gzip));
    }
    if has_suffix(name, s_gz.as_slice()) {
        return ContentType::Json(CType::Gzip);
    }
    let s_sz = vec![
        '.' as u8,
        'j' as u8,
        's' as u8,
        'o' as u8,
        'n' as u8,
        '.' as u8,
        's' as u8,
        'z' as u8,
    ];
    proof {
        assert(s_sz@ =~= spec_suffix(CType::Snappy));
    }
    if has_suffix(name, s_sz.as_slice()) {
        return ContentType::Json(CType::Snappy);
    }
    let s_zz = vec![
        '.' as u8,
        'j' as u8,
        's' as u8,
        'o' as u8,
        'n' as u8,
        '.' as u8,
        'z' as u8,
        'z' as u8,
    ];
    proof {
        assert(s_zz@ =~= spec_suffix(CType::Zlib));
    }
    if has_suffix(name, s_zz.as_slice()) {
        return ContentType::Json(CType::Zlib);
    }
    ContentType::Other
}

/// Classification and `get_extension` are mutual inverses: a name written
/// under a kind's canonical suffix is classified back to that kind, whatever
/// stem it carries.
pub proof fn lemma_classify_extension_inverse(stem: Seq<u8>, ct: CType)
    ensures
        spec_classify(stem + spec_suffix(ct)) == ContentType::Json(ct),
{
    let name = stem + spec_suffix(ct);
    assert(name.skip(name.len() - spec_suffix(ct).len() as int) =~= spec_suffix(ct));
    match ct {
        CType::Raw => {
        },
        CType::Gzip => {
            assert(name.skip(name.len() - 5)[0] == 'o' as u8);
            assert(!spec_ends_with(name, spec_suffix(CType::Raw)));
        },
        CType::Snappy => {
            assert(name.skip(name.len() - 5)[0] == 'o' as u8);
            assert(!spec_ends_with(name, spec_suffix(CType::Raw)));
            assert(name.skip(name.len() - 8)[6] == 's' as u8);
            assert(!spec_ends_with(name, spec_suffix(CType::Gzip)));
        },
        CType::Zlib => {
            assert(name.skip(name.len() - 5)[0] == 'o' as u8);
            assert(!spec_ends_with(name, spec_suffix(CType::Raw)));
            assert(name.skip(name.len() - 8)[6] == 'z' as u8);
            assert(!spec_ends_with(name, spec_suffix(CType::Gzip)));
            assert(!spec_ends_with(name, spec_suffix(CType::Snappy)));
        },
    }
}

/// The gzip compression of a byte string: flate2's encoder at the default
/// level writes a fixed header (zero mtime, fixed OS byte), so the result is
/// a function of the input bytes alone.
pub uninterp spec fn gzip_of(b: Seq<u8>) -> Seq<u8>;

/// What gzip decompression yields on a byte string, or nothing where the
/// bytes are not a well-formed gzip stream; a function of the bytes alone.
pub uninterp spec fn gunzip_of(b: Seq<u8>) -> Option<Seq<u8>>;

/// The zlib compression of a byte string at the default level.
pub uninterp spec fn zlib_of(b: Seq<u8>) -> Seq<u8>;

/// What zlib decompression yields on a byte string, if it is well formed.
pub uninterp spec fn unzlib_of(b: Seq<u8>) -> Option<Seq<u8>>;

/// The snappy frame encoding of a byte string.
pub uninterp spec fn snappy_of(b: Seq<u8>) -> Seq<u8>;

/// What snappy frame decoding yields on a byte string, if it is well formed.
pub uninterp spec fn unsnappy_of(b: Seq<u8>) -> Option<Seq<u8>>;

/// Relies on flate2's `write::GzEncoder` with `Compression::default()`.
/// Writing into a `Vec` cannot fail (std documents `Write` for `Vec<u8>` as
/// infallible), and flate2 builds a reproducible header (mtime zero, OS byte
/// fixed), so compression is total and a function of the input bytes alone;
/// decompressing its output yields the input back.
#[verifier::external_body]
fn gzip_compress(data: &[u8]) -> (r: Vec<u8>)
    ensures
        r@ == gzip_of(data@),
        gunzip_of(r@) == Some(data@),
{
    let mut enc = flate2::write::GzEncoder::new(Vec::new(), flate2::Compression::default());
    std::io::Write::write_all(&mut enc, data).expect("writing to a Vec cannot fail");
    enc.finish().expect("writing to a Vec cannot fail")
}

/// Relies on flate2's `read::GzDecoder`: whether a byte string decodes as a
/// gzip stream, and to what, depends on the bytes alone.
#[verifier::external_body]
fn gzip_decompress(data: &[u8]) -> (r: Option<Vec<u8>>)
    ensures
        r is Some <==> gunzip_of(data@) is Some,
        r matches Some(v) ==> Some(v@) == gunzip_of(data@),
{
    let mut dec = flate2::read::GzDecoder::new(data);
    let mut out = Vec::new();
    match std::io::Read::read_to_end(&mut dec, &mut out) {
        Ok(_) => Some(out),
        Err(_) => None,
    }
}

/// Relies on flate2's `write::ZlibEncoder` with `Compression::default()`:
/// total over a `Vec` sink and a function of the input bytes alone;
/// decompressing its output yields the input back.
#[verifier::external_body]
fn zlib_compress(data: &[u8]) -> (r: Vec<u8>)
    ensures
        r@ == zlib_of(data@),
        unzlib_of(r@) == Some(data@),
{
    let mut enc = flate2::write::ZlibEncoder::new(Vec::new(), flate2::Compression::default());
    std::io::Write::write_all(&mut enc, data).expect("writing to a Vec cannot fail");
    enc.finish().expect("writing to a Vec cannot fail")
}

/// Relies on flate2's `read::ZlibDecoder`: whether a byte string decodes as
/// a zlib stream, and to what, depends on the bytes alone.
#[verifier::external_body]
fn zlib_decompress(data: &[u8]) -> (r: Option<Vec<u8>>)
    ensures
        r is Some <==> unzlib_of(data@) is Some,
        r matches Some(v) ==> Some(v@) == unzlib_of(data@),
{
    let mut dec = flate2::read::ZlibDecoder::new(data);
    let mut out = Vec::new();
    match std::io::Read::read_to_end(&mut dec, &mut out) {
        Ok(_) => Some(out),
        Err(_) => None,
    }
}

/// Relies on snap's `write::FrameEncoder`: total over a `Vec` sink and a
/// function of the input bytes alone; decoding its output yields the input
/// back.
#[verifier::external_body]
fn snappy_compress(data: &[u8]) -> (r: Vec<u8>)
    ensures
        r@ == snappy_of(data@),
        unsnappy_of(r@) == Some(data@),
{
    let mut enc = snap::write::FrameEncoder::new(Vec::new());
    std::io::Write::write_all(&mut enc, data).expect("writing to a Vec cannot fail");
    enc.into_inner().expect("flushing into a Vec cannot fail")
}

/// Relies on snap's `read::FrameDecoder`: whether a byte string decodes as a
/// snappy frame stream, and to what, depends on the bytes alone.
#[verifier::external_body]
fn snappy_decompress(data: &[u8]) -> (r: Option<Vec<u8>>)
    ensures
        r is Some <==> unsnappy_of(data@) is Some,
        r matches Some(v) ==> Some(v@) == unsnappy_of(data@),
{
    let mut dec = snap::read::FrameDecoder::new(data);
    let mut out = Vec::new();
    match std::io::Read::read_to_end(&mut dec, &mut out) {
        Ok(_) => Some(out),
        Err(_) => None,
    }
}

/// What encoding a byte string under a kind yields.
pub open spec fn spec_encode(ct: CType, b: Seq<u8>) -> Seq<u8> {
    match ct {
        CType::Raw => b,
        CType::Gzip => gzip_of(b),
        CType::Snappy => snappy_of(b),
        CType::Zlib => zlib_of(b),
    }
}

/// What decoding a byte string under a kind yields, if it is well formed
/// under that kind.
pub open spec fn spec_decode(ct: CType, b: Seq<u8>) -> Option<Seq<u8>> {
    match ct {
        CType::Raw => Some(b),
        CType::Gzip => gunzip_of(b),
        CType::Snappy => unsnappy_of(b),
        CType::Zlib => unzlib_of(b),
    }
}

/// Decodes a whole byte string under the given compression kind, or yields
/// nothing where the bytes are malformed under that kind.
pub fn read_from_ctype(data: &[u8], ct: &CType) -> (r: Option<Vec<u8>>)
    ensures
        r is Some <==> spec_decode(*ct, data@) is Some,
        r matches Some(v) ==> Some(v@) == spec_decode(*ct, data@),
{
    match ct {
        CType::Raw => Some(crate::bytes::copy_bytes(data)),
        CType::Gzip => gzip_decompress(data),
        CType::Snappy => snappy_decompress(data),
        CType::Zlib => zlib_decompress(data),
    }
}

/// Encodes a whole byte string under the given compression kind. Decoding
/// the result under the same kind yields the input back.
pub fn write_from_ctype(data: Vec<u8>, ct: &CType) -> (r: Vec<u8>)
    ensures
        r@ == spec_encode(*ct, data@),
        spec_decode(*ct, r@) == Some(data@),
{
    match ct {
        CType::Raw => data,
        CType::Gzip => gzip_compress(data.as_slice()),
        CType::Snappy => snappy_compress(data.as_slice()),
        CType::Zlib => zlib_compress(data.as_slice()),
    }
}

} // verus!
