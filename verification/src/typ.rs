//! The document bundle and its serialized form.
//!
//! A bundle holds, in order, one serialized JSON document per recognized
//! input file. Its artifact form is a single JSON object with one field,
//! `data`, holding the array of those documents; the framing around the
//! documents is built here byte by byte.
use vstd::prelude::*;

use crate::bytes::append_bytes;

verus! {

/// An ordered collection of serialized JSON documents, one per recognized
/// input file, in sorted-source-name order.
pub struct Data {
    pub data: Vec<Vec<u8>>,
}

impl Default for Data {
    /// An empty bundle, with room for a typical directory's documents.
    fn default() -> (d: Self)
        ensures
            d.data@.len() == 0,
    {
        Data { data: Vec::with_capacity(16394) }
    }
}

/// The documents a bundle holds, as byte strings.
pub open spec fn docs_view(d: Data) -> Seq<Seq<u8>> {
    d.data@.map_values(|v: Vec<u8>| v@)
}

/// The canonical serialization of the JSON document a byte string holds, or
/// nothing where the bytes are not one well-formed JSON document. Parsing is
/// a function of the bytes alone, and serde_json's serialization of the
/// parsed tree is deterministic, so the composite depends on the bytes alone.
pub uninterp spec fn json_canon_of(b: Seq<u8>) -> Option<Seq<u8>>;

/// Relies on serde_json's `from_slice` for `serde_json::Value` and `to_vec`:
/// `from_slice` accepts exactly the byte strings holding one well-formed JSON
/// document, and `to_vec` on the parsed tree cannot fail and writes compact
/// JSON deterministically.
#[verifier::external_body]
pub(crate) fn json_canonical(data: &[u8]) -> (r: Option<Vec<u8>>)
    ensures
        r is Some <==> json_canon_of(data@) is Some,
        r matches Some(v) ==> Some(v@) == json_canon_of(data@),
{
    match serde_json::from_slice::<serde_json::Value>(data) {
        Ok(doc) => serde_json::to_vec(&doc).ok(),
        Err(_) => None,
    }
}

/// The opening bytes of an artifact: `{"data":[`.
pub open spec fn bundle_prefix() -> Seq<u8> {
    seq![
        '{' as u8,
        '"' as u8,
        'd' as u8,
        'a' as u8,
        't' as u8,
        'a' as u8,
        '"' as u8,
        ':' as u8,
        '[' as u8,
    ]
}

/// The documents joined by commas, as they stand inside the artifact's array.
pub open spec fn spec_join(docs: Seq<Seq<u8>>) -> Seq<u8>
    decreases docs.len(),
{
    if docs.len() == 0 {
        Seq::empty()
    } else if docs.len() == 1 {
        docs[0]
    } else {
        spec_join(docs.drop_last()) + seq![',' as u8] + docs.last()
    }
}

/// The whole artifact: a JSON object with the single field `data` holding
/// the array of documents, in bundle order.
pub open spec fn spec_bundle(docs: Seq<Seq<u8>>) -> Seq<u8> {
    bundle_prefix() + spec_join(docs) + seq![']' as u8, '}' as u8]
}

/// Serializes a bundle as the single JSON object `{"data":[...]}`, the
/// documents in bundle order.
pub fn serialize_bundle(d: &Data) -> (r: Vec<u8>)
    ensures
        r@ == spec_bundle(docs_view(*d)),
{
    let mut out: Vec<u8> = Vec::new();
    out.push('{' as u8);
    out.push('"' as u8);
    out.push('d' as u8);
    out.push('a' as u8);
    out.push('t' as u8);
    out.push('a' as u8);
    out.push('"' as u8);
    out.push(':' as u8);
    out.push('[' as u8);
    proof {
        assert(out@ =~= bundle_prefix());
    }
    let mut i: usize = 0;
    while i < d.data.len()
        invariant
            i <= d.data@.len(),
            out@ == bundle_prefix() + spec_join(docs_view(*d).take(i as int)),
        decreases d.data@.len() - i,
    {
        if i > 0 {
            out.push(',' as u8);
        }
        append_bytes(&mut out, d.data[i].as_slice());
        proof {
            let docs = docs_view(*d);
            assert(docs.take(i as int + 1).drop_last() =~= docs.take(i as int));
            assert(docs.take(i as int + 1).last() == docs[i as int]);
            if i == 0 {
                assert(out@ =~= bundle_prefix() + spec_join(docs.take(1)));
            } else {
                assert(spec_join(docs.take(i as int + 1)) == spec_join(docs.take(i as int))
                    + seq![',' as u8] + docs[i as int]);
                assert(out@ =~= bundle_prefix() + spec_join(docs.take(i as int + 1)));
            }
        }
        i += 1;
    }
    out.push(']' as u8);
    out.push('}' as u8);
    proof {
        assert(docs_view(*d).take(d.data@.len() as int) =~= docs_view(*d));
        assert(out@ =~= spec_bundle(docs_view(*d)));
    }
    out
}

} // verus!
