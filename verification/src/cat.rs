//! The per-directory concatenation engine.
//!
//! Given the regular files a directory directly contains, the engine sorts
//! them by name, decodes and parses every recognized JSON artifact among
//! them, and — when at least one document was found — produces the single
//! output artifact holding all documents as one JSON array.
use vstd::prelude::*;
use vstd::relations::{sorted_by, total_ordering};
use vstd::seq_lib::lemma_sorted_unique;

use crate::bytes::{append_bytes, bytes_le, copy_bytes, lex_leq, lemma_lex_leq_antisym,
    lemma_lex_leq_connected, lemma_lex_leq_refl, lemma_lex_leq_trans};
use crate::compress::{classify, read_from_ctype, spec_classify, spec_decode, spec_encode,
    spec_extension, write_from_ctype, CType, ContentType};
use crate::typ::{docs_view, json_canon_of, json_canonical, serialize_bundle, spec_bundle, Data};

verus! {

broadcast use vstd::seq_lib::group_to_multiset_ensures, vstd::multiset::group_multiset_axioms;

/// One regular file of an input directory: its name (the final path
/// component) and its whole contents.
pub struct FileEntry {
    pub name: Vec<u8>,
    pub contents: Vec<u8>,
}

/// What identifies a file entry to the engine: its name and contents as
/// byte strings.
pub open spec fn entry_key(e: FileEntry) -> (Seq<u8>, Seq<u8>) {
    (e.name@, e.contents@)
}

/// The keys of a sequence of entries, in the same order.
pub open spec fn keys_of(s: Seq<FileEntry>) -> Seq<(Seq<u8>, Seq<u8>)> {
    s.map_values(|e: FileEntry| entry_key(e))
}

/// Order on entry keys: by name, ties broken by contents. On the distinct
/// names a directory listing yields, this is exactly name order.
pub open spec fn entry_leq(a: (Seq<u8>, Seq<u8>), b: (Seq<u8>, Seq<u8>)) -> bool {
    if a.0 == b.0 {
        lex_leq(a.1, b.1)
    } else {
        lex_leq(a.0, b.0)
    }
}

/// The entry order as a first-class relation, for use with `sort_by`.
pub open spec fn entry_order() -> spec_fn((Seq<u8>, Seq<u8>), (Seq<u8>, Seq<u8>)) -> bool {
    |a: (Seq<u8>, Seq<u8>), b: (Seq<u8>, Seq<u8>)| entry_leq(a, b)
}

pub proof fn lemma_entry_leq_refl(a: (Seq<u8>, Seq<u8>))
    ensures
        entry_leq(a, a),
{
    lemma_lex_leq_refl(a.1);
}

pub proof fn lemma_entry_leq_antisym(a: (Seq<u8>, Seq<u8>), b: (Seq<u8>, Seq<u8>))
    requires
        entry_leq(a, b),
        entry_leq(b, a),
    ensures
        a == b,
{
    if a.0 == b.0 {
        lemma_lex_leq_antisym(a.1, b.1);
        assert(a =~= b);
    } else {
        lemma_lex_leq_antisym(a.0, b.0);
    }
}

pub proof fn lemma_entry_leq_trans(a: (Seq<u8>, Seq<u8>), b: (Seq<u8>, Seq<u8>), c: (
    Seq<u8>,
    Seq<u8>,
))
    requires
        entry_leq(a, b),
        entry_leq(b, c),
    ensures
        entry_leq(a, c),
{
    if a.0 == b.0 && b.0 == c.0 {
        lemma_lex_leq_trans(a.1, b.1, c.1);
    } else if a.0 != b.0 && b.0 != c.0 {
        lemma_lex_leq_trans(a.0, b.0, c.0);
        if a.0 == c.0 {
            lemma_lex_leq_antisym(b.0, c.0);
        }
    }
}

pub proof fn lemma_entry_leq_connected(a: (Seq<u8>, Seq<u8>), b: (Seq<u8>, Seq<u8>))
    ensures
        entry_leq(a, b) || entry_leq(b, a),
{
    if a.0 == b.0 {
        lemma_lex_leq_connected(a.1, b.1);
    } else {
        lemma_lex_leq_connected(a.0, b.0);
    }
}

/// The entry order is a total order, as `sort_by` demands.
pub proof fn lemma_entry_order_total()
    ensures
        total_ordering(entry_order()),
{
    assert forall|a: (Seq<u8>, Seq<u8>)| #[trigger] entry_order()(a, a) by {
        lemma_entry_leq_refl(a);
    }
    assert forall|a: (Seq<u8>, Seq<u8>), b: (Seq<u8>, Seq<u8>)|
        #[trigger] entry_order()(a, b) && #[trigger] entry_order()(b, a) implies a == b by {
        lemma_entry_leq_antisym(a, b);
    }
    assert forall|a: (Seq<u8>, Seq<u8>), b: (Seq<u8>, Seq<u8>), c: (Seq<u8>, Seq<u8>)|
        #[trigger] entry_order()(a, b) && #[trigger] entry_order()(b, c) implies entry_order()(
        a,
        c,
    ) by {
        lemma_entry_leq_trans(a, b, c);
    }
    assert forall|a: (Seq<u8>, Seq<u8>), b: (Seq<u8>, Seq<u8>)|
        !(#[trigger] entry_order()(a, b)) implies entry_order()(b, a) by {
        lemma_entry_leq_connected(a, b);
    }
}

/// Decides the entry order on two file entries.
fn entry_le(a: &FileEntry, b: &FileEntry) -> (r: bool)
    ensures
        r == entry_leq(entry_key(*a), entry_key(*b)),
{
    let name_ab = bytes_le(&a.name, &b.name);
    let name_ba = bytes_le(&b.name, &a.name);
    if name_ab && name_ba {
        proof {
            lemma_lex_leq_antisym(a.name@, b.name@);
        }
        bytes_le(&a.contents, &b.contents)
    } else if name_ab {
        proof {
            if a.name@ == b.name@ {
                lemma_lex_leq_refl(b.name@);
            }
        }
        true
    } else {
        proof {
            if a.name@ == b.name@ {
                lemma_lex_leq_refl(a.name@);
            }
        }
        false
    }
}

proof fn lemma_keys_remove(s: Seq<FileEntry>, i: int)
    requires
        0 <= i < s.len(),
    ensures
        keys_of(s.remove(i)) =~= keys_of(s).remove(i),
{
}

proof fn lemma_keys_push(s: Seq<FileEntry>, e: FileEntry)
    ensures
        keys_of(s.push(e)) =~= keys_of(s).push(entry_key(e)),
{
}

/// The index of a least entry of a non-empty vector.
fn min_index(v: &Vec<FileEntry>) -> (m: usize)
    requires
        v@.len() > 0,
    ensures
        m < v@.len(),
        forall|k: int|
            0 <= k < v@.len() ==> entry_leq(entry_key(v@[m as int]), entry_key(#[trigger] v@[k])),
{
    let mut m: usize = 0;
    let mut i: usize = 1;
    proof {
        lemma_entry_leq_refl(entry_key(v@[0]));
    }
    while i < v.len()
        invariant
            m < i <= v@.len(),
            forall|k: int|
                0 <= k < i ==> entry_leq(entry_key(v@[m as int]), entry_key(#[trigger] v@[k])),
        decreases v@.len() - i,
    {
        if entry_le(&v[i], &v[m]) {
            proof {
                assert forall|k: int| 0 <= k < i + 1 implies entry_leq(
                    entry_key(v@[i as int]),
                    entry_key(#[trigger] v@[k]),
                ) by {
                    if k < i {
                        lemma_entry_leq_trans(
                            entry_key(v@[i as int]),
                            entry_key(v@[m as int]),
                            entry_key(v@[k]),
                        );
                    } else {
                        lemma_entry_leq_refl(entry_key(v@[i as int]));
                    }
                }
            }
            m = i;
        } else {
            proof {
                lemma_entry_leq_connected(entry_key(v@[i as int]), entry_key(v@[m as int]));
            }
        }
        i += 1;
    }
    m
}

/// Sorts file entries by name (ties broken by contents). The keys of the
/// result are exactly the sorted keys of the input: the one total order makes
/// the sorted sequence unique, so the output is pinned, whatever order the
/// input arrived in.
pub fn sort_entries(entries: Vec<FileEntry>) -> (r: Vec<FileEntry>)
    ensures
        keys_of(r@) == keys_of(entries@).sort_by(entry_order()),
{
    let ghost orig_keys = keys_of(entries@);
    proof {
        lemma_entry_order_total();
        orig_keys.lemma_sort_by_ensures(entry_order());
    }
    let mut rest = entries;
    let mut out: Vec<FileEntry> = Vec::new();
    while rest.len() > 0
        invariant
            keys_of(out@).to_multiset().add(keys_of(rest@).to_multiset())
                =~= orig_keys.to_multiset(),
            sorted_by(keys_of(out@), entry_order()),
            forall|x: int, y: int|
                0 <= x < out@.len() && 0 <= y < rest@.len() ==> entry_leq(
                    #[trigger] keys_of(out@)[x],
                    #[trigger] keys_of(rest@)[y],
                ),
        decreases rest@.len(),
    {
        let ghost rest0 = rest@;
        let ghost out0 = out@;
        let m = min_index(&rest);
        let e = rest.remove(m);
        proof {
            lemma_keys_remove(rest0, m as int);
            assert(keys_of(rest0).contains(keys_of(rest0)[m as int]));
        }
        out.push(e);
        proof {
            lemma_keys_push(out0, e);
            let k = entry_key(e);
            assert(k == keys_of(rest0)[m as int]);
            // the multisets rebalance: one key moved from rest to out
            assert(keys_of(out@).to_multiset() =~= keys_of(out0).to_multiset().insert(k));
            assert(keys_of(rest@).to_multiset() =~= keys_of(rest0).to_multiset().remove(k));
            assert(keys_of(out@).to_multiset().add(keys_of(rest@).to_multiset())
                =~= orig_keys.to_multiset());
            // the pushed key follows everything already placed
            assert forall|x: int, y: int|
                0 <= x < out@.len() && 0 <= y < rest@.len() implies entry_leq(
                #[trigger] keys_of(out@)[x],
                #[trigger] keys_of(rest@)[y],
            ) by {
                let ky = keys_of(rest@)[y];
                assert(ky == keys_of(rest0).remove(m as int)[y]);
                if y < m {
                    assert(ky == keys_of(rest0)[y]);
                } else {
                    assert(ky == keys_of(rest0)[y + 1]);
                }
                if x < out0.len() {
                    assert(keys_of(out@)[x] == keys_of(out0)[x]);
                } else {
                    assert(keys_of(out@)[x] == k);
                }
            }
            assert forall|x: int, y: int| 0 <= x < y < keys_of(out@).len() implies entry_order()(
                keys_of(out@)[x],
                keys_of(out@)[y],
            ) by {
                if y < out0.len() {
                    assert(entry_order()(keys_of(out0)[x], keys_of(out0)[y]));
                } else {
                    assert(keys_of(out@)[y] == k);
                    assert(entry_leq(keys_of(out0)[x], keys_of(rest0)[m as int]));
                }
            }
        }
    }
    proof {
        assert(keys_of(rest@) =~= Seq::<(Seq<u8>, Seq<u8>)>::empty());
        assert forall|k: (Seq<u8>, Seq<u8>)| true implies keys_of(out@).to_multiset().count(k)
            == orig_keys.to_multiset().count(k) by {
            assert(keys_of(rest@).to_multiset().count(k) == 0) by {
                if keys_of(rest@).to_multiset().count(k) > 0 {
                    assert(keys_of(rest@).contains(k));
                }
            }
            assert(orig_keys.to_multiset().count(k) == keys_of(out@).to_multiset().count(k)
                + keys_of(rest@).to_multiset().count(k));
        }
        assert(keys_of(out@).to_multiset() =~= orig_keys.to_multiset());
        lemma_sorted_unique(
            keys_of(out@),
            orig_keys.sort_by(entry_order()),
            entry_order(),
        );
    }
    out
}

/// Why a directory's job failed, with the path it failed on.
#[derive(Debug)]
pub enum CatError {
    /// A recognized file's bytes were malformed under its compression kind.
    DecodeFailed { path: Vec<u8> },
    /// A recognized file's decoded bytes were not one well-formed JSON
    /// document.
    ParseFailed { path: Vec<u8> },
    /// A discovered directory did not lie under the input root.
    NotUnderRoot { path: Vec<u8> },
}

/// The output artifact of one directory's job: where it goes and the bytes
/// it holds.
pub struct OutputArtifact {
    pub path: Vec<u8>,
    pub bytes: Vec<u8>,
}

/// Whether a key's name marks a recognized JSON artifact.
pub open spec fn is_recognized(k: (Seq<u8>, Seq<u8>)) -> bool {
    spec_classify(k.0) is Json
}

/// What a recognized file's contents decode to under the kind its name
/// carries, if they are well formed; nothing for unrecognized names.
pub open spec fn key_decoded(k: (Seq<u8>, Seq<u8>)) -> Option<Seq<u8>> {
    match spec_classify(k.0) {
        ContentType::Json(ct) => spec_decode(ct, k.1),
        ContentType::Other => None,
    }
}

/// The canonical document a recognized file contributes: its contents
/// decoded, then parsed and re-serialized; nothing where either step fails.
pub open spec fn key_doc(k: (Seq<u8>, Seq<u8>)) -> Option<Seq<u8>> {
    match key_decoded(k) {
        Some(raw) => json_canon_of(raw),
        None => None,
    }
}

/// Whether every recognized entry of the sequence decodes and parses.
pub open spec fn all_ok(ks: Seq<(Seq<u8>, Seq<u8>)>) -> bool {
    forall|i: int| 0 <= i < ks.len() && is_recognized(#[trigger] ks[i]) ==> key_doc(ks[i]) is Some
}

/// The documents the recognized entries contribute, in sequence order,
/// entries whose document fails left out.
pub open spec fn docs_of(ks: Seq<(Seq<u8>, Seq<u8>)>) -> Seq<Seq<u8>>
    decreases ks.len(),
{
    if ks.len() == 0 {
        Seq::empty()
    } else {
        let rest = docs_of(ks.drop_last());
        if is_recognized(ks.last()) {
            match key_doc(ks.last()) {
                Some(d) => rest.push(d),
                None => rest,
            }
        } else {
            rest
        }
    }
}

/// The entries' keys in sorted order: the order the engine processes a
/// directory's files in.
pub open spec fn sorted_keys(files: Seq<FileEntry>) -> Seq<(Seq<u8>, Seq<u8>)> {
    keys_of(files).sort_by(entry_order())
}

/// Whether a directory's job succeeds on the given files.
pub open spec fn spec_cat_ok(files: Seq<FileEntry>) -> bool {
    all_ok(sorted_keys(files))
}

/// The documents a directory's job bundles, in sorted-name order.
pub open spec fn spec_cat_docs(files: Seq<FileEntry>) -> Seq<Seq<u8>> {
    docs_of(sorted_keys(files))
}

/// The output path of a directory's artifact: `out` plus the kind's
/// extension, inside the output directory.
pub open spec fn spec_output_path(dir: Seq<u8>, ct: CType) -> Seq<u8> {
    dir + seq!['/' as u8, 'o' as u8, 'u' as u8, 't' as u8, '.' as u8] + spec_extension(ct)
}

/// Given the output directory, the artifact's path under the chosen kind.
pub fn get_output_path(outfile_dir: &Vec<u8>, ct: &CType) -> (r: Vec<u8>)
    ensures
        r@ == spec_output_path(outfile_dir@, *ct),
{
    let mut out = copy_bytes(outfile_dir.as_slice());
    out.push('/' as u8);
    out.push('o' as u8);
    out.push('u' as u8);
    out.push('t' as u8);
    out.push('.' as u8);
    let ext = ct.get_extension();
    append_bytes(&mut out, ext.as_slice());
    proof {
        assert(out@ =~= spec_output_path(outfile_dir@, *ct));
    }
    out
}

/// Concatenates one directory's files into one artifact.
///
/// The files are taken in sorted-name order; unrecognized names are skipped;
/// every recognized file must decode and parse, else the whole job fails with
/// the first offending path; if no document was found, the job succeeds and
/// produces nothing; otherwise the artifact holds all documents as one JSON
/// array, encoded under the chosen kind, at `out.<extension>` inside the
/// output directory.
pub fn cat_dir(files: Vec<FileEntry>, outfile_dir: &Vec<u8>, write_compression: &CType) -> (r:
    Result<Option<OutputArtifact>, CatError>)
    ensures
        r is Ok <==> spec_cat_ok(files@),
        r matches Ok(o) ==> (o is Some <==> spec_cat_docs(files@).len() > 0),
        r matches Ok(Some(a)) ==> {
            &&& a.path@ == spec_output_path(outfile_dir@, *write_compression)
            &&& a.bytes@ == spec_encode(*write_compression, spec_bundle(spec_cat_docs(files@)))
            &&& spec_decode(*write_compression, a.bytes@) == Some(
                spec_bundle(spec_cat_docs(files@)),
            )
        },
        r matches Err(e) ==> exists|i: int|
            #![trigger sorted_keys(files@)[i]]
            {
                &&& 0 <= i < sorted_keys(files@).len()
                &&& is_recognized(sorted_keys(files@)[i])
                &&& key_doc(sorted_keys(files@)[i]) is None
                &&& forall|j: int|
                    0 <= j < i && is_recognized(#[trigger] sorted_keys(files@)[j]) ==> key_doc(
                        sorted_keys(files@)[j],
                    ) is Some
                &&& match e {
                    CatError::DecodeFailed { path } => path@ == sorted_keys(files@)[i].0
                        && key_decoded(sorted_keys(files@)[i]) is None,
                    CatError::ParseFailed { path } => path@ == sorted_keys(files@)[i].0
                        && key_decoded(sorted_keys(files@)[i]) is Some,
                    CatError::NotUnderRoot { .. } => false,
                }
            },
{
    let sorted = sort_entries(files);
    let ghost ks = sorted_keys(files@);
    let mut bundle = Data::default();
    let mut i: usize = 0;
    while i < sorted.len()
        invariant
            keys_of(sorted@) == ks,
            ks == sorted_keys(files@),
            i <= sorted@.len(),
            docs_view(bundle) == docs_of(ks.take(i as int)),
            forall|j: int|
                0 <= j < i && is_recognized(#[trigger] ks[j]) ==> key_doc(ks[j]) is Some,
        decreases sorted@.len() - i,
    {
        let ghost k = ks[i as int];
        proof {
            assert(k == entry_key(sorted@[i as int]));
            assert(ks.take(i as int + 1).drop_last() =~= ks.take(i as int));
            assert(ks.take(i as int + 1).last() == k);
        }
        let entry = &sorted[i];
        match classify(entry.name.as_slice()) {
            ContentType::Other => {
                assert(docs_of(ks.take(i as int + 1)) == docs_of(ks.take(i as int)));
            },
            ContentType::Json(ct) => {
                match read_from_ctype(entry.contents.as_slice(), &ct) {
                    None => {
                        assert(key_decoded(k) is None);
                        return Err(CatError::DecodeFailed { path: copy_bytes(entry.name.as_slice()) });
                    },
                    Some(raw) => {
                        match json_canonical(raw.as_slice()) {
                            None => {
                                assert(key_decoded(k) is Some);
                                assert(key_doc(k) is None);
                                return Err(
                                    CatError::ParseFailed { path: copy_bytes(entry.name.as_slice()) },
                                );
                            },
                            Some(doc) => {
                                let ghost bundle0 = bundle;
                                bundle.data.push(doc);
                                proof {
                                    assert(key_doc(k) == Some(doc@));
                                    assert(docs_view(bundle) =~= docs_view(bundle0).push(doc@));
                                    assert(docs_of(ks.take(i as int + 1)) == docs_of(
                                        ks.take(i as int),
                                    ).push(doc@));
                                }
                            },
                        }
                    },
                }
            },
        }
        i += 1;
    }
    proof {
        assert(ks.take(sorted@.len() as int) =~= ks);
    }
    if bundle.data.len() == 0 {
        return Ok(None);
    }
    let payload = serialize_bundle(&bundle);
    let encoded = write_from_ctype(payload, write_compression);
    let path = get_output_path(outfile_dir, write_compression);
    Ok(Some(OutputArtifact { path, bytes: encoded }))
}

/// Whether path `p` lies under the directory `base`: it is `base` itself or
/// continues it across a path separator.
pub open spec fn spec_under(base: Seq<u8>, p: Seq<u8>) -> bool {
    p == base || (p.len() > base.len() && p.take(base.len() as int) == base && p[base.len() as int]
        == '/' as u8)
}

/// Re-roots `p` from `base_in` onto `base_out`: the part of `p` below
/// `base_in` is kept unchanged.
pub open spec fn spec_map_out(base_in: Seq<u8>, base_out: Seq<u8>, p: Seq<u8>) -> Seq<u8> {
    if p == base_in {
        base_out
    } else {
        base_out + p.skip(base_in.len() as int)
    }
}

/// Decides whether `p` lies under the directory `base`.
fn is_under(base: &Vec<u8>, p: &Vec<u8>) -> (r: bool)
    ensures
        r == spec_under(base@, p@),
{
    if p.len() == base.len() {
        let r = crate::bytes::has_prefix(p.as_slice(), base.as_slice());
        proof {
            assert(p@.take(base@.len() as int) =~= p@);
        }
        r
    } else if p.len() > base.len() {
        if crate::bytes::has_prefix(p.as_slice(), base.as_slice()) {
            let c = p[base.len()];
            proof {
                assert(p@ != base@);
            }
            c == '/' as u8
        } else {
            false
        }
    } else {
        false
    }
}

/// Computes the output directory of each candidate input directory by
/// re-rooting it from `base_in_dir` onto `base_out_dir`; fails on the first
/// candidate that does not lie under the input root.
pub fn compute_outdir_paths(
    len_hint: usize,
    base_in_dir: &Vec<u8>,
    base_out_dir: &Vec<u8>,
    process_paths: &Vec<Vec<u8>>,
) -> (r: Result<Vec<Vec<u8>>, CatError>)
    ensures
        r is Ok <==> (forall|i: int|
            0 <= i < process_paths@.len() ==> spec_under(
                base_in_dir@,
                #[trigger] process_paths@[i]@,
            )),
        r matches Ok(v) ==> {
            &&& v@.len() == process_paths@.len()
            &&& forall|i: int|
                0 <= i < v@.len() ==> #[trigger] v@[i]@ == spec_map_out(
                    base_in_dir@,
                    base_out_dir@,
                    process_paths@[i]@,
                )
        },
        r matches Err(e) ==> match e {
            CatError::NotUnderRoot { path } => exists|i: int|
                0 <= i < process_paths@.len() && !spec_under(
                    base_in_dir@,
                    #[trigger] process_paths@[i]@,
                ) && path@ == process_paths@[i]@,
            _ => false,
        },
{
    let mut outdir_paths: Vec<Vec<u8>> = Vec::with_capacity(len_hint);
    let mut i: usize = 0;
    while i < process_paths.len()
        invariant
            i <= process_paths@.len(),
            outdir_paths@.len() == i,
            forall|j: int|
                0 <= j < i ==> spec_under(base_in_dir@, #[trigger] process_paths@[j]@),
            forall|j: int|
                0 <= j < i ==> #[trigger] outdir_paths@[j]@ == spec_map_out(
                    base_in_dir@,
                    base_out_dir@,
                    process_paths@[j]@,
                ),
        decreases process_paths@.len() - i,
    {
        let path = &process_paths[i];
        if !is_under(base_in_dir, path) {
            return Err(CatError::NotUnderRoot { path: copy_bytes(path.as_slice()) });
        }
        let mut mapped = copy_bytes(base_out_dir.as_slice());
        let mut j: usize = base_in_dir.len();
        proof {
            assert(path@.len() >= base_in_dir@.len());
            assert(mapped@ =~= base_out_dir@ + path@.subrange(
                base_in_dir@.len() as int,
                j as int,
            ));
        }
        while j < path.len()
            invariant
                base_in_dir@.len() <= j,
                j <= path@.len(),
                mapped@ == base_out_dir@ + path@.subrange(base_in_dir@.len() as int, j as int),
            decreases path@.len() - j,
        {
            let b = path[j];
            mapped.push(b);
            proof {
                assert(mapped@ =~= base_out_dir@ + path@.subrange(
                    base_in_dir@.len() as int,
                    j as int + 1,
                ));
            }
            j += 1;
        }
        proof {
            if path@ == base_in_dir@ {
                assert(path@.subrange(base_in_dir@.len() as int, path@.len() as int)
                    =~= Seq::<u8>::empty());
                assert(mapped@ =~= base_out_dir@);
            } else {
                assert(path@.subrange(base_in_dir@.len() as int, path@.len() as int) =~= path@.skip(
                    base_in_dir@.len() as int,
                ));
            }
        }
        outdir_paths.push(mapped);
        i += 1;
    }
    Ok(outdir_paths)
}

proof fn lemma_docs_of_unrecognized(ks: Seq<(Seq<u8>, Seq<u8>)>)
    requires
        forall|i: int| 0 <= i < ks.len() ==> !is_recognized(#[trigger] ks[i]),
    ensures
        docs_of(ks) =~= Seq::<Seq<u8>>::empty(),
        all_ok(ks),
    decreases ks.len(),
{
    if ks.len() > 0 {
        lemma_docs_of_unrecognized(ks.drop_last());
    }
}

proof fn lemma_docs_of_all_ok(ks: Seq<(Seq<u8>, Seq<u8>)>)
    requires
        forall|i: int|
            0 <= i < ks.len() ==> is_recognized(#[trigger] ks[i]) && key_doc(ks[i]) is Some,
    ensures
        docs_of(ks).len() == ks.len(),
        forall|i: int|
            0 <= i < ks.len() ==> #[trigger] docs_of(ks)[i] == key_doc(ks[i])->Some_0,
    decreases ks.len(),
{
    if ks.len() > 0 {
        lemma_docs_of_all_ok(ks.drop_last());
    }
}

/// Sorting keeps exactly the keys that were there: whatever holds of every
/// input key holds of every sorted key.
proof fn lemma_sorted_keys_elements(files: Seq<FileEntry>)
    ensures
        sorted_keys(files).len() == files.len(),
        forall|i: int|
            0 <= i < sorted_keys(files).len() ==> keys_of(files).contains(
                #[trigger] sorted_keys(files)[i],
            ),
{
    lemma_entry_order_total();
    keys_of(files).lemma_sort_by_ensures(entry_order());
    assert(keys_of(files).to_multiset().len() == sorted_keys(files).to_multiset().len());
    assert forall|i: int|
        0 <= i < sorted_keys(files).len() implies keys_of(files).contains(
        #[trigger] sorted_keys(files)[i],
    ) by {
        let x = sorted_keys(files)[i];
        assert(sorted_keys(files).contains(x));
        if !keys_of(files).contains(x) {
            assert(!sorted_keys(files).contains(x));
        }
    }
}

/// A directory holding only unrecognized files yields no document and no
/// output artifact, and its job succeeds.
pub proof fn lemma_cat_unrecognized(files: Seq<FileEntry>)
    requires
        forall|i: int|
            0 <= i < files.len() ==> !is_recognized(entry_key(#[trigger] files[i])),
    ensures
        spec_cat_ok(files),
        spec_cat_docs(files).len() == 0,
{
    lemma_sorted_keys_elements(files);
    assert forall|i: int|
        0 <= i < sorted_keys(files).len() implies !is_recognized(
        #[trigger] sorted_keys(files)[i],
    ) by {
        let x = sorted_keys(files)[i];
        let j = choose|j: int| #![trigger keys_of(files)[j]]
            0 <= j < keys_of(files).len() && keys_of(files)[j] == x;
        assert(!is_recognized(entry_key(files[j])));
    }
    lemma_docs_of_unrecognized(sorted_keys(files));
}

/// A directory of recognized files that all decode and parse bundles
/// exactly one document per file, in sorted order.
pub proof fn lemma_cat_bundle_count(files: Seq<FileEntry>)
    requires
        forall|i: int|
            0 <= i < files.len() ==> is_recognized(entry_key(#[trigger] files[i])) && key_doc(
                entry_key(files[i]),
            ) is Some,
    ensures
        spec_cat_ok(files),
        spec_cat_docs(files).len() == files.len(),
        sorted_by(sorted_keys(files), entry_order()),
        forall|i: int|
            0 <= i < files.len() ==> #[trigger] spec_cat_docs(files)[i] == key_doc(
                sorted_keys(files)[i],
            )->Some_0,
{
    lemma_entry_order_total();
    keys_of(files).lemma_sort_by_ensures(entry_order());
    lemma_sorted_keys_elements(files);
    assert forall|i: int|
        0 <= i < sorted_keys(files).len() implies is_recognized(#[trigger] sorted_keys(files)[i])
        && key_doc(sorted_keys(files)[i]) is Some by {
        let x = sorted_keys(files)[i];
        let j = choose|j: int| #![trigger keys_of(files)[j]]
            0 <= j < keys_of(files).len() && keys_of(files)[j] == x;
        assert(is_recognized(entry_key(files[j])) && key_doc(entry_key(files[j])) is Some);
    }
    lemma_docs_of_all_ok(sorted_keys(files));
}

/// The engine's outcome is a function of which files a directory holds, not
/// of the order they were listed in: two listings with the same files sort
/// to the same sequence and bundle the same documents.
pub proof fn lemma_cat_order_independent(a: Seq<FileEntry>, b: Seq<FileEntry>)
    requires
        keys_of(a).to_multiset() == keys_of(b).to_multiset(),
    ensures
        sorted_keys(a) == sorted_keys(b),
        spec_cat_ok(a) == spec_cat_ok(b),
        spec_cat_docs(a) == spec_cat_docs(b),
{
    lemma_entry_order_total();
    keys_of(a).lemma_sort_by_ensures(entry_order());
    keys_of(b).lemma_sort_by_ensures(entry_order());
    lemma_sorted_unique(sorted_keys(a), sorted_keys(b), entry_order());
}

} // verus!
