use jcat::cat::{cat_dir, compute_outdir_paths, get_output_path, sort_entries, CatError,
    FileEntry};
use jcat::compress::{classify, read_from_ctype, write_from_ctype, CType, ContentType};
use jcat::plan::{collect_paths, plan_mappings, DirTree};
use jcat::typ::{serialize_bundle, Data};

fn entry(name: &str, contents: &[u8]) -> FileEntry {
    FileEntry { name: name.as_bytes().to_vec(), contents: contents.to_vec() }
}

fn tree(name: &str, subdirs: Vec<DirTree>) -> DirTree {
    let mut t = DirTree::new(name.as_bytes().to_vec());
    for s in subdirs {
        t = t.add_subdir(s);
    }
    t
}

#[test]
fn get_output_path_by_extensions() {
    let base_path = b"/tmp".to_vec();
    let ctypes = vec![CType::Raw, CType::Gzip, CType::Snappy];
    let answers = vec!["/tmp/out.json", "/tmp/out.json.gz", "/tmp/out.json.sz"];
    for (ct, ans) in ctypes.iter().zip(answers) {
        let out_path = get_output_path(&base_path, ct);
        assert_eq!(out_path, ans.as_bytes().to_vec());
    }
}

#[test]
fn content_type_from_path() {
    assert_eq!(ContentType::Json(CType::Raw), classify(b"/tmp/1.json"));
    assert_eq!(ContentType::Json(CType::Gzip), classify(b"/tmp/1.json.gz"));
    assert_eq!(ContentType::Json(CType::Snappy), classify(b"/tmp/1.json.sz"));
    assert_eq!(ContentType::Json(CType::Zlib), classify(b"/tmp/1.json.zz"));
    assert_eq!(ContentType::Other, classify(b"/tmp/1"));
}

#[test]
fn classify_inverts_extension() {
    for ct in [CType::Raw, CType::Gzip, CType::Snappy, CType::Zlib] {
        let mut name = b"x.".to_vec();
        name.extend_from_slice(&ct.get_extension());
        assert_eq!(ContentType::Json(ct), classify(&name));
    }
}

#[test]
fn extension_values() {
    assert_eq!(CType::Raw.get_extension(), b"json".to_vec());
    assert_eq!(CType::Gzip.get_extension(), b"json.gz".to_vec());
    assert_eq!(CType::Snappy.get_extension(), b"json.sz".to_vec());
    assert_eq!(CType::Zlib.get_extension(), b"json.zz".to_vec());
}

#[test]
fn codec_round_trip() {
    let data = b"{\"data\":[1,2,3,\"abcabcabcabc\"]}".to_vec();
    for ct in [CType::Raw, CType::Gzip, CType::Snappy, CType::Zlib] {
        let encoded = write_from_ctype(data.clone(), &ct);
        if ct != CType::Raw {
            assert_ne!(encoded, data, "compression must transform the bytes");
        }
        let decoded = read_from_ctype(&encoded, &ct).expect("round trip must decode");
        assert_eq!(decoded, data);
    }
}

#[test]
fn decode_rejects_garbage() {
    for ct in [CType::Gzip, CType::Snappy, CType::Zlib] {
        assert!(read_from_ctype(b"definitely not compressed", &ct).is_none());
    }
}

#[test]
fn sort_entries_by_name() {
    let files = vec![entry("b.json", b"2"), entry("a.json", b"1"), entry("c.json", b"3")];
    let sorted = sort_entries(files);
    let names: Vec<Vec<u8>> = sorted.iter().map(|e| e.name.clone()).collect();
    assert_eq!(names, vec![b"a.json".to_vec(), b"b.json".to_vec(), b"c.json".to_vec()]);
}

#[test]
fn serialize_empty_bundle() {
    let d = Data::default();
    assert_eq!(serialize_bundle(&d), b"{\"data\":[]}".to_vec());
}

#[test]
fn unrecognized_only_produces_nothing() {
    let files = vec![entry(".DS_Store", b"junk"), entry("notes.txt", b"hello")];
    let out_dir = b"/out".to_vec();
    let r = cat_dir(files, &out_dir, &CType::Raw);
    match r {
        Ok(None) => {},
        _ => panic!("a directory of unrecognized files must succeed with no artifact"),
    }
}

#[test]
fn empty_directory_produces_nothing() {
    let out_dir = b"/out".to_vec();
    let r = cat_dir(Vec::new(), &out_dir, &CType::Raw);
    match r {
        Ok(None) => {},
        _ => panic!("an empty directory must succeed with no artifact"),
    }
}

#[test]
fn bundle_in_sorted_order_with_canonicalization() {
    // given out of order, with whitespace to strip and a mixed-in stray file
    let files = vec![
        entry("b.json", b" { \"b\" : 2 } "),
        entry("readme.md", b"not json at all"),
        entry("a.json", b"{\"a\":1}"),
        entry("c.json", b"3"),
    ];
    let out_dir = b"/out".to_vec();
    let art = cat_dir(files, &out_dir, &CType::Raw)
        .expect("all recognized files parse")
        .expect("documents were found");
    assert_eq!(art.path, b"/out/out.json".to_vec());
    assert_eq!(art.bytes, b"{\"data\":[{\"a\":1},{\"b\":2},3]}".to_vec());
}

#[test]
fn bundle_reads_compressed_inputs() {
    let gz_doc = write_from_ctype(b"{\"x\":9}".to_vec(), &CType::Gzip);
    let sz_doc = write_from_ctype(b"[true,false]".to_vec(), &CType::Snappy);
    let files = vec![entry("b.json.sz", &sz_doc), entry("a.json.gz", &gz_doc)];
    let out_dir = b"/out".to_vec();
    let art = cat_dir(files, &out_dir, &CType::Zlib)
        .expect("all recognized files parse")
        .expect("documents were found");
    assert_eq!(art.path, b"/out/out.json.zz".to_vec());
    let plain = read_from_ctype(&art.bytes, &CType::Zlib).expect("artifact must decode");
    assert_eq!(plain, b"{\"data\":[{\"x\":9},[true,false]]}".to_vec());
}

#[test]
fn malformed_document_fails_the_directory() {
    let files = vec![
        entry("a.json", b"{\"a\":1}"),
        entry("bad.json", b"{ not json"),
        entry("c.json", b"3"),
    ];
    let out_dir = b"/out".to_vec();
    match cat_dir(files, &out_dir, &CType::Raw) {
        Err(CatError::ParseFailed { path }) => assert_eq!(path, b"bad.json".to_vec()),
        _ => panic!("a malformed document must fail the directory's job"),
    }
}

#[test]
fn corrupt_compressed_file_fails_the_directory() {
    let files = vec![entry("a.json.gz", b"this is not gzip")];
    let out_dir = b"/out".to_vec();
    match cat_dir(files, &out_dir, &CType::Raw) {
        Err(CatError::DecodeFailed { path }) => assert_eq!(path, b"a.json.gz".to_vec()),
        _ => panic!("a corrupt compressed file must fail the directory's job"),
    }
}

#[test]
fn sibling_directories_are_independent() {
    let out_dir = b"/out".to_vec();
    let bad = vec![entry("bad.json", b"{")];
    let good = vec![entry("good.json", b"true")];
    assert!(cat_dir(bad, &out_dir, &CType::Raw).is_err());
    let art = cat_dir(good, &out_dir, &CType::Raw).unwrap().unwrap();
    assert_eq!(art.bytes, b"{\"data\":[true]}".to_vec());
}

#[test]
fn identical_runs_give_identical_artifacts() {
    let make_files = || {
        vec![entry("b.json", b"{\"b\":2}"), entry("a.json.gz",
            &write_from_ctype(b"{\"a\":1}".to_vec(), &CType::Gzip))]
    };
    let out_dir = b"/out".to_vec();
    let first = cat_dir(make_files(), &out_dir, &CType::Gzip).unwrap().unwrap();
    let second = cat_dir(make_files(), &out_dir, &CType::Gzip).unwrap().unwrap();
    assert_eq!(first.path, second.path);
    assert_eq!(first.bytes, second.bytes);
}

#[test]
fn collect_paths_lists_every_directory_once() {
    let t = tree("/in", vec![tree("b", vec![]), tree("a", vec![tree("x", vec![])])]);
    let paths = collect_paths(&t);
    assert_eq!(
        paths,
        vec![b"/in".to_vec(), b"/in/a".to_vec(), b"/in/a/x".to_vec(), b"/in/b".to_vec()]
    );
}

#[test]
fn subdir_order_of_arrival_does_not_matter() {
    let t1 = tree("/in", vec![tree("b", vec![]), tree("a", vec![])]);
    let t2 = tree("/in", vec![tree("a", vec![]), tree("b", vec![])]);
    assert_eq!(collect_paths(&t1), collect_paths(&t2));
}

#[test]
fn outdir_paths_are_rerooted() {
    let base_in = b"/in".to_vec();
    let base_out = b"/out".to_vec();
    let paths = vec![b"/in".to_vec(), b"/in/a".to_vec(), b"/in/a/x".to_vec()];
    let outs = compute_outdir_paths(paths.len(), &base_in, &base_out, &paths).unwrap();
    assert_eq!(outs, vec![b"/out".to_vec(), b"/out/a".to_vec(), b"/out/a/x".to_vec()]);
}

#[test]
fn outdir_paths_reject_foreign_roots() {
    let base_in = b"/in".to_vec();
    let base_out = b"/out".to_vec();
    let paths = vec![b"/in/a".to_vec(), b"/elsewhere/b".to_vec()];
    match compute_outdir_paths(paths.len(), &base_in, &base_out, &paths) {
        Err(CatError::NotUnderRoot { path }) => assert_eq!(path, b"/elsewhere/b".to_vec()),
        _ => panic!("a path outside the root must be rejected"),
    }
}

#[test]
fn plan_single_directory_when_not_recursive() {
    let t = tree("/in", vec![tree("a", vec![])]);
    let out_dir = b"/out".to_vec();
    let mappings = plan_mappings(&t, &out_dir, false);
    assert_eq!(mappings.len(), 1);
    assert_eq!(mappings[0].input_dir, b"/in".to_vec());
    assert_eq!(mappings[0].output_dir, b"/out".to_vec());
}

#[test]
fn recursive_run_over_a_small_tree() {
    // in/{a/{1.json,2.json}, b/{3.json.gz}} written under the output root out
    let t = tree("/in", vec![tree("a", vec![]), tree("b", vec![])]);
    let out_dir = b"out".to_vec();
    let mappings = plan_mappings(&t, &out_dir, true);
    let ins: Vec<Vec<u8>> = mappings.iter().map(|m| m.input_dir.clone()).collect();
    let outs: Vec<Vec<u8>> = mappings.iter().map(|m| m.output_dir.clone()).collect();
    assert_eq!(ins, vec![b"/in".to_vec(), b"/in/a".to_vec(), b"/in/b".to_vec()]);
    assert_eq!(outs, vec![b"out".to_vec(), b"out/a".to_vec(), b"out/b".to_vec()]);

    let files_by_dir: Vec<Vec<FileEntry>> = vec![
        vec![],
        vec![entry("1.json", b"{\"n\":1}"), entry("2.json", b"{\"n\":2}")],
        vec![entry("3.json.gz", &write_from_ctype(b"{\"n\":3}".to_vec(), &CType::Gzip))],
    ];
    let mut artifacts: Vec<Option<(Vec<u8>, Vec<u8>)>> = Vec::new();
    for (files, m) in files_by_dir.into_iter().zip(mappings.iter()) {
        let r = cat_dir(files, &m.output_dir, &CType::Raw).expect("every job succeeds");
        artifacts.push(r.map(|a| (a.path, a.bytes)));
    }
    assert!(artifacts[0].is_none(), "the bare root directory must produce no artifact");
    let (pa, ba) = artifacts[1].clone().unwrap();
    assert_eq!(pa, b"out/a/out.json".to_vec());
    assert_eq!(ba, b"{\"data\":[{\"n\":1},{\"n\":2}]}".to_vec());
    let (pb, bb) = artifacts[2].clone().unwrap();
    assert_eq!(pb, b"out/b/out.json".to_vec());
    assert_eq!(bb, b"{\"data\":[{\"n\":3}]}".to_vec());
}
