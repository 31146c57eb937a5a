//! Reading the formats of checkpoints.
use checkpoint_explorer::files::{
    index_files, order_files, parse_safetensors_index, path_action, refuse_hdf5, uri_warning,
    PathAction, Seen,
};
use checkpoint_explorer::filetree::{
    build, flatten, toggle_by_index, Entry, FileKind, FileNode,
};
use checkpoint_explorer::hdf5::{
    compression_codec, percent_decode, read_metadata, read_tensors, unwrap_metadata_value,
    unwrap_payload, Attribute, Dataset, ElementType, Filter, Payload, Width,
};
use checkpoint_explorer::header::{checked_header_len, read_header, read_tensor_names};
use checkpoint_explorer::health::{check, files_to_compare, list_safetensors, parse_weight_map};
use checkpoint_explorer::load::{file_format, gguf_metadata, FileFormat, GgufKind};
use checkpoint_explorer::remote::{dump_script, map_dtype, parse_dump, RemoteRead, SENTINEL};
use checkpoint_explorer::tree::{Layout, Storage};

fn strings(v: &[&str]) -> Vec<String> {
    v.iter().map(|s| s.to_string()).collect()
}

#[test]
fn decodes_percent_escapes() {
    assert_eq!(
        percent_decode("model.layers.0.weight"),
        "model.layers.0.weight"
    );
    assert_eq!(percent_decode("a%2Fb"), "a/b");
    assert_eq!(percent_decode("x%2Fy%2Fz"), "x/y/z");
    // A stray, malformed escape is left untouched.
    assert_eq!(percent_decode("100%done"), "100%done");
}

#[test]
fn names_only_size_reducing_filters() {
    assert_eq!(
        compression_codec(&Filter::Deflate),
        Some("gzip".to_string())
    );
    // Registered third-party filters are named by id.
    assert_eq!(
        compression_codec(&Filter::User(32004)),
        Some("lz4".to_string())
    );
    assert_eq!(
        compression_codec(&Filter::User(32015)),
        Some("zstd".to_string())
    );
    // Shuffle, Fletcher32 and bitshuffle (32008) are not compressors.
    assert_eq!(compression_codec(&Filter::Shuffle), None);
    assert_eq!(compression_codec(&Filter::Fletcher32), None);
    assert_eq!(compression_codec(&Filter::User(32008)), None);
}

fn dataset(key: &str, shape: &[usize], element: ElementType, item_size: usize) -> Dataset {
    Dataset {
        key: key.to_string(),
        shape: shape.to_vec(),
        element: Some(element),
        item_size,
        filters: vec![],
        storage_size: (shape.iter().product::<usize>() * item_size) as u64,
        chunk: None,
        num_chunks: None,
    }
}

#[test]
fn reads_metadata_and_compression_from_a_cerebras_style_file() {
    // Top-level datasets keyed by the (quoted) tensor name, one of them
    // chunked and gzip-compressed.
    let datasets = vec![
        dataset(
            "model.layers.0.weight",
            &[2, 3],
            ElementType::Float(Width::Four),
            4,
        ),
        dataset("model.embed", &[4], ElementType::Integer(Width::Eight), 8),
        // A name containing '/', stored URL-quoted as Cerebras does.
        dataset("a%2Fb", &[5], ElementType::Float(Width::Four), 4),
        Dataset {
            filters: vec![Filter::Deflate],
            storage_size: 480,
            chunk: Some(vec![16, 16]),
            num_chunks: Some(16),
            ..dataset(
                "model.compressed",
                &[64, 64],
                ElementType::Float(Width::Four),
                4,
            )
        },
    ];
    let tensors = read_tensors(&datasets, "/tmp/fixture.h5");
    let by_name = |n: &str| tensors.iter().find(|t| t.name == n).unwrap();

    let weight = by_name("model.layers.0.weight");
    assert_eq!(weight.dtype, "F32");
    assert_eq!(weight.shape, vec![2, 3]);
    assert_eq!(weight.size_bytes, 6 * 4);
    assert!(matches!(weight.storage, Storage::Raw));

    let embed = by_name("model.embed");
    assert_eq!(embed.dtype, "I64");
    assert_eq!(embed.size_bytes, 4 * 8);

    // The quoted '/' name round-trips back to a slash.
    assert!(tensors.iter().any(|t| t.name == "a/b"));

    // The compressed dataset reports gzip and a smaller on-disk size.
    let comp = by_name("model.compressed");
    assert_eq!(comp.size_bytes, 64 * 64 * 4);
    match &comp.storage {
        Storage::Compressed {
            codec,
            stored_bytes,
        } => {
            assert_eq!(codec, "gzip");
            assert!(*stored_bytes < comp.size_bytes);
        }
        other => panic!("expected compressed storage, got {other:?}"),
    }
    // The compressed dataset is chunked, so its layout is reported.
    assert!(matches!(comp.layout, Layout::Chunked { .. }));
}

#[test]
fn unwraps_string_serializer_metadata() {
    // `inference_version`: a plain string payload under `string_value`.
    let raw = r#"{"__spec__":[{"inference_version":"*"}],"__objects__":["inference_version"],
            "inference_version.__metadata__":{"string_value":"1.5","__TYPE__":"StringSerializer"}}"#;
    let (val, ty) = unwrap_metadata_value("inference_version.__metadata__", raw).unwrap();
    assert_eq!(val, "1.5");
    assert_eq!(ty, "string");
}

#[test]
fn unwraps_json_string_value_pretty() {
    // `codebook_packing_schema`: `string_value` is itself JSON → pretty-print.
    let raw = r#"{"__objects__":["codebook_packing_schema"],
            "codebook_packing_schema.__metadata__":{"string_value":"{\"down_proj\": {\"quant_mode\": \"3bit\"}}","__TYPE__":"StringSerializer"}}"#;
    let (val, ty) = unwrap_metadata_value("codebook_packing_schema.__metadata__", raw).unwrap();
    assert_eq!(ty, "string");
    assert!(val.contains("\"down_proj\""));
    assert!(val.contains("\"quant_mode\": \"3bit\""));
    assert!(val.contains('\n'), "should be pretty-printed: {val}");
}

#[test]
fn unwraps_non_string_payload_as_pretty_json() {
    // A torch-tensor payload has no `string_value`; show the dict itself.
    let raw = r#"{"lm_head.weight.__metadata__":{"__TORCH__":true,"dtypes":["torch.float16"]}}"#;
    let (val, ty) = unwrap_metadata_value("lm_head.weight.__metadata__", raw).unwrap();
    assert_eq!(ty, "json");
    assert!(val.contains("__TORCH__"));
    assert!(val.contains("torch.float16"));
}

#[test]
fn leaves_non_metadata_and_malformed_attrs_to_the_caller() {
    // Non-`__metadata__` names are shown verbatim by the caller.
    assert!(unwrap_metadata_value("__spec__", "[1,2,3]").is_none());
    assert!(unwrap_metadata_value("__version__", "0.5").is_none());
    // Unparseable JSON or a missing payload key falls back to the raw value.
    assert!(unwrap_metadata_value("x.__metadata__", "not json").is_none());
    assert!(unwrap_metadata_value("x.__metadata__", r#"{"other":1}"#).is_none());
}

#[test]
fn reads_root_attributes_as_metadata() {
    let attribute = |name: &str, value: &str, value_type: &str| Attribute {
        name: name.to_string(),
        value: value.to_string(),
        value_type: value_type.to_string(),
    };
    let json = r#"{"__objects__":["inference_version"],"inference_version.__metadata__":{"string_value":"1.5","__TYPE__":"StringSerializer"}}"#;
    let meta = read_metadata(&vec![
        attribute("inference_version.__metadata__", json, "string"),
        attribute("__SUCCESS__", "true", "bool"),
        attribute("__version__", "0.5", "float"),
    ]);
    let find = |n: &str| meta.iter().find(|m| m.name == n).unwrap();
    let iv = find("inference_version.__metadata__");
    assert_eq!(iv.value, "1.5");
    assert_eq!(iv.value_type, "string");
    assert_eq!(find("__SUCCESS__").value, "true");
    assert_eq!(find("__SUCCESS__").value_type, "bool");
    assert_eq!(find("__version__").value_type, "float");
}

#[test]
fn kind_classifies_by_extension_and_known_names() {
    assert_eq!(
        FileKind::of("model-00001-of-2.safetensors"),
        FileKind::Checkpoint
    );
    assert_eq!(FileKind::of("weights.gguf"), FileKind::Checkpoint);
    assert_eq!(FileKind::of("config.json"), FileKind::Json);
    assert_eq!(FileKind::of("tokenizer_config.json"), FileKind::Json);
    assert_eq!(FileKind::of("README"), FileKind::Text);
    assert_eq!(FileKind::of("LICENSE"), FileKind::Text);
    assert_eq!(FileKind::of("notes.md"), FileKind::Text);
    assert_eq!(FileKind::of("tool_parser.py"), FileKind::Text);
    assert_eq!(FileKind::of("mystery.bin"), FileKind::Other);
}

fn leaf(name: &str, size: u64) -> Entry {
    Entry::Leaf {
        name: name.to_string(),
        path: format!("/d/{name}"),
        size,
    }
}

fn folder(name: &str, entries: Vec<Entry>) -> Entry {
    Entry::Folder {
        name: name.to_string(),
        path: format!("/d/{name}"),
        entries,
    }
}

#[test]
fn flatten_hides_collapsed_subtrees_and_toggle_reveals_them() {
    let entries = vec![folder("sub", vec![leaf("a.json", 2)]), leaf("top.json", 2)];
    let mut root = build("d", "/d", &entries, 8);
    // A directory's row has the kind of a checkpoint.
    assert_eq!(flatten(&root)[0].kind, FileKind::Checkpoint);
    // `sub` starts collapsed, so its child is hidden; root + sub + top.json.
    let rows = flatten(&root);
    let names: Vec<&str> = rows.iter().map(|r| r.name.as_str()).collect();
    assert!(names.contains(&"sub") && names.contains(&"top.json"));
    assert!(
        !names.contains(&"a.json"),
        "collapsed subtree hidden: {names:?}"
    );

    // Toggle `sub` (index 1: root is 0) → its child appears.
    assert!(toggle_by_index(&mut root, 1));
    assert!(
        flatten(&root).iter().any(|r| r.name == "a.json"),
        "expanded subtree shows its child"
    );
    // Turning it back hides the child again; a file does not turn.
    assert!(toggle_by_index(&mut root, 1));
    assert_eq!(flatten(&root).len(), 3);
    assert!(!toggle_by_index(&mut root, 2));
}

#[test]
fn build_sorts_dirs_first_and_sums_sizes() {
    let entries = vec![
        leaf("model.safetensors", 100),
        leaf("config.json", 2),
        folder("sub", vec![leaf("extra.json", 8)]),
        leaf(".hidden", 1), // skipped
    ];
    let root = build("d", "/d", &entries, 8);
    let FileNode::Dir {
        children,
        size,
        files,
        ..
    } = &root
    else {
        panic!("root is a dir");
    };
    // Directory ("sub") sorts before the files.
    assert!(matches!(&children[0], FileNode::Dir { name, .. } if name == "sub"));
    // Files after, natural-sorted, dotfile skipped.
    let names: Vec<&str> = children.iter().map(FileNode::name).collect();
    assert_eq!(names, ["sub", "config.json", "model.safetensors"]);
    // Aggregate size = 2 + 100 + 8 (sub) = 110; 3 files counted.
    assert_eq!(*size, 110);
    assert_eq!(*files, 3);
}

#[test]
fn detects_file_and_tensor_mismatches() {
    // Index references model-00001 (present) and model-00002 (missing).
    let index = r#"{"weight_map": {
        "a.weight": "model-00001.safetensors",
        "b.weight": "model-00002.safetensors"
    }}"#;
    let map = parse_weight_map(index, "/d/model.safetensors.index.json").unwrap();
    // Present: model-00001 (the claimed a.weight plus an unlisted extra),
    // and model-00003 which the index never references.
    let actual = list_safetensors(&strings(&[
        "model.safetensors.index.json",
        "model-00001.safetensors",
        "model-00003.safetensors",
    ]));
    assert_eq!(
        files_to_compare(&map, &actual),
        ["model-00001.safetensors"]
    );
    let report = check(
        "/d/model.safetensors.index.json",
        &map,
        &actual,
        &vec![Some(strings(&["a.weight", "extra.weight"]))],
    );
    assert!(report.has_issues());
    assert_eq!(report.missing_files, vec!["model-00002.safetensors"]);
    assert_eq!(report.extra_files, vec!["model-00003.safetensors"]);
    // `extra.weight` lives in a referenced+present file but the index does
    // not list it there.
    assert!(report
        .extra_tensors
        .iter()
        .any(|t| t.starts_with("extra.weight")));
    // `a.weight` matches; `b.weight`'s file is missing (covered by the file
    // diff), so there are no tensor-level "missing" entries.
    assert!(report.missing_tensors.is_empty());
}

/// A directory whose index lists only some of the `.safetensors` on disk (a
/// partially-stale index) must still surface the extra files.
#[test]
fn collects_extra_files_absent_from_a_stale_index() {
    // Three shards on disk; the index references only the first.
    let listed = parse_safetensors_index(
        r#"{"weight_map": {"w": "model.safetensors"}}"#,
        "/d/model.safetensors.index.json",
    )
    .unwrap();
    let index = index_files("/d", "model.safetensors.index.json", &listed, &vec![true]);
    assert!(index.warnings.is_empty());
    let mut all = index.found;
    all.extend(strings(&[
        "/d/codebooks.safetensors",
        "/d/model.safetensors",
        "/d/qscales.safetensors",
    ]));
    let files = order_files(&all);
    for want in [
        "/d/model.safetensors",
        "/d/codebooks.safetensors",
        "/d/qscales.safetensors",
    ] {
        assert!(
            files.iter().any(|n| n == want),
            "{want} should be collected; got {files:?}"
        );
    }
    // The shard listed in the index *and* found by the scan must appear once.
    let unique: std::collections::HashSet<_> = files.iter().collect();
    assert_eq!(files.len(), unique.len(), "duplicate paths: {files:?}");
}

#[test]
fn absolute_names_in_an_index_stand_for_themselves() {
    let files = strings(&["/elsewhere/a.safetensors", "b.safetensors"]);
    let r = index_files("/d", "i.json", &files, &vec![true, true]);
    assert_eq!(r.found, ["/elsewhere/a.safetensors", "/d/b.safetensors"]);
}

#[test]
fn escapes_may_stand_anywhere_in_either_case() {
    assert_eq!(percent_decode("%61%2f%62%2F%63"), "a/b/c");
    assert_eq!(percent_decode("a%2fb/a%2Fb"), "a/b/a/b");
    assert_eq!(percent_decode("%c3%A9%E2%80%a6"), "é…");
    // A `%` that no two digits follow is kept.
    assert_eq!(percent_decode("5%%2f%2"), "5%/%2");
}

#[test]
fn indexes_report_what_is_not_there() {
    let r = index_files("/d", "i.json", &strings(&["a", "b"]), &vec![false, true]);
    assert_eq!(r.found, ["/d/b"]);
    assert_eq!(r.warnings.len(), 1);
    assert!(parse_safetensors_index("{", "/d/i.json").is_err());
}

#[test]
fn paths_are_taken_scanned_or_warned_about() {
    assert!(matches!(
        path_action("/d/a.safetensors", Seen::File),
        PathAction::Take
    ));
    assert!(matches!(
        path_action("/d", Seen::Directory),
        PathAction::Scan
    ));
    assert!(matches!(
        path_action("/d/none", Seen::Missing),
        PathAction::Warn(_)
    ));
    assert_eq!(
        uri_warning("s3://b/k").unwrap(),
        "Warning: s3://b/k: reading an s3:// checkpoint needs --ssh-read <[user@]host>"
    );
    assert!(uri_warning("/d").is_none());
}

#[test]
fn safetensors_headers_are_read() {
    let header = br#"{"__metadata__":{"format":"pt"},"w":{"dtype":"F32","shape":[4,5],"data_offsets":[0,80]}}"#;
    let len = (header.len() as u64).to_le_bytes();
    assert_eq!(
        checked_header_len(&len, "/d/w.safetensors").unwrap(),
        header.len() as u64
    );
    assert!(checked_header_len(&[255; 8], "/d/w.safetensors").is_err());
    let (tensors, metadata) = read_header(header, "/d/w.safetensors", "w.safetensors").unwrap();
    assert_eq!(tensors.len(), 1);
    assert_eq!(tensors[0].name, "w");
    assert_eq!(tensors[0].shape, vec![4, 5]);
    assert_eq!(tensors[0].size_bytes, 80);
    assert_eq!(tensors[0].num_elements, 20);
    assert!(matches!(
        tensors[0].layout,
        Layout::ByteRange { start: 0, end: 80 }
    ));
    assert_eq!(metadata.len(), 1);
    assert!(read_header(b"{", "/d/w.safetensors", "w.safetensors").is_err());
    assert_eq!(read_tensor_names(header).unwrap(), ["w"]);
    assert!(read_tensor_names(b"[").is_none());
}

#[test]
fn formats_go_by_the_extension() {
    assert_eq!(file_format("/d/a.safetensors"), FileFormat::Safetensors);
    assert_eq!(file_format("/d/a.gguf"), FileFormat::Gguf);
    assert_eq!(file_format("/d/a.npz"), FileFormat::Npz);
    assert_eq!(file_format("/d/a.h5"), FileFormat::Hdf5);
    assert_eq!(file_format("/d/a.bin"), FileFormat::Unsupported);
    assert_eq!(gguf_metadata("k", "7", GgufKind::U32).value_type, "u32");
}

#[test]
fn script_embeds_uri_safely() {
    let s = dump_script("s3://b/k");
    assert!(s.contains("URI = \"s3://b/k\""));
    assert!(s.contains("import cerebras.pytorch"));
    assert!(s.contains(SENTINEL));
}

#[test]
fn scripts_quote_what_a_uri_holds() {
    assert!(dump_script("a\"b\\c").contains("URI = \"a\\\"b\\\\c\""));
}

#[test]
fn parses_dump_into_tensors() {
    let json = r#"{"tensors":[
            {"name":"a.weight","dtype":"torch.float16","shape":[6,4],"itemsize":2},
            {"name":"b","dtype":"torch.int32","shape":[5],"itemsize":4}
        ],"metadata":[]}"#;
    let t = parse_dump(json, "s3://bucket/ckpt").unwrap();
    assert_eq!(t.len(), 2);
    assert_eq!(t[0].dtype, "F16");
    assert_eq!(t[0].shape, vec![6, 4]);
    assert_eq!(t[0].num_elements, 24);
    assert_eq!(t[0].size_bytes, 48);
    assert_eq!(t[0].source_path, "s3://bucket/ckpt");
    assert_eq!(t[1].dtype, "I32");
}

#[test]
fn surfaces_remote_error() {
    let err = parse_dump(r#"{"error":"cstorch.load failed: boom"}"#, "s3://x/y");
    assert!(err.unwrap_err().to_string().contains("boom"));
}

#[test]
fn maps_common_dtypes() {
    assert_eq!(map_dtype("torch.bfloat16"), "BF16");
    assert_eq!(map_dtype("torch.uint8"), "U8");
    assert_eq!(map_dtype("torch.weirdtype"), "WEIRDTYPE");
}

#[test]
fn remote_output_is_read_behind_the_sentinel() {
    let remote = RemoteRead::new("lab".to_string(), "/venv".to_string());
    let output = format!(
        "noise\n{SENTINEL}{{\"tensors\":[{{\"name\":\"w\",\"dtype\":\"torch.float32\",\"shape\":[2],\"itemsize\":4}}]}}\n"
    );
    let t = remote.read_output(output.as_bytes(), "s3://b/k").unwrap();
    assert_eq!(t[0].name, "w");
    assert!(remote.read_output(b"noise\xff", "s3://b/k").is_err());
}

#[test]
fn payloads_are_shown_over_several_lines() {
    let text = Payload::Text("x".to_string());
    assert_eq!(
        unwrap_payload(text, None, "raw"),
        Some(("x".to_string(), "string".to_string()))
    );
    assert_eq!(
        unwrap_payload(Payload::Other, Some("{\n}".to_string()), "raw"),
        Some(("{\n}".to_string(), "json".to_string()))
    );
    assert_eq!(
        unwrap_payload(Payload::Other, None, "raw"),
        Some(("raw".to_string(), "json".to_string()))
    );
    assert_eq!(unwrap_payload(Payload::Nothing, None, "raw"), None);
    let (value, kind) = unwrap_metadata_value(
        "n.__metadata__",
        r#"{"n.__metadata__": "plain"}"#,
    )
    .unwrap();
    assert_eq!((value.as_str(), kind.as_str()), ("\"plain\"", "json"));
}

#[test]
fn builds_without_hdf5_refuse_its_files() {
    let files = |v: &[&str]| v.iter().map(|f| f.to_string()).collect::<Vec<String>>();
    assert_eq!(refuse_hdf5(&files(&["a.safetensors", "b.gguf"])), None);
    assert_eq!(
        refuse_hdf5(&files(&["a.h5", "b.safetensors", "c/d.hdf5"])).unwrap(),
        vec![
            "Error: this build of checkpoint-explorer was compiled without HDF5 support, so it cannot read:",
            "  a.h5",
            "  c/d.hdf5",
            "",
            "Rebuild and reinstall with the `hdf5` feature, e.g.:",
            "  cargo install --path . --features hdf5",
        ]
    );
}
