//! Reading containers.
use lightgpu::mmap;
use lightgpu::safetensors::{parse_tensor, DType, File};

/// A container of a header and payloads.
fn container(header: &str, payload: &[u8]) -> Vec<u8> {
    let mut bytes = (header.len() as u64).to_le_bytes().to_vec();
    bytes.extend_from_slice(header.as_bytes());
    bytes.extend_from_slice(payload);
    bytes
}

fn refusal(header: &str, payload: &[u8]) -> String {
    File::open(&container(header, payload), "p").err().unwrap()
}

#[test]
fn maps_and_reads_the_same_bytes() {
    let mapped = mmap::File::open(b"hello mapping", "bytes").unwrap();
    let heap = mmap::File::read(b"hello mapping", "bytes");
    assert_eq!(mapped.as_slice(), b"hello mapping");
    assert_eq!(heap.as_slice(), mapped.as_slice());
    assert_eq!(mapped.len(), 13);
    assert!(!mapped.is_empty());
}

#[test]
fn refuses_an_empty_file() {
    assert!(mmap::File::open(b"", "empty").is_err());
    assert_eq!(mmap::File::open(b"", "empty").unwrap_err(), "empty: file is empty");
    assert!(mmap::File::read(b"", "empty").is_empty());
}

#[test]
fn reports_the_source_path() {
    let f = mmap::File::open(b"x", "path").unwrap();
    assert_eq!(f.path(), "path");
}

#[test]
fn reads_tensors_and_metadata() {
    let header = r#"{"__metadata__":{"scale":"4"},"a":{"dtype":"F32","shape":[2,2],"data_offsets":[0,16]},"b":{"dtype":"F32","shape":[3],"data_offsets":[16,28]}}   "#;
    assert_eq!((8 + header.len()) % 4, 0, "test header must be 4-byte aligned");
    let payload: Vec<u8> = (0..28u8).collect();
    let bytes = container(header, &payload);
    let st = File::open(&bytes, "ok").unwrap();

    assert_eq!(st.metadata_get("scale"), Some("4"));
    assert_eq!(st.metadata_usize("scale").unwrap(), 4);
    assert_eq!(st.order(), &["a".to_string(), "b".to_string()]);
    assert_eq!(st.info("a").unwrap().shape, vec![2, 2]);
    assert_eq!(st.info("a").unwrap().numel(), 4);
    // Absolute, not relative to the data section.
    assert_eq!(st.info("a").unwrap().offset, st.data_start());
    assert_eq!(st.len(), 8 + header.len() + 28);
    assert_eq!(st.data(), &payload[..]);
    assert_eq!(st.raw("b").unwrap(), &payload[16..28]);
    assert_eq!(st.f32_bytes("a").unwrap().len() / 4, 4);
    assert!(st.contains("a") && !st.contains("z"));
    assert!(st.info("z").is_err());
    assert_eq!(st.payload_bytes(), 28);
    assert_eq!(st.checked_payload_bytes(), Some(28));
    assert_eq!(st.payload_bytes(), st.data().len());
    assert_eq!(st.shape("b").unwrap(), &vec![3]);
    assert_eq!(st.as_slice(), &bytes[..]);
    assert_eq!(st.path(), "ok");
    assert!(!st.is_empty());
    assert_eq!(st.metadata(), &vec![("scale".to_string(), "4".to_string())]);
}

#[test]
fn reads_through_the_heap_variant_too() {
    let header = r#"{"a":{"dtype":"F32","shape":[1],"data_offsets":[0,4]}}      "#;
    assert_eq!((8 + header.len()) % 4, 0, "test header must be 4-byte aligned");
    let bytes = container(header, &[1, 2, 3, 4]);
    let st = File::read(&bytes, "heap").unwrap();
    assert_eq!(st.to_f32_bits("a").unwrap()[0], f32::from_le_bytes([1, 2, 3, 4]).to_bits());
}

#[test]
fn rejects_malformed_headers() {
    let cases: &[(&str, &str)] = &[
        ("no-dtype", r#"{"a":{"shape":[1],"data_offsets":[0,4]}}"#),
        ("bad-dtype", r#"{"a":{"dtype":"Q4","shape":[1],"data_offsets":[0,4]}}"#),
        ("no-shape", r#"{"a":{"dtype":"F32","data_offsets":[0,4]}}"#),
        ("fractional-shape", r#"{"a":{"dtype":"F32","shape":[1.5],"data_offsets":[0,4]}}"#),
        ("negative-shape", r#"{"a":{"dtype":"F32","shape":[-1],"data_offsets":[0,4]}}"#),
        ("one-offset", r#"{"a":{"dtype":"F32","shape":[1],"data_offsets":[0]}}"#),
        ("reversed-offsets", r#"{"a":{"dtype":"F32","shape":[1],"data_offsets":[4,0]}}"#),
        ("size-mismatch", r#"{"a":{"dtype":"F32","shape":[2],"data_offsets":[0,4]}}"#),
    ];
    for (name, header) in cases {
        let bytes = container(header, &[0u8; 4]);
        let err = File::open(&bytes, &format!("bad-{name}")).err().expect(name);
        assert!(!err.is_empty(), "{name}: expected an error");
    }
}

#[test]
fn rejects_a_payload_past_the_end_of_the_file() {
    let header = r#"{"a":{"dtype":"F32","shape":[4],"data_offsets":[0,16]}}"#;
    let err = File::open(&container(header, &[0u8; 8]), "short").err().unwrap();
    assert!(err.contains("outside"), "{err}");
}

#[test]
fn rejects_a_misaligned_f32_payload() {
    let header = r#"{"a":{"dtype":"F32","shape":[1],"data_offsets":[0,4]}}"#;
    assert_ne!((8 + header.len()) % 4, 0, "test header must be misaligned");
    let bytes = container(header, &[0u8; 4]);
    let st = File::open(&bytes, "misaligned").unwrap();
    let err = st.f32_bytes("a").unwrap_err();
    assert!(err.contains("aligned"), "{err}");
    assert_eq!(
        err,
        "tensor `a` starts at byte 62 in the file, which is not 4-byte aligned"
    );
    assert!(st.to_f32_bits("a").is_err());
}

#[test]
fn rejects_a_header_that_is_not_an_object() {
    assert!(File::open(&container("[1,2,3]", &[0u8; 4]), "arr").is_err());
    assert_eq!(refusal("[1,2,3]", &[]), "safetensors header is not a JSON object");
}

#[test]
fn rejects_a_truncated_file() {
    assert!(File::open(&[0u8; 4], "short-file").is_err());
    assert_eq!(
        File::open(&[0u8; 4], "short-file").err().unwrap(),
        "short-file: too small to be safetensors"
    );
    assert_eq!(File::open(&[], "none").err().unwrap(), "none: file is empty");
    assert_eq!(File::read(&[], "none").err().unwrap(), "none: too small to be safetensors");
}

#[test]
fn rejects_header_lengths_beyond_the_file() {
    let mut bytes = 100u64.to_le_bytes().to_vec();
    bytes.extend_from_slice(b"{}");
    assert_eq!(
        File::open(&bytes, "f").err().unwrap(),
        "f: header length 100 exceeds file size 10"
    );
    assert_eq!(
        File::open(&u64::MAX.to_le_bytes(), "f").err().unwrap(),
        "safetensors header length overflows"
    );
}

#[test]
fn says_what_is_wrong_with_a_tensor() {
    let say = |entry: &str| refusal(&format!("{{\"a\":{entry}}}"), &[0u8; 4]);
    assert_eq!(say("1"), "tensor `a` has no dtype");
    assert_eq!(say(r#"{"dtype":4}"#), "tensor `a` has no dtype");
    assert_eq!(say(r#"{"dtype":"Q4"}"#), "tensor `a`: unknown safetensors dtype `Q4`");
    assert_eq!(say(r#"{"dtype":"F32"}"#), "tensor `a` has no shape");
    assert_eq!(
        say(r#"{"dtype":"F32","shape":[1,"x"]}"#),
        "tensor `a`: shape entries must be non-negative integers"
    );
    assert_eq!(say(r#"{"dtype":"F32","shape":[1]}"#), "tensor `a` has no data_offsets");
    assert_eq!(
        say(r#"{"dtype":"F32","shape":[1],"data_offsets":[0,4,8]}"#),
        "tensor `a`: data_offsets has 3 entries, expected 2"
    );
    assert_eq!(
        say(r#"{"dtype":"F32","shape":[1],"data_offsets":[-1,4]}"#),
        "tensor `a`: data_offsets[0] is not a non-negative integer"
    );
    assert_eq!(
        say(r#"{"dtype":"F32","shape":[1],"data_offsets":[0,0.5]}"#),
        "tensor `a`: data_offsets[1] is not a non-negative integer"
    );
    assert_eq!(
        say(r#"{"dtype":"F32","shape":[1],"data_offsets":[4,0]}"#),
        "tensor `a`: data_offsets [4, 0] are reversed"
    );
    assert_eq!(
        say(r#"{"dtype":"F32","shape":[4294967296,4294967296],"data_offsets":[0,4]}"#),
        "tensor `a`: shape overflows"
    );
    assert_eq!(
        say(r#"{"dtype":"F64","shape":[4611686018427387904],"data_offsets":[0,4]}"#),
        "tensor `a`: shape overflows"
    );
    assert_eq!(
        say(r#"{"dtype":"F32","shape":[2,3],"data_offsets":[0,4]}"#),
        "tensor `a`: data_offsets span 4 bytes but shape [2, 3] of F32 needs 24"
    );
    assert_eq!(
        say(r#"{"dtype":"U8","shape":[0],"data_offsets":[1e30,1e30]}"#),
        "tensor `a`: data_offsets[0] is not a non-negative integer"
    );
    let far = r#"{"dtype":"U8","shape":[0],"data_offsets":[18446744073709549568,18446744073709549568]}"#;
    let len = 8 + far.len() + 6;
    let at = 18446744073709549568usize + len;
    assert_eq!(
        say(far),
        format!("tensor `a`: payload at {at}..{at} is outside the {}-byte file", len + 4)
    );
    assert_eq!(
        say(&format!("{}{far}", " ".repeat(2048))),
        "tensor `a`: offset overflows"
    );
    // Not an integer of this machine, though nothing would be stored for it.
    let large = format!("1{}", "0".repeat(308));
    assert_eq!(
        say(&format!(r#"{{"dtype":"F32","shape":[{large},0],"data_offsets":[0,0]}}"#)),
        "tensor `a`: shape entries must be non-negative integers"
    );
    let header = r#"{"a":{"dtype":"U8","shape":[5],"data_offsets":[0,5]}}"#;
    let start = 8 + header.len();
    assert_eq!(
        refusal(header, &[0u8; 4]),
        format!(
            "tensor `a`: payload at {start}..{} is outside the {}-byte file",
            start + 5,
            start + 4
        )
    );
}

#[test]
fn rejects_a_header_without_tensors() {
    assert_eq!(refusal("{}", &[]), "p: header declares no tensors");
    assert_eq!(refusal(r#"{"__metadata__":{"a":"b"}}"#, &[]), "p: header declares no tensors");
    assert_eq!(refusal("{", &[]), "p: safetensors header: unexpected end of JSON");
}

#[test]
fn lists_tensors_in_the_order_of_the_header() {
    let header = r#"{"z":{"dtype":"U8","shape":[1],"data_offsets":[0,1]},"a":{"dtype":"U8","shape":[1],"data_offsets":[1,2]},"m":{"dtype":"U8","shape":[],"data_offsets":[2,3]}}"#;
    let bytes = container(header, &[7, 8, 9]);
    let st = File::open(&bytes, "o").unwrap();
    assert_eq!(st.order(), &["z".to_string(), "a".to_string(), "m".to_string()]);
    assert_eq!(st.raw("m").unwrap(), &[9]);
    assert_eq!(st.info("m").unwrap().numel(), 1);
    for name in st.order() {
        assert_eq!(&st.info(name).unwrap().name, name);
    }
}

#[test]
fn payloads_do_not_change_the_index() {
    let header = r#"{"a":{"dtype":"U8","shape":[2],"data_offsets":[0,2]}}"#;
    let one = container(header, &[1, 2]);
    let two = container(header, &[3, 4]);
    let (a, b) = (File::open(&one, "p").unwrap(), File::open(&two, "p").unwrap());
    assert_eq!(a.info("a").unwrap(), b.info("a").unwrap());
    assert_eq!(a.data_start(), b.data_start());
    assert_ne!(a.raw("a").unwrap(), b.raw("a").unwrap());
}

#[test]
fn metadata_holds_strings_only() {
    let header = r#"{"__metadata__":{"n":1,"s":"x","big":"99999999999999999999","plus":"+12","bad":"1x","none":"","sign":"+"},"a":{"dtype":"U8","shape":[0],"data_offsets":[0,0]}}"#;
    let bytes = container(header, &[]);
    let st = File::open(&bytes, "p").unwrap();
    assert_eq!(st.metadata_get("n"), None);
    assert_eq!(st.metadata_get("s"), Some("x"));
    assert_eq!(st.metadata_usize("plus").unwrap(), 12);
    assert_eq!(
        st.metadata_usize("n").unwrap_err(),
        "safetensors metadata has no `n`"
    );
    assert_eq!(
        st.metadata_usize("big").unwrap_err(),
        "safetensors metadata `big` = \"99999999999999999999\": number too large to fit in target type"
    );
    assert_eq!(
        st.metadata_usize("bad").unwrap_err(),
        "safetensors metadata `bad` = \"1x\": invalid digit found in string"
    );
    assert_eq!(
        st.metadata_usize("none").unwrap_err(),
        "safetensors metadata `none` = \"\": cannot parse integer from empty string"
    );
    assert_eq!(
        st.metadata_usize("sign").unwrap_err(),
        "safetensors metadata `sign` = \"+\": invalid digit found in string"
    );
}

#[test]
fn quotes_metadata_as_the_standard_library_does() {
    let header = r#"{"__metadata__":{"q":"a\"b\n"},"a":{"dtype":"U8","shape":[0],"data_offsets":[0,0]}}"#;
    let bytes = container(header, &[]);
    let st = File::open(&bytes, "p").unwrap();
    assert_eq!(
        st.metadata_usize("q").unwrap_err(),
        format!("safetensors metadata `q` = {:?}: invalid digit found in string", "a\"b\n")
    );
}

#[test]
fn ignores_metadata_that_is_no_object() {
    let header = r#"{"__metadata__":7,"a":{"dtype":"U8","shape":[0],"data_offsets":[0,0]}}"#;
    let bytes = container(header, &[]);
    let st = File::open(&bytes, "p").unwrap();
    assert!(st.metadata().is_empty());
    assert_eq!(st.payload_bytes(), 0);
}

#[test]
fn knows_the_element_types() {
    let types = [
        ("BOOL", DType::Bool, 1),
        ("U8", DType::U8, 1),
        ("I8", DType::I8, 1),
        ("U16", DType::U16, 2),
        ("I16", DType::I16, 2),
        ("U32", DType::U32, 4),
        ("I32", DType::I32, 4),
        ("U64", DType::U64, 8),
        ("I64", DType::I64, 8),
        ("F16", DType::F16, 2),
        ("BF16", DType::BF16, 2),
        ("F32", DType::F32, 4),
        ("F64", DType::F64, 8),
    ];
    for (name, dtype, size) in types {
        assert_eq!(DType::parse(name).unwrap(), dtype);
        assert_eq!(dtype.size(), size);
        assert_eq!(dtype.name(), format!("{dtype:?}"));
    }
    assert_eq!(DType::parse("Q4").unwrap_err(), "unknown safetensors dtype `Q4`");
}

#[test]
fn refuses_other_types_as_f32() {
    let header = r#"{"a":{"dtype":"I32","shape":[1],"data_offsets":[0,4]}}"#;
    let bytes = container(header, &[0u8; 4]);
    let st = File::open(&bytes, "p").unwrap();
    assert_eq!(st.f32_bytes("a").unwrap_err(), "tensor `a` is I32, not F32");
    assert_eq!(st.f32_bytes("z").unwrap_err(), "no tensor `z` in the checkpoint");
    assert_eq!(st.raw("z").unwrap_err(), "no tensor `z` in the checkpoint");
    assert_eq!(st.shape("z").unwrap_err(), "no tensor `z` in the checkpoint");
}

#[test]
fn copies_f32_elements_in_order() {
    let header = r#"{"a":{"dtype":"F32","shape":[2],"data_offsets":[0,8]}}      "#;
    assert_eq!((8 + header.len()) % 4, 0);
    let mut payload = 1.5f32.to_le_bytes().to_vec();
    payload.extend_from_slice(&(-2.0f32).to_le_bytes());
    let bytes = container(header, &payload);
    let st = File::open(&bytes, "p").unwrap();
    assert_eq!(st.to_f32_bits("a").unwrap(), vec![1.5f32.to_bits(), (-2.0f32).to_bits()]);
}

#[test]
fn reads_one_entry() {
    let entry =
        lightgpu::json::parse(br#"{"dtype":"U16","shape":[3,2],"data_offsets":[4,16]}"#).unwrap();
    let t = parse_tensor("t", &entry, 100, 116).unwrap();
    assert_eq!((t.name.as_str(), t.dtype, t.offset, t.nbytes), ("t", DType::U16, 104, 12));
    assert_eq!(t.shape, vec![3, 2]);
    assert_eq!(t.clone(), t);
    assert!(parse_tensor("t", &entry, 100, 115).is_err());
}

#[test]
fn overlapping_payloads_add_up() {
    let header = r#"{"a":{"dtype":"U8","shape":[3],"data_offsets":[0,3]},"b":{"dtype":"U8","shape":[3],"data_offsets":[0,3]}}"#;
    let bytes = container(header, &[1, 2, 3]);
    let st = File::open(&bytes, "p").unwrap();
    assert_eq!(st.payload_bytes(), 6);
    assert_eq!(st.data().len(), 3);
}

#[test]
fn payloads_fill_the_section_in_any_order() {
    let header = r#"{"a":{"dtype":"U8","shape":[1],"data_offsets":[4,5]},"b":{"dtype":"F32","shape":[1],"data_offsets":[0,4]},"c":{"dtype":"U8","shape":[0],"data_offsets":[5,5]},"d":{"dtype":"U16","shape":[1],"data_offsets":[5,7]}}"#;
    let bytes = container(header, &[1, 2, 3, 4, 5, 6, 7]);
    let st = File::open(&bytes, "o").unwrap();
    assert_eq!(st.payload_bytes(), 7);
    assert_eq!(st.payload_bytes(), st.data().len());
    let listed: usize = st.order().iter().map(|n| st.raw(n).unwrap().len()).sum();
    assert_eq!(st.payload_bytes(), listed);
}

#[test]
fn the_first_faulty_tensor_by_name_is_named() {
    let header = r#"{"z":1,"__metadata__":{},"b":{"dtype":"Q4"},"c":{"dtype":"U8","shape":[1],"data_offsets":[0,1]},"a":{"dtype":"F32"}}"#;
    assert_eq!(refusal(header, &[0]), "tensor `a` has no shape");
    let header = r#"{"z":1,"b":{"dtype":"Q4"}}"#;
    assert_eq!(refusal(header, &[]), "tensor `b`: unknown safetensors dtype `Q4`");
    let header = r#"{"a":{"dtype":"U8","shape":[0],"data_offsets":[0,0]},"B":7,"A":8}"#;
    assert_eq!(refusal(header, &[]), "tensor `A` has no dtype");
}

#[test]
fn metadata_is_listed_by_key() {
    let header = r#"{"__metadata__":{"scale":"4","arch":"x","n":3,"Zoo":"y"},"a":{"dtype":"U8","shape":[0],"data_offsets":[0,0]}}"#;
    let bytes = container(header, &[]);
    let st = File::open(&bytes, "m").unwrap();
    let keys: Vec<&str> = st.metadata().iter().map(|p| p.0.as_str()).collect();
    assert_eq!(keys, vec!["Zoo", "arch", "scale"]);
    assert_eq!(st.metadata()[1].1, "x");
}

#[test]
fn a_file_is_described_in_a_line() {
    let header = r#"{"a":{"dtype":"U8","shape":[2],"data_offsets":[0,2]},"b":{"dtype":"U8","shape":[1],"data_offsets":[2,3]}}"#;
    let bytes = container(header, &[1, 2, 3]);
    let st = File::open(&bytes, "dir/a \"b\".st").unwrap();
    assert_eq!(
        st.debug(),
        format!(
            "safetensors::File {{ path: \"dir/a \\\"b\\\".st\", len: {}, data_start: {}, tensors: 2 }}",
            bytes.len(),
            8 + header.len()
        )
    );
    let path = "it's\t\u{7f}";
    let st = File::read(&bytes, path).unwrap();
    assert!(st.debug().contains(&format!("path: {:?}, len: ", std::path::Path::new(path))));
}
