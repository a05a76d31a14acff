use photomosaic::MosaicError;
use photomosaic::codec::parse_index;
use photomosaic::codec::render_index;
use photomosaic::index::ContentIndex;
use photomosaic::index::IndexData;
use photomosaic::index::IndexEntry;

fn entry(path: &[u8], hash: &[u8], average: (u8, u8, u8)) -> IndexEntry {
    IndexEntry {
        path: path.to_vec(),
        data: IndexData { hash: hash.to_vec(), average },
    }
}

fn assert_same_entries(a: &ContentIndex, b: &ContentIndex) {
    assert_eq!(a.entries.len(), b.entries.len());
    for k in 0..a.entries.len() {
        assert_eq!(a.entries[k].path, b.entries[k].path);
        assert_eq!(a.entries[k].data.hash, b.entries[k].data.hash);
        assert_eq!(a.entries[k].data.average, b.entries[k].data.average);
    }
}

#[test]
fn empty_index_renders_as_empty_object() {
    let idx = ContentIndex { entries: Vec::new() };
    assert_eq!(render_index(&idx), b"{}".to_vec());
    let back = parse_index(&b"{}".to_vec()).unwrap();
    assert_eq!(back.entries.len(), 0);
}

#[test]
fn one_entry_renders_exactly() {
    let idx = ContentIndex {
        entries: vec![entry(b"a.png", b"ab12", (1, 22, 255))],
    };
    let doc = render_index(&idx);
    assert_eq!(
        doc,
        b"{\"a.png\":{\"fingerprint\":\"ab12\",\"average\":[1,22,255]}}".to_vec()
    );
}

#[test]
fn two_entries_round_trip() {
    let idx = ContentIndex {
        entries: vec![
            entry(b"a.png", b"00ff", (0, 100, 9)),
            entry(b"b/c.jpg", b"1234", (255, 0, 10)),
        ],
    };
    let doc = render_index(&idx);
    let back = parse_index(&doc).unwrap();
    assert_same_entries(&idx, &back);
}

#[test]
fn quotes_and_backslashes_round_trip() {
    let idx = ContentIndex {
        entries: vec![entry(b"we\"ird\\name.png", b"aa", (7, 8, 9))],
    };
    let doc = render_index(&idx);
    let back = parse_index(&doc).unwrap();
    assert_same_entries(&idx, &back);
}

#[test]
fn malformed_documents_are_rejected() {
    for doc in [
        &b""[..],
        &b"{"[..],
        &b"[]"[..],
        &b"{}x"[..],
        &b"{\"a\":}"[..],
        &b"{\"a\":{\"fingerprint\":\"x\",\"average\":[1,2]}}"[..],
        &b"{\"a\":{\"fingerprint\":\"x\",\"average\":[1,2,300]}}"[..],
        &b"{\"a\":{\"fingerprint\":\"x\",\"average\":[01,2,3]}}"[..],
        &b"{\"a\":{\"hash\":\"x\",\"average\":[1,2,3]}}"[..],
        &b"{\"a\":{\"fingerprint\":\"x\",\"average\":[1e2,2,3]}}"[..],
        &b"{\"a\":{\"fingerprint\":\"\\u0100\",\"average\":[1,2,3]}}"[..],
        &b"{\"a\":{\"fingerprint\":\"x\",\"average\":[1,2,3]}"[..],
    ] {
        assert_eq!(
            parse_index(&doc.to_vec()).unwrap_err(),
            MosaicError::MalformedIndex
        );
    }
}

#[test]
fn duplicate_paths_are_rejected() {
    let doc = b"{\"a\":{\"fingerprint\":\"x\",\"average\":[1,2,3]},\"a\":{\"fingerprint\":\"y\",\"average\":[4,5,6]}}";
    assert_eq!(
        parse_index(&doc.to_vec()).unwrap_err(),
        MosaicError::MalformedIndex
    );
}

#[test]
fn insignificant_whitespace_is_accepted() {
    let idx = parse_index(&b"{ }".to_vec()).unwrap();
    assert_eq!(idx.entries.len(), 0);
    let doc =
        b" {\n  \"a\" : { \"fingerprint\" : \"x\" ,\t\"average\" : [ 1 , 2 , 3 ] }\r\n} ";
    let idx = parse_index(&doc.to_vec()).unwrap();
    assert_eq!(idx.entries.len(), 1);
    assert_eq!(idx.entries[0].path, b"a".to_vec());
    assert_eq!(idx.entries[0].data.hash, b"x".to_vec());
    assert_eq!(idx.entries[0].data.average, (1, 2, 3));
}

#[test]
fn entry_fields_load_in_either_order() {
    let doc = b"{\"a\":{\"average\":[9,8,7],\"fingerprint\":\"ff\"}}";
    let idx = parse_index(&doc.to_vec()).unwrap();
    assert_eq!(idx.entries.len(), 1);
    assert_eq!(idx.entries[0].data.hash, b"ff".to_vec());
    assert_eq!(idx.entries[0].data.average, (9, 8, 7));
}

#[test]
fn standard_string_escapes_load() {
    let doc = b"{\"\\u0041\\n\\t\\/b\":{\"fingerprint\":\"\\\"x\\\\\",\"average\":[0,0,0]}}";
    let idx = parse_index(&doc.to_vec()).unwrap();
    assert_eq!(idx.entries.len(), 1);
    assert_eq!(idx.entries[0].path, b"A\n\t/b".to_vec());
    assert_eq!(idx.entries[0].data.hash, b"\"x\\".to_vec());
}

#[test]
fn control_bytes_render_as_json_escapes_and_round_trip() {
    let idx = ContentIndex {
        entries: vec![entry(b"a\x01b\x1f", b"cc", (4, 5, 6))],
    };
    let doc = render_index(&idx);
    assert_eq!(
        doc,
        b"{\"a\\u0001b\\u001f\":{\"fingerprint\":\"cc\",\"average\":[4,5,6]}}".to_vec()
    );
    let back = parse_index(&doc).unwrap();
    assert_same_entries(&idx, &back);
}
