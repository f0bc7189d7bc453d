use bm25_search::codec::{decode, encode, DecodeError};
use bm25_search::index::{build, Document, Index};

fn doc(id: &str, files: &[&str]) -> Document {
    Document {
        id: id.to_string(),
        files: files.iter().map(|f| f.to_string()).collect(),
    }
}

fn sample() -> Index {
    build(&vec![
        doc("A", &["x/y.txt", "y/z.txt"]),
        doc("B", &["x/y.txt"]),
        doc("ünï", &["ä/ö/ä"]),
    ])
    .unwrap()
}

fn same(a: &Index, b: &Index) {
    assert_eq!(a.total_len, b.total_len);
    assert_eq!(a.docs.len(), b.docs.len());
    for (x, y) in a.docs.iter().zip(b.docs.iter()) {
        assert_eq!(x.id, y.id);
        assert_eq!(x.len, y.len);
    }
    assert_eq!(a.terms.len(), b.terms.len());
    for (x, y) in a.terms.iter().zip(b.terms.iter()) {
        assert_eq!(x.term, y.term);
        assert_eq!(x.postings, y.postings);
        assert_eq!((x.idf_num, x.idf_den), (y.idf_num, y.idf_den));
    }
}

#[test]
fn decode_of_encode_gives_the_index_back() {
    let ix = sample();
    let bytes = encode(&ix);
    assert_eq!(&bytes[..5], b"BM25\x01");
    let back = decode(&bytes).unwrap();
    same(&ix, &back);
    assert!(back.check());
}

#[test]
fn encoding_layout_of_a_small_index() {
    let ix = build(&vec![doc("d", &["t"])]).unwrap();
    let bytes = encode(&ix);
    let mut expect: Vec<u8> = b"BM25\x01".to_vec();
    expect.extend_from_slice(&1u64.to_le_bytes()); // total length
    expect.extend_from_slice(&1u64.to_le_bytes()); // documents
    expect.extend_from_slice(&1u64.to_le_bytes());
    expect.extend_from_slice(b"d");
    expect.extend_from_slice(&1u64.to_le_bytes());
    expect.extend_from_slice(&1u64.to_le_bytes()); // terms
    expect.extend_from_slice(&1u64.to_le_bytes());
    expect.extend_from_slice(b"t");
    expect.extend_from_slice(&4u64.to_le_bytes()); // idf 4 / 3
    expect.extend_from_slice(&3u64.to_le_bytes());
    expect.extend_from_slice(&1u64.to_le_bytes()); // postings
    expect.extend_from_slice(&0u64.to_le_bytes());
    expect.extend_from_slice(&1u64.to_le_bytes());
    assert_eq!(bytes, expect);
}

#[test]
fn truncated_bytes_fail_to_decode() {
    let bytes = encode(&sample());
    for cut in [0, 4, 5, 20, 21, bytes.len() / 2, bytes.len() - 1] {
        assert!(matches!(decode(&bytes[..cut].to_vec()), Err(DecodeError::Corrupt)));
    }
}

#[test]
fn trailing_or_corrupted_bytes_fail_to_decode() {
    let bytes = encode(&sample());
    let mut longer = bytes.clone();
    longer.push(0);
    assert!(decode(&longer).is_err());
    let mut bad_tag = bytes.clone();
    bad_tag[0] = b'X';
    assert!(decode(&bad_tag).is_err());
    // the total length no longer matches the document lengths
    let mut bad_total = bytes.clone();
    bad_total[5] ^= 1;
    assert!(decode(&bad_total).is_err());
}

#[test]
fn invalid_utf8_in_a_string_fails_to_decode() {
    let ix = build(&vec![doc("d", &["t"])]).unwrap();
    let mut bytes = encode(&ix);
    bytes[29] = 0xff; // the id "d"
    assert!(decode(&bytes).is_err());
}
