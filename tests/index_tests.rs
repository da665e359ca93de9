use zipindex::codec::{decode, encode, SnapshotError};
use zipindex::index::{build, FileData, IndexedData, MappedDocumentIds};
use zipindex::search::run_search;
use zipindex::tokenize::split_path;

fn record(name: &str, files: &[&str]) -> FileData {
    FileData { name: name.to_string(), files: files.iter().map(|f| f.to_string()).collect() }
}

fn two_documents() -> IndexedData {
    build(&vec![record("A", &["a/b", "a/c"]), record("B", &["a/b"])], None)
}

fn query(terms: &[&str]) -> Vec<String> {
    terms.iter().map(|t| t.to_string()).collect()
}

fn posting(ix: &IndexedData, term: &str) -> Option<Vec<u64>> {
    ix.terms.iter().position(|t| t == term).map(|i| ix.terms_to_docs[i].clone())
}

fn assert_same_index(a: &IndexedData, b: &IndexedData) {
    assert_eq!(a.terms, b.terms);
    assert_eq!(a.terms_to_docs, b.terms_to_docs);
    assert_eq!(a.num_docs, b.num_docs);
    assert_eq!(a.mapped_doc_ids.count, b.mapped_doc_ids.count);
    assert_eq!(a.mapped_doc_ids.data, b.mapped_doc_ids.data);
    assert_eq!(a.idf.len(), b.idf.len());
    for (x, y) in a.idf.iter().zip(b.idf.iter()) {
        assert_eq!(x.numerator, y.numerator);
        assert_eq!(x.denominator, y.denominator);
    }
}

#[test]
fn split_path_segments() {
    assert_eq!(split_path("a/b/c"), vec!["a", "b", "c"]);
    assert_eq!(split_path("README.md"), vec!["README.md"]);
    assert_eq!(split_path(""), vec![""]);
    assert_eq!(split_path("a//b/"), vec!["a", "", "b", ""]);
    assert_eq!(split_path("/é/ü"), vec!["", "é", "ü"]);
}

#[test]
fn new_tables_are_empty() {
    let ids = MappedDocumentIds::new();
    assert_eq!(ids.count, 0);
    assert!(ids.data.is_empty());
    let ix = IndexedData::new();
    assert_eq!(ix.num_docs, 0);
    assert!(ix.terms.is_empty() && ix.terms_to_docs.is_empty() && ix.idf.is_empty());
}

#[test]
fn build_of_no_documents_is_empty() {
    let ix = build(&vec![], None);
    assert!(ix.terms.is_empty());
    assert!(ix.terms_to_docs.is_empty());
    assert!(ix.idf.is_empty());
    assert_eq!(ix.num_docs, 0);
    assert_eq!(ix.mapped_doc_ids.count, 0);
    assert!(ix.mapped_doc_ids.data.is_empty());
}

#[test]
fn repeated_term_in_one_document_posts_once() {
    let ix = build(&vec![record("zip", &["a/x", "a/y"])], None);
    assert_eq!(ix.terms, vec!["a", "x", "y"]);
    assert_eq!(posting(&ix, "a"), Some(vec![0]));
    assert_eq!(posting(&ix, "x"), Some(vec![0]));
    assert_eq!(posting(&ix, "y"), Some(vec![0]));
}

#[test]
fn postings_follow_ingestion_order() {
    let ix = build(
        &vec![record("p", &["a/b"]), record("q", &["c"]), record("r", &["b/a", "a"])],
        None,
    );
    assert_eq!(ix.num_docs, 3);
    assert_eq!(ix.mapped_doc_ids.data, vec!["p", "q", "r"]);
    assert_eq!(posting(&ix, "a"), Some(vec![0, 2]));
    assert_eq!(posting(&ix, "b"), Some(vec![0, 2]));
    assert_eq!(posting(&ix, "c"), Some(vec![1]));
}

#[test]
fn build_stops_at_the_limit() {
    let records = vec![record("A", &["a/b"]), record("B", &["c"])];
    let ix = build(&records, Some(1));
    assert_eq!(ix.num_docs, 1);
    assert_eq!(ix.mapped_doc_ids.count, 1);
    assert_eq!(ix.terms, vec!["a", "b"]);
    let all = build(&records, Some(5));
    assert_eq!(all.num_docs, 2);
    let none = build(&records, Some(0));
    assert_eq!(none.num_docs, 0);
    assert!(none.terms.is_empty());
}

#[test]
fn idf_ratios() {
    let ix = two_documents();
    // "a": two documents of two hold it, so (2 - 2 + 0.5) / (2 + 0.5) = 1 / 5.
    let a = ix.idf_of(&"a".to_string()).unwrap();
    assert_eq!((a.numerator, a.denominator), (1, 5));
    // "c": one of two, so (2 - 1 + 0.5) / (1 + 0.5) = 3 / 3.
    let c = ix.idf_of(&"c".to_string()).unwrap();
    assert_eq!((c.numerator, c.denominator), (3, 3));
    assert!(ix.idf_of(&"zzz".to_string()).is_none());
    assert_eq!(ix.idf.len(), ix.terms.len());
}

#[test]
fn query_for_shared_segment_matches_both() {
    let ix = two_documents();
    let r = run_search(&ix, &query(&["a"]));
    assert_eq!(r.len(), 2);
    assert_eq!((r[0].md5.as_str(), r[0].hits), ("A", 1));
    assert_eq!((r[1].md5.as_str(), r[1].hits), ("B", 1));
    let b = run_search(&ix, &query(&["b"]));
    assert_eq!(b.iter().map(|m| m.md5.as_str()).collect::<Vec<_>>(), vec!["A", "B"]);
    let c = run_search(&ix, &query(&["c"]));
    assert_eq!(c.len(), 1);
    assert_eq!((c[0].md5.as_str(), c[0].hits), ("A", 1));
}

#[test]
fn more_hits_rank_first() {
    let ix = two_documents();
    let r = run_search(&ix, &query(&["b", "c"]));
    assert_eq!(r.len(), 2);
    assert_eq!((r[0].md5.as_str(), r[0].hits), ("A", 2));
    assert_eq!((r[1].md5.as_str(), r[1].hits), ("B", 1));
    let ix2 = build(&vec![record("X", &["k"]), record("Y", &["k/m"])], None);
    let r2 = run_search(&ix2, &query(&["m", "k"]));
    assert_eq!(r2.iter().map(|m| (m.md5.as_str(), m.hits)).collect::<Vec<_>>(), vec![("Y", 2), ("X", 1)]);
}

#[test]
fn empty_query_matches_nothing() {
    let ix = two_documents();
    assert!(run_search(&ix, &vec![]).is_empty());
}

#[test]
fn unknown_terms_contribute_nothing() {
    let ix = two_documents();
    let r = run_search(&ix, &query(&["zzz", "c", "yyy"]));
    assert_eq!(r.len(), 1);
    assert_eq!((r[0].md5.as_str(), r[0].hits), ("A", 1));
    assert!(run_search(&ix, &query(&["zzz", "yyy"])).is_empty());
}

#[test]
fn snapshot_of_empty_index() {
    let ix = build(&vec![], None);
    let bytes = encode(&ix);
    assert_eq!(bytes, vec![0u8; 16]);
    let back = decode(&bytes).unwrap();
    assert_same_index(&ix, &back);
}

#[test]
fn snapshot_round_trip() {
    let ix = build(
        &vec![
            record("ä.zip", &["a/b", "a/c", "é/d"]),
            record("B", &["a/b"]),
            record("C", &["x/y/z", "b"]),
        ],
        None,
    );
    let back = decode(&encode(&ix)).unwrap();
    assert_same_index(&ix, &back);
    assert_eq!(back.mapped_doc_ids.data[0], "ä.zip");
}

#[test]
fn snapshot_layout() {
    let ix = build(&vec![record("N", &["t"])], None);
    let mut expected: Vec<u8> = Vec::new();
    expected.extend_from_slice(&1u64.to_le_bytes());
    expected.extend_from_slice(&1u64.to_le_bytes());
    expected.push(b'N');
    expected.extend_from_slice(&1u64.to_le_bytes());
    expected.extend_from_slice(&1u64.to_le_bytes());
    expected.push(b't');
    expected.extend_from_slice(&1u64.to_le_bytes());
    expected.extend_from_slice(&0u64.to_le_bytes());
    assert_eq!(encode(&ix), expected);
}

#[test]
fn corrupt_snapshots_are_refused() {
    let ix = two_documents();
    let bytes = encode(&ix);
    assert_eq!(decode(&bytes[..bytes.len() - 1].to_vec()).err(), Some(SnapshotError::Corrupt));
    let mut longer = bytes.clone();
    longer.push(0);
    assert_eq!(decode(&longer).err(), Some(SnapshotError::Corrupt));
    assert_eq!(decode(&vec![1, 2, 3]).err(), Some(SnapshotError::Corrupt));
    assert_eq!(decode(&vec![]).err(), Some(SnapshotError::Corrupt));
}

#[test]
fn snapshot_with_invalid_utf8_is_refused() {
    let ix = build(&vec![record("N", &["t"])], None);
    let mut bytes = encode(&ix);
    // The single byte of the name "N".
    bytes[16] = 0xff;
    assert_eq!(decode(&bytes).err(), Some(SnapshotError::Corrupt));
}

#[test]
fn snapshot_with_bad_postings_is_refused() {
    let ix = build(&vec![record("N", &["t"])], None);
    let mut bytes = encode(&ix);
    // The one posting names document 0; make it name document 1 of 1.
    let last = bytes.len() - 8;
    bytes[last] = 1;
    assert_eq!(decode(&bytes).err(), Some(SnapshotError::Corrupt));
}
