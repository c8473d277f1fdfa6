use std::collections::HashMap;

use paperless_index::paperless::documents::Document;
use paperless_index::table::{index_cell, listing_cell, parse_column, sort_documents, tags_joined, tags_listed, Column};

fn doc(id: u64, asn: u64, correspondent: u64, title: &str, date: &str, tags: Vec<u64>) -> Document {
    Document {
        id,
        correspondent,
        document_type: 2,
        storage_path: 3,
        title: title.to_string(),
        content: "text".to_string(),
        tags,
        created: String::new(),
        created_date: date.to_string(),
        modified: String::new(),
        added: String::new(),
        archive_serial_number: asn,
    }
}

fn names() -> HashMap<u64, String> {
    let mut m = HashMap::new();
    m.insert(4, "Tax Office".to_string());
    m
}

#[test]
fn tags_joined_separates() {
    assert_eq!(tags_joined(&vec![]), "");
    assert_eq!(tags_joined(&vec![5]), "5");
    assert_eq!(tags_joined(&vec![5, 12, 300]), "5, 12, 300");
}

#[test]
fn tags_listed_terminates_each() {
    assert_eq!(tags_listed(&vec![]), "");
    assert_eq!(tags_listed(&vec![5]), "5, ");
    assert_eq!(tags_listed(&vec![5, 12]), "5, 12, ");
}

#[test]
fn parse_column_names() {
    assert_eq!(parse_column("ID"), Column::Id);
    assert_eq!(parse_column("ASN"), Column::Asn);
    assert_eq!(parse_column("Correspondent"), Column::Correspondent);
    assert_eq!(parse_column("Title"), Column::Title);
    assert_eq!(parse_column("Tags"), Column::Tags);
    assert_eq!(parse_column("Created Date"), Column::CreatedDate);
    assert_eq!(parse_column("Content"), Column::Other);
}

#[test]
fn index_cells() {
    let d = doc(17, 205, 4, "Tax return", "2023-05-31", vec![1, 2]);
    assert_eq!(index_cell(&d, "ID", &names()), "17");
    assert_eq!(index_cell(&d, "ASN", &names()), "205");
    assert_eq!(index_cell(&d, "Correspondent", &names()), "Tax Office");
    assert_eq!(index_cell(&d, "Title", &names()), "Tax return");
    assert_eq!(index_cell(&d, "Tags", &names()), "1, 2");
    assert_eq!(index_cell(&d, "Created Date", &names()), "2023-05-31");
    assert_eq!(index_cell(&d, "Content", &names()), "");
}

#[test]
fn listing_cells() {
    let d = doc(17, 205, 4, "Tax return", "2023-05-31", vec![1, 2]);
    assert_eq!(listing_cell(&d, "ID", &names()), Some("17".to_string()));
    assert_eq!(listing_cell(&d, "Correspondent", &names()), Some("Tax Office".to_string()));
    assert_eq!(listing_cell(&d, "Tags", &names()), Some("1, 2, ".to_string()));
    assert_eq!(listing_cell(&d, "Content", &names()), None);
}

#[test]
fn sort_documents_by_fields() {
    let docs = vec![
        doc(3, 30, 9, "b", "2024-02-01", vec![]),
        doc(1, 10, 5, "c", "2024-01-01", vec![]),
        doc(2, 20, 5, "a", "2024-03-01", vec![]),
    ];
    let ids = |v: Vec<Document>| v.iter().map(|d| d.id).collect::<Vec<_>>();
    assert_eq!(ids(sort_documents(docs.clone(), "ID")), vec![1, 2, 3]);
    assert_eq!(ids(sort_documents(docs.clone(), "Title")), vec![2, 3, 1]);
    assert_eq!(ids(sort_documents(docs.clone(), "Created Date")), vec![1, 3, 2]);
    assert_eq!(ids(sort_documents(docs.clone(), "Correspondent")), vec![1, 2, 3]);
    assert_eq!(ids(sort_documents(docs.clone(), "ASN")), vec![1, 2, 3]);
    assert_eq!(ids(sort_documents(docs, "Nothing")), vec![1, 2, 3]);
}

#[test]
fn sort_documents_is_stable_and_idempotent() {
    let docs = vec![
        doc(1, 0, 5, "x", "", vec![]),
        doc(2, 0, 4, "x", "", vec![]),
        doc(3, 0, 5, "x", "", vec![]),
    ];
    let once = sort_documents(docs, "Correspondent");
    let ids: Vec<u64> = once.iter().map(|d| d.id).collect();
    assert_eq!(ids, vec![2, 1, 3]);
    let twice = sort_documents(once.clone(), "Correspondent");
    let ids2: Vec<u64> = twice.iter().map(|d| d.id).collect();
    assert_eq!(ids2, ids);
}
