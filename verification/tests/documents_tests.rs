use std::collections::HashMap;

use paperless_index::paperless::documents::{
    group_documents, names_cover_documents, parse_field, Document, DocumentGroup, Field,
};
use paperless_index::table::order_groups;

fn doc(id: u64, asn: u64, correspondent: u64, title: &str, date: &str) -> Document {
    Document {
        id,
        correspondent,
        document_type: 0,
        storage_path: 0,
        title: title.to_string(),
        content: String::new(),
        tags: vec![],
        created: format!("{}T00:00:00Z", date),
        created_date: date.to_string(),
        modified: String::new(),
        added: String::new(),
        archive_serial_number: asn,
    }
}

fn names() -> HashMap<u64, String> {
    let mut m = HashMap::new();
    m.insert(1, "Bank".to_string());
    m.insert(2, "Agency".to_string());
    m.insert(3, "Clinic".to_string());
    m
}

fn ids(group: &DocumentGroup) -> Vec<u64> {
    group.documents.iter().map(|d| d.id).collect()
}

fn find<'a>(groups: &'a [DocumentGroup], key: &str) -> &'a DocumentGroup {
    groups.iter().find(|g| g.key == key).expect("group missing")
}

#[test]
fn parse_field_names() {
    assert_eq!(parse_field("ID"), Field::Id);
    assert_eq!(parse_field("ASN"), Field::Asn);
    assert_eq!(parse_field("Correspondent"), Field::Correspondent);
    assert_eq!(parse_field("Title"), Field::Title);
    assert_eq!(parse_field("Created Date"), Field::CreatedDate);
    assert_eq!(parse_field("Tags"), Field::Id);
    assert_eq!(parse_field("title"), Field::Id);
}

#[test]
fn group_by_correspondent_sorted_by_asn() {
    let docs = vec![
        doc(10, 5, 1, "Statement", "2024-01-05"),
        doc(11, 3, 2, "Letter", "2024-02-01"),
        doc(12, 1, 1, "Card", "2023-12-24"),
        doc(13, 4, 3, "Bill", "2024-03-03"),
    ];
    let groups = group_documents(docs, &names(), "Correspondent", "ASN", false);
    assert_eq!(groups.len(), 3);
    assert_eq!(ids(find(&groups, "Bank")), vec![12, 10]);
    assert_eq!(ids(find(&groups, "Agency")), vec![11]);
    assert_eq!(ids(find(&groups, "Clinic")), vec![13]);
}

#[test]
fn group_by_date_sorted_descending() {
    let docs = vec![
        doc(1, 30, 1, "B", "2024-01-01"),
        doc(2, 10, 1, "A", "2024-01-01"),
        doc(3, 20, 1, "C", "2024-01-01"),
        doc(4, 40, 1, "D", "2024-01-02"),
    ];
    let groups = group_documents(docs, &names(), "Created Date", "Title", true);
    assert_eq!(groups.len(), 2);
    assert_eq!(ids(find(&groups, "2024-01-01")), vec![3, 1, 2]);
    assert_eq!(ids(find(&groups, "2024-01-02")), vec![4]);
}

#[test]
fn group_by_id_uses_decimal_keys() {
    let docs = vec![doc(7, 1, 1, "x", "d"), doc(12, 2, 1, "y", "d")];
    let groups = group_documents(docs, &names(), "ID", "ID", false);
    let keys: Vec<&str> = groups.iter().map(|g| g.key.as_str()).collect();
    assert_eq!(keys, vec!["7", "12"]);
}

#[test]
fn unknown_group_field_groups_by_id() {
    let docs = vec![doc(5, 1, 1, "x", "d"), doc(5, 2, 1, "y", "d"), doc(6, 3, 1, "z", "d")];
    let groups = group_documents(docs, &names(), "Tags", "whatever", false);
    assert_eq!(groups.len(), 2);
    assert_eq!(find(&groups, "5").documents.len(), 2);
    assert_eq!(find(&groups, "5").documents[0].archive_serial_number, 1);
    assert_eq!(find(&groups, "5").documents[1].archive_serial_number, 2);
}

#[test]
fn equal_sort_keys_keep_input_order() {
    let docs = vec![
        doc(1, 9, 1, "Same", "d"),
        doc(2, 9, 1, "Same", "d"),
        doc(3, 1, 1, "Same", "d"),
    ];
    let asc = group_documents(docs.clone(), &names(), "Title", "ASN", false);
    assert_eq!(ids(&asc[0]), vec![3, 1, 2]);
    let desc = group_documents(docs, &names(), "Title", "ASN", true);
    assert_eq!(ids(&desc[0]), vec![2, 1, 3]);
}

#[test]
fn sort_by_correspondent_name_within_groups() {
    let docs = vec![
        doc(1, 1, 3, "T", "d"),
        doc(2, 1, 1, "T", "d"),
        doc(3, 1, 2, "T", "d"),
    ];
    let groups = group_documents(docs, &names(), "Title", "Correspondent", false);
    assert_eq!(ids(&groups[0]), vec![3, 2, 1]);
}

#[test]
fn grouping_nothing_gives_no_groups() {
    assert!(group_documents(Vec::new(), &names(), "Title", "ID", false).is_empty());
}

#[test]
fn names_cover_when_grouping_by_correspondent() {
    let docs = vec![doc(1, 1, 1, "a", "d"), doc(2, 2, 9, "b", "d")];
    assert!(!names_cover_documents(&docs, &names(), "Correspondent", "ID"));
    let docs = vec![doc(1, 1, 1, "a", "d"), doc(2, 2, 3, "b", "d")];
    assert!(names_cover_documents(&docs, &names(), "Correspondent", "ID"));
}

#[test]
fn names_cover_when_sorting_by_correspondent() {
    // A lone document with an unknown correspondent is never compared.
    let docs = vec![doc(1, 1, 9, "a", "d"), doc(2, 2, 1, "b", "d")];
    assert!(names_cover_documents(&docs, &names(), "Title", "Correspondent"));
    // Two documents in one group are compared, and one has no name.
    let docs = vec![doc(1, 1, 9, "a", "d"), doc(2, 2, 1, "a", "d")];
    assert!(!names_cover_documents(&docs, &names(), "Title", "Correspondent"));
    // Not reading names at all.
    assert!(names_cover_documents(&docs, &names(), "Title", "ASN"));
}

#[test]
fn lone_unnamed_document_sorts_by_correspondent() {
    let docs = vec![doc(1, 1, 9, "a", "d"), doc(2, 2, 1, "b", "d")];
    let groups = group_documents(docs, &names(), "Title", "Correspondent", false);
    assert_eq!(groups.len(), 2);
}

#[test]
fn order_groups_sorts_keys() {
    let docs = vec![
        doc(1, 1, 1, "b", "d"),
        doc(2, 1, 1, "a", "d"),
        doc(3, 1, 1, "B", "d"),
        doc(4, 1, 1, "ä", "d"),
    ];
    let groups = order_groups(group_documents(docs, &names(), "Title", "ID", false));
    let keys: Vec<&str> = groups.iter().map(|g| g.key.as_str()).collect();
    assert_eq!(keys, vec!["B", "a", "b", "ä"]);
}

#[test]
fn every_document_lands_in_its_own_group_once() {
    let docs = vec![
        doc(1, 1, 1, "a", "2024-01-01"),
        doc(2, 2, 2, "b", "2024-01-01"),
        doc(3, 3, 1, "c", "2024-01-02"),
        doc(4, 4, 3, "d", "2024-01-03"),
        doc(5, 5, 2, "e", "2024-01-02"),
    ];
    let groups = group_documents(docs.clone(), &names(), "Created Date", "ID", false);
    let total: usize = groups.iter().map(|g| g.documents.len()).sum();
    assert_eq!(total, docs.len());
    for d in &docs {
        let holding: Vec<&DocumentGroup> =
            groups.iter().filter(|g| g.documents.iter().any(|x| x.id == d.id)).collect();
        assert_eq!(holding.len(), 1);
        assert_eq!(holding[0].key, d.created_date);
    }
}

#[test]
fn descending_is_ascending_reversed() {
    let docs = vec![
        doc(1, 3, 1, "k", "d"),
        doc(2, 1, 1, "k", "d"),
        doc(3, 3, 1, "k", "d"),
        doc(4, 2, 1, "k", "d"),
    ];
    let asc = group_documents(docs.clone(), &names(), "Title", "ASN", false);
    let desc = group_documents(docs, &names(), "Title", "ASN", true);
    let mut reversed = ids(&asc[0]);
    reversed.reverse();
    assert_eq!(ids(&desc[0]), reversed);
}
