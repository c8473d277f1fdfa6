//! What the index table shows: the text of each cell, the order of the rows
//! and the order of the groups.

use std::collections::HashMap;
use vstd::prelude::*;
use vstd::string::*;
use crate::order::{is_stable_order, key_lt, key_views, lemma_key_irreflexive, stable_order, KeyView, SortKey};
use crate::paperless::documents::{
    arrange_documents,
    document_views,
    group_views,
    parse_field,
    field_named,
    sorted_stably,
    Document,
    DocumentGroup,
    DocumentView,
    GroupView,
};
use crate::text::{
    all_digits, chars_of, decimal, decimal_value, lemma_decimal_denotes, lex_lt, push_decimal, str_equal,
};

verus! {

broadcast use vstd::std_specs::hash::group_hash_axioms;

/// The tags in decimal, separated by ", ".
pub open spec fn joined_tags(tags: Seq<u64>) -> Seq<char>
    decreases tags.len(),
{
    if tags.len() == 0 {
        Seq::empty()
    } else if tags.len() == 1 {
        decimal(tags[0] as nat)
    } else {
        joined_tags(tags.drop_last()) + ", "@ + decimal(tags.last() as nat)
    }
}

/// The tags in decimal, each followed by ", ".
pub open spec fn listed_tags(tags: Seq<u64>) -> Seq<char>
    decreases tags.len(),
{
    if tags.len() == 0 {
        Seq::empty()
    } else {
        listed_tags(tags.drop_last()) + decimal(tags.last() as nat) + ", "@
    }
}

/// The tags in decimal, separated by ", ".
pub fn tags_joined(tags: &Vec<u64>) -> (s: String)
    ensures
        s@ == joined_tags(tags@),
{
    let mut s = String::new();
    let n = tags.len();
    let mut i: usize = 0;
    while i < n
        invariant
            n == tags@.len(),
            i <= n,
            s@ == joined_tags(tags@.take(i as int)),
        decreases n - i,
    {
        let ghost before = s@;
        if i > 0 {
            s.append(", ");
        }
        push_decimal(&mut s, tags[i]);
        proof {
            let t = tags@.take(i + 1);
            assert(t.drop_last() =~= tags@.take(i as int));
            if i == 0 {
                assert(before =~= Seq::<char>::empty());
                assert(s@ =~= joined_tags(t));
            } else {
                assert(s@ =~= joined_tags(t));
            }
        }
        i = i + 1;
    }
    proof {
        assert(tags@.take(n as int) =~= tags@);
    }
    s
}

/// The tags in decimal, each followed by ", ".
pub fn tags_listed(tags: &Vec<u64>) -> (s: String)
    ensures
        s@ == listed_tags(tags@),
{
    let mut s = String::new();
    let n = tags.len();
    let mut i: usize = 0;
    while i < n
        invariant
            n == tags@.len(),
            i <= n,
            s@ == listed_tags(tags@.take(i as int)),
        decreases n - i,
    {
        push_decimal(&mut s, tags[i]);
        s.append(", ");
        proof {
            let t = tags@.take(i + 1);
            assert(t.drop_last() =~= tags@.take(i as int));
            assert(s@ =~= listed_tags(t));
        }
        i = i + 1;
    }
    proof {
        assert(tags@.take(n as int) =~= tags@);
    }
    s
}

/// A column of the index table.
#[derive(Debug, Clone, Copy, PartialEq, Eq, Structural)]
pub enum Column {
    Id,
    Asn,
    Correspondent,
    Title,
    Tags,
    CreatedDate,
    Other,
}

/// The column a form value names: "ID", "ASN", "Correspondent", "Title",
/// "Tags" or "Created Date"; any other value names no known column.
pub open spec fn column_named(name: Seq<char>) -> Column {
    if name == "ID"@ {
        Column::Id
    } else if name == "ASN"@ {
        Column::Asn
    } else if name == "Correspondent"@ {
        Column::Correspondent
    } else if name == "Title"@ {
        Column::Title
    } else if name == "Tags"@ {
        Column::Tags
    } else if name == "Created Date"@ {
        Column::CreatedDate
    } else {
        Column::Other
    }
}

/// The column that the form value `name` names.
pub fn parse_column(name: &str) -> (c: Column)
    ensures
        c == column_named(name@),
{
    if str_equal(name, "ID") {
        Column::Id
    } else if str_equal(name, "ASN") {
        Column::Asn
    } else if str_equal(name, "Correspondent") {
        Column::Correspondent
    } else if str_equal(name, "Title") {
        Column::Title
    } else if str_equal(name, "Tags") {
        Column::Tags
    } else if str_equal(name, "Created Date") {
        Column::CreatedDate
    } else {
        Column::Other
    }
}

/// The text of the cell of `d` in column `col`: numbers in decimal, the
/// correspondent's name, the tags (each followed by ", " when `listed` holds,
/// separated by ", " otherwise), and nothing for an unknown column.
pub open spec fn cell_text(d: DocumentView, col: Column, names: Map<u64, String>, listed: bool) -> Seq<char> {
    match col {
        Column::Id => decimal(d.id as nat),
        Column::Asn => decimal(d.archive_serial_number as nat),
        Column::Correspondent => names[d.correspondent]@,
        Column::Title => d.title,
        Column::Tags => if listed {
            listed_tags(d.tags)
        } else {
            joined_tags(d.tags)
        },
        Column::CreatedDate => d.created_date,
        Column::Other => Seq::empty(),
    }
}

fn cell(document: &Document, col: Column, correspondents: &HashMap<u64, String>, listed: bool) -> (s: String)
    requires
        col == Column::Correspondent ==> correspondents@.contains_key(document.correspondent),
    ensures
        s@ == cell_text(document@, col, correspondents@, listed),
{
    match col {
        Column::Id => {
            let mut s = String::new();
            push_decimal(&mut s, document.id);
            proof {
                assert(s@ =~= decimal(document.id as nat));
            }
            s
        },
        Column::Asn => {
            let mut s = String::new();
            push_decimal(&mut s, document.archive_serial_number);
            proof {
                assert(s@ =~= decimal(document.archive_serial_number as nat));
            }
            s
        },
        Column::Correspondent => match correspondents.get(&document.correspondent) {
            Some(name) => name.clone(),
            None => String::new(),
        },
        Column::Title => document.title.clone(),
        Column::Tags => if listed {
            tags_listed(&document.tags)
        } else {
            tags_joined(&document.tags)
        },
        Column::CreatedDate => document.created_date.clone(),
        Column::Other => String::new(),
    }
}

/// The text of the cell of `document` in the grouped index under the column
/// that `field` names; an unknown column gets an empty cell.
pub fn index_cell(document: &Document, field: &str, correspondents: &HashMap<u64, String>) -> (s: String)
    requires
        column_named(field@) == Column::Correspondent ==> correspondents@.contains_key(document.correspondent),
    ensures
        s@ == cell_text(document@, column_named(field@), correspondents@, false),
{
    let col = parse_column(field);
    cell(document, col, correspondents, false)
}

/// The text of the cell of `document` in the flat listing under the column
/// that `field` names; an unknown column gets no cell.
pub fn listing_cell(document: &Document, field: &str, correspondents: &HashMap<u64, String>) -> (s: Option<String>)
    requires
        column_named(field@) == Column::Correspondent ==> correspondents@.contains_key(document.correspondent),
    ensures
        column_named(field@) == Column::Other ==> s is None,
        column_named(field@) != Column::Other ==> s is Some && s->0@ == cell_text(
            document@,
            column_named(field@),
            correspondents@,
            true,
        ),
{
    let col = parse_column(field);
    if col == Column::Other {
        None
    } else {
        Some(cell(document, col, correspondents, true))
    }
}

/// The documents of the flat listing, sorted stably by the field that
/// `sort_by` names (correspondents by id).
pub fn sort_documents(documents: Vec<Document>, sort_by: &str) -> (sorted: Vec<Document>)
    ensures
        sorted_stably(
            document_views(sorted@),
            document_views(documents@),
            Map::empty(),
            field_named(sort_by@),
            false,
        ),
{
    let field = parse_field(sort_by);
    let no_names: HashMap<u64, String> = HashMap::new();
    arrange_documents(&documents, &no_names, field, false, false)
}

/// The keys by which groups are ordered: their texts.
pub open spec fn group_sort_keys(groups: Seq<GroupView>) -> Seq<KeyView> {
    groups.map_values(|g: GroupView| KeyView::Text(g.key))
}

/// `out` lists the groups of `input` at the positions that `order` names, in
/// that order.
pub open spec fn groups_arranged(out: Seq<GroupView>, input: Seq<GroupView>, order: Seq<usize>) -> bool {
    &&& out.len() == order.len()
    &&& forall|i: int| 0 <= i < out.len() ==> out[i] == input[#[trigger] order[i] as int]
}

/// No two groups share a key.
pub open spec fn distinct_keys(groups: Seq<GroupView>) -> bool {
    forall|i: int, j: int| 0 <= i < j < groups.len() ==> (#[trigger] groups[i]).key != (#[trigger] groups[j]).key
}

/// The groups in ascending order of their keys, compared character by
/// character (groups with equal keys keep their order).
pub fn order_groups(groups: Vec<DocumentGroup>) -> (sorted: Vec<DocumentGroup>)
    ensures
        exists|order: Seq<usize>|
            is_stable_order(order, group_sort_keys(group_views(groups@))) && #[trigger] groups_arranged(
                group_views(sorted@),
                group_views(groups@),
                order,
            ),
        distinct_keys(group_views(groups@)) ==> forall|i: int, j: int|
            0 <= i < j < sorted@.len() ==> lex_lt((#[trigger] sorted@[i]).key@, (#[trigger] sorted@[j]).key@),
{
    let ghost input = group_views(groups@);
    let ghost ks = group_sort_keys(input);
    let n = groups.len();
    let mut keys: Vec<SortKey> = Vec::new();
    let mut i: usize = 0;
    while i < n
        invariant
            n == groups@.len(),
            input == group_views(groups@),
            ks == group_sort_keys(input),
            i <= n,
            keys@.len() == i,
            forall|j: int| 0 <= j < i ==> (#[trigger] keys@[j])@ == ks[j],
        decreases n - i,
    {
        let k = SortKey::Text(chars_of(groups[i].key.as_str()));
        keys.push(k);
        i = i + 1;
    }
    proof {
        assert(key_views(keys@) =~= ks);
    }
    let order = stable_order(&keys);
    let mut sorted: Vec<DocumentGroup> = Vec::new();
    let mut i: usize = 0;
    while i < n
        invariant
            n == groups@.len(),
            input == group_views(groups@),
            is_stable_order(order@, ks),
            ks.len() == n,
            i <= n,
            sorted@.len() == i,
            forall|j: int| 0 <= j < i ==> (#[trigger] sorted@[j])@ == input[order@[j] as int],
        decreases n - i,
    {
        let g = groups[order[i]].clone();
        sorted.push(g);
        i = i + 1;
    }
    proof {
        let sv = group_views(sorted@);
        assert(groups_arranged(sv, input, order@));
        if distinct_keys(input) {
            assert forall|i: int, j: int| 0 <= i < j < sorted@.len() implies lex_lt(
                (#[trigger] sorted@[i]).key@,
                (#[trigger] sorted@[j]).key@,
            ) by {
                let oi = order@[i] as int;
                let oj = order@[j] as int;
                assert(sv[i] == input[oi] && sv[j] == input[oj]);
                assert(oi != oj) by {
                    if oi == oj {
                        lemma_key_irreflexive(ks[oi]);
                    }
                }
                if input[oi].key == input[oj].key {
                    if oi < oj {
                        assert(input[oi].key != input[oj].key);
                    } else {
                        assert(input[oj].key != input[oi].key);
                    }
                }
                assert(key_lt(ks[oi], ks[oj]));
            }
        }
    }
    sorted
}

/// Listing the tags gives the joined tags with a final ", " after them.
pub proof fn lemma_listed_is_joined_terminated(tags: Seq<u64>)
    requires
        tags.len() > 0,
    ensures
        listed_tags(tags) == joined_tags(tags) + ", "@,
    decreases tags.len(),
{
    if tags.len() == 1 {
        assert(tags.drop_last() =~= Seq::<u64>::empty());
        assert(listed_tags(tags.drop_last()) =~= Seq::<char>::empty());
        assert(tags.last() == tags[0]);
        assert(listed_tags(tags) =~= joined_tags(tags) + ", "@);
    } else {
        lemma_listed_is_joined_terminated(tags.drop_last());
        assert(listed_tags(tags) =~= joined_tags(tags) + ", "@);
    }
}

/// Each cell shows the field of its column, in both table styles: the id and
/// the archive serial number as decimal numerals that denote them, the
/// correspondent's name, the title, the creation date, and nothing for an
/// unknown column. The tags of the listing are those of the index, followed by
/// ", " when there are any.
pub proof fn lemma_cell_fields(d: DocumentView, names: Map<u64, String>, listed: bool)
    ensures
        decimal_value(cell_text(d, Column::Id, names, listed)) == d.id,
        all_digits(cell_text(d, Column::Id, names, listed)),
        decimal_value(cell_text(d, Column::Asn, names, listed)) == d.archive_serial_number,
        all_digits(cell_text(d, Column::Asn, names, listed)),
        cell_text(d, Column::Asn, names, true) == cell_text(d, Column::Asn, names, false),
        cell_text(d, Column::Id, names, true) == cell_text(d, Column::Id, names, false),
        cell_text(d, Column::Correspondent, names, listed) == names[d.correspondent]@,
        cell_text(d, Column::Title, names, listed) == d.title,
        cell_text(d, Column::CreatedDate, names, listed) == d.created_date,
        cell_text(d, Column::Other, names, listed).len() == 0,
        d.tags.len() == 0 ==> cell_text(d, Column::Tags, names, listed).len() == 0,
        d.tags.len() > 0 ==> cell_text(d, Column::Tags, names, true) == cell_text(d, Column::Tags, names, false)
            + ", "@,
        d.tags.len() == 1 ==> cell_text(d, Column::Tags, names, false) == decimal(d.tags[0] as nat),
{
    lemma_decimal_denotes(d.id as nat);
    lemma_decimal_denotes(d.archive_serial_number as nat);
    if d.tags.len() > 0 {
        lemma_listed_is_joined_terminated(d.tags);
    }
}

/// The form values name the columns: "ID", "ASN", "Correspondent", "Title",
/// "Tags" and "Created Date".
pub proof fn lemma_column_names()
    ensures
        column_named("ID"@) == Column::Id,
        column_named("ASN"@) == Column::Asn,
        column_named("Correspondent"@) == Column::Correspondent,
        column_named("Title"@) == Column::Title,
        column_named("Tags"@) == Column::Tags,
        column_named("Created Date"@) == Column::CreatedDate,
{
    reveal_strlit("ID");
    reveal_strlit("ASN");
    reveal_strlit("Correspondent");
    reveal_strlit("Title");
    reveal_strlit("Tags");
    reveal_strlit("Created Date");
    assert("ASN"@.len() != "ID"@.len());
    assert("Correspondent"@.len() != "ID"@.len() && "Correspondent"@.len() != "ASN"@.len());
    assert("Title"@.len() != "ID"@.len() && "Title"@.len() != "ASN"@.len() && "Title"@.len() != "Correspondent"@.len());
    assert("Tags"@.len() != "ID"@.len() && "Tags"@.len() != "ASN"@.len() && "Tags"@.len() != "Correspondent"@.len()
        && "Tags"@.len() != "Title"@.len());
    assert("Created Date"@.len() != "ID"@.len() && "Created Date"@.len() != "ASN"@.len() && "Created Date"@.len()
        != "Correspondent"@.len() && "Created Date"@.len() != "Title"@.len() && "Created Date"@.len() != "Tags"@.len());
}

/// Ordered groups come in ascending lexicographic order of their keys: where
/// two keys first differ, the earlier group's character has the smaller
/// scalar value, and a key comes before every longer key it begins.
pub proof fn lemma_ordered_groups_compare(a: Seq<char>, b: Seq<char>, i: int)
    requires
        lex_lt(a, b),
        0 <= i <= a.len(),
        i <= b.len(),
        forall|j: int| 0 <= j < i ==> a[j] == b[j],
        i == a.len() || i == b.len() || a[i] != b[i],
    ensures
        i < a.len() ==> i < b.len() && (a[i] as int) < (b[i] as int),
        i == a.len() ==> a.len() < b.len(),
{
    if i < a.len() && i < b.len() {
        crate::text::lemma_lex_first_difference(a, b, i);
    } else if i == a.len() {
        assert(a =~= b.subrange(0, a.len() as int));
        crate::text::lemma_lex_prefix(a, b);
    } else {
        assert(b =~= a.subrange(0, b.len() as int));
        crate::text::lemma_lex_prefix(b, a);
    }
}

} // verus!
