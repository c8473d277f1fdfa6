//! Documents as the Paperless API lists them, and their grouping and ordering
//! by a chosen field.

use std::collections::HashMap;
use vstd::prelude::*;
use crate::order::{
    before, is_stable_order, key_le, lemma_key_order, lemma_text_key_le, key_views, lemma_stable_order_covers, lemma_stable_order_unique, stable_order,
    KeyView, SortKey,
};
use crate::text::{
    all_digits, chars_of, decimal, decimal_value, lemma_decimal_denotes, lemma_decimal_injective, lex_lt, str_equal,
    u64_to_decimal,
};

verus! {

broadcast use vstd::std_specs::hash::group_hash_axioms;

/// One page of the document list.
#[derive(Debug)]
pub struct Documents {
    pub count: u64,
    pub next: Option<String>,
    pub previous: Option<String>,
    pub all: Vec<u64>,
    pub results: Vec<Document>,
}

/// A document, with the fields that the index reads.
#[derive(Debug)]
pub struct Document {
    pub id: u64,
    pub correspondent: u64,
    pub document_type: u64,
    pub storage_path: u64,
    pub title: String,
    pub content: String,
    pub tags: Vec<u64>,
    pub created: String,
    pub created_date: String,
    pub modified: String,
    pub added: String,
    pub archive_serial_number: u64,
}

/// The value of a [`Document`]: its numbers, its texts as characters and its
/// tags as a sequence.
pub struct DocumentView {
    pub id: u64,
    pub correspondent: u64,
    pub document_type: u64,
    pub storage_path: u64,
    pub title: Seq<char>,
    pub content: Seq<char>,
    pub tags: Seq<u64>,
    pub created: Seq<char>,
    pub created_date: Seq<char>,
    pub modified: Seq<char>,
    pub added: Seq<char>,
    pub archive_serial_number: u64,
}

impl View for Document {
    type V = DocumentView;

    open spec fn view(&self) -> DocumentView {
        DocumentView {
            id: self.id,
            correspondent: self.correspondent,
            document_type: self.document_type,
            storage_path: self.storage_path,
            title: self.title@,
            content: self.content@,
            tags: self.tags@,
            created: self.created@,
            created_date: self.created_date@,
            modified: self.modified@,
            added: self.added@,
            archive_serial_number: self.archive_serial_number,
        }
    }
}

impl Clone for Document {
    fn clone(&self) -> (res: Self)
        ensures
            res@ == self@,
    {
        let tags = self.tags.clone();
        proof {
            assert(tags@ =~= self.tags@);
        }
        Document {
            id: self.id,
            correspondent: self.correspondent,
            document_type: self.document_type,
            storage_path: self.storage_path,
            title: self.title.clone(),
            content: self.content.clone(),
            tags,
            created: self.created.clone(),
            created_date: self.created_date.clone(),
            modified: self.modified.clone(),
            added: self.added.clone(),
            archive_serial_number: self.archive_serial_number,
        }
    }
}

/// The values of a sequence of documents.
pub open spec fn document_views(docs: Seq<Document>) -> Seq<DocumentView> {
    docs.map_values(|d: Document| d@)
}

/// A field that documents are grouped or ordered by.
#[derive(Debug, Clone, Copy, PartialEq, Eq, Structural)]
pub enum Field {
    Id,
    Asn,
    Correspondent,
    Title,
    CreatedDate,
}

/// The field a form value names: "ID", "ASN", "Correspondent", "Title" or
/// "Created Date"; any other value names the id.
pub open spec fn field_named(name: Seq<char>) -> Field {
    if name == "ASN"@ {
        Field::Asn
    } else if name == "Correspondent"@ {
        Field::Correspondent
    } else if name == "Title"@ {
        Field::Title
    } else if name == "Created Date"@ {
        Field::CreatedDate
    } else {
        Field::Id
    }
}

/// The field that the form value `name` names.
pub fn parse_field(name: &str) -> (f: Field)
    ensures
        f == field_named(name@),
{
    if str_equal(name, "ASN") {
        Field::Asn
    } else if str_equal(name, "Correspondent") {
        Field::Correspondent
    } else if str_equal(name, "Title") {
        Field::Title
    } else if str_equal(name, "Created Date") {
        Field::CreatedDate
    } else {
        Field::Id
    }
}

/// The text under which a document is grouped by `by`: the id or the archive
/// serial number in decimal, the correspondent's name, the title or the
/// creation date.
pub open spec fn group_key(d: DocumentView, names: Map<u64, String>, by: Field) -> Seq<char> {
    match by {
        Field::Id => decimal(d.id as nat),
        Field::Asn => decimal(d.archive_serial_number as nat),
        Field::Correspondent => names[d.correspondent]@,
        Field::Title => d.title,
        Field::CreatedDate => d.created_date,
    }
}

/// The key by which a document is ordered by `by`. Its correspondent is
/// ordered by name when `by_name` holds, and by id otherwise.
pub open spec fn sort_key(d: DocumentView, names: Map<u64, String>, by: Field, by_name: bool) -> KeyView {
    match by {
        Field::Id => KeyView::Number(d.id),
        Field::Asn => KeyView::Number(d.archive_serial_number),
        Field::Correspondent => if by_name {
            KeyView::Text(names[d.correspondent]@)
        } else {
            KeyView::Number(d.correspondent)
        },
        Field::Title => KeyView::Text(d.title),
        Field::CreatedDate => KeyView::Text(d.created_date),
    }
}

/// Whether reading `by` of `d` needs the name of its correspondent.
pub open spec fn needs_name(d: DocumentView, names: Map<u64, String>, by: Field) -> bool {
    by == Field::Correspondent ==> names.contains_key(d.correspondent)
}

/// The text under which `d` is grouped by `by`.
pub fn document_group_key(d: &Document, names: &HashMap<u64, String>, by: Field) -> (k: String)
    requires
        needs_name(d@, names@, by),
    ensures
        k@ == group_key(d@, names@, by),
{
    match by {
        Field::Id => u64_to_decimal(d.id),
        Field::Asn => u64_to_decimal(d.archive_serial_number),
        Field::Correspondent => {
            let name = names.get(&d.correspondent);
            match name {
                Some(n) => n.clone(),
                None => String::new(),
            }
        },
        Field::Title => d.title.clone(),
        Field::CreatedDate => d.created_date.clone(),
    }
}

/// The key by which `d` is ordered by `by`.
pub fn document_sort_key(d: &Document, names: &HashMap<u64, String>, by: Field, by_name: bool) -> (k: SortKey)
    requires
        by_name ==> needs_name(d@, names@, by),
    ensures
        k@ == sort_key(d@, names@, by, by_name),
{
    match by {
        Field::Id => SortKey::Number(d.id),
        Field::Asn => SortKey::Number(d.archive_serial_number),
        Field::Correspondent => {
            if by_name {
                match names.get(&d.correspondent) {
                    Some(n) => SortKey::Text(chars_of(n.as_str())),
                    None => SortKey::Text(Vec::new()),
                }
            } else {
                SortKey::Number(d.correspondent)
            }
        },
        Field::Title => SortKey::Text(chars_of(d.title.as_str())),
        Field::CreatedDate => SortKey::Text(chars_of(d.created_date.as_str())),
    }
}

/// The keys by which `docs` are ordered by `by`.
pub open spec fn document_keys(
    docs: Seq<DocumentView>,
    names: Map<u64, String>,
    by: Field,
    by_name: bool,
) -> Seq<KeyView> {
    docs.map_values(|d: DocumentView| sort_key(d, names, by, by_name))
}

/// `out` lists the documents of `input` at the positions that `order` names,
/// in that order.
pub open spec fn arranged(out: Seq<DocumentView>, input: Seq<DocumentView>, order: Seq<usize>) -> bool {
    &&& out.len() == order.len()
    &&& forall|i: int| 0 <= i < out.len() ==> out[i] == input[#[trigger] order[i] as int]
}

/// `out` is `input` sorted stably by `by`: ascending by key, documents with
/// equal keys kept in their order in `input`.
pub open spec fn sorted_stably(
    out: Seq<DocumentView>,
    input: Seq<DocumentView>,
    names: Map<u64, String>,
    by: Field,
    by_name: bool,
) -> bool {
    exists|order: Seq<usize>|
        is_stable_order(order, document_keys(input, names, by, by_name)) && #[trigger] arranged(
            out,
            input,
            order,
        )
}

/// `out` is `input` sorted stably by `by`, and then, when `desc` holds,
/// reversed.
pub open spec fn ordered_as(
    out: Seq<DocumentView>,
    input: Seq<DocumentView>,
    names: Map<u64, String>,
    by: Field,
    by_name: bool,
    desc: bool,
) -> bool {
    if desc {
        sorted_stably(out.reverse(), input, names, by, by_name)
    } else {
        sorted_stably(out, input, names, by, by_name)
    }
}

/// Reading the keys of `docs` to order them needs the names of their
/// correspondents: that is when they are ordered by correspondent name and
/// there are two or more of them to compare.
pub open spec fn names_needed_to_order(
    docs: Seq<DocumentView>,
    names: Map<u64, String>,
    by: Field,
    by_name: bool,
) -> bool {
    docs.len() >= 2 && by_name ==> forall|i: int| 0 <= i < docs.len() ==> needs_name(#[trigger] docs[i], names, by)
}

/// `docs`, sorted stably by `by`, and reversed when `desc` holds.
pub fn arrange_documents(
    docs: &Vec<Document>,
    names: &HashMap<u64, String>,
    by: Field,
    by_name: bool,
    desc: bool,
) -> (out: Vec<Document>)
    requires
        names_needed_to_order(document_views(docs@), names@, by, by_name),
    ensures
        ordered_as(document_views(out@), document_views(docs@), names@, by, by_name, desc),
{
    let ghost input = document_views(docs@);
    let ghost keys_spec = document_keys(input, names@, by, by_name);
    let n = docs.len();
    let mut order: Vec<usize> = Vec::new();
    if n < 2 {
        if n == 1 {
            order.push(0);
        }
        proof {
            assert(is_stable_order(order@, keys_spec));
        }
    } else {
        let mut keys: Vec<SortKey> = Vec::new();
        let mut i: usize = 0;
        while i < n
            invariant
                n == docs@.len(),
                n >= 2,
                input == document_views(docs@),
                keys_spec == document_keys(input, names@, by, by_name),
                names_needed_to_order(input, names@, by, by_name),
                i <= n,
                keys@.len() == i,
                forall|j: int| 0 <= j < i ==> (#[trigger] keys@[j])@ == keys_spec[j],
            decreases n - i,
        {
            proof {
                if by_name {
                    assert(needs_name(input[i as int], names@, by));
                }
            }
            let k = document_sort_key(&docs[i], names, by, by_name);
            keys.push(k);
            i = i + 1;
        }
        proof {
            assert(key_views(keys@) =~= keys_spec);
        }
        order = stable_order(&keys);
    }
    let mut out: Vec<Document> = Vec::new();
    let mut i: usize = 0;
    while i < n
        invariant
            n == docs@.len(),
            input == document_views(docs@),
            is_stable_order(order@, keys_spec),
            keys_spec.len() == n,
            i <= n,
            out@.len() == i,
            forall|j: int|
                0 <= j < i ==> (#[trigger] out@[j])@ == (if desc {
                    input[order@[n - 1 - j] as int]
                } else {
                    input[order@[j] as int]
                }),
        decreases n - i,
    {
        let src = if desc {
            order[n - 1 - i]
        } else {
            order[i]
        };
        let d = docs[src].clone();
        out.push(d);
        i = i + 1;
    }
    proof {
        let ov = document_views(out@);
        if desc {
            assert(arranged(ov.reverse(), input, order@));
        } else {
            assert(arranged(ov, input, order@));
        }
    }
    out
}

/// The documents of `docs` whose group key by `by` is `key`, in their order in
/// `docs`.
pub open spec fn members(docs: Seq<DocumentView>, names: Map<u64, String>, by: Field, key: Seq<char>) -> Seq<
    DocumentView,
> {
    docs.filter(|d: DocumentView| group_key(d, names, by) == key)
}

/// Adding a document at the end adds it to its own group only.
pub proof fn lemma_members_push(
    docs: Seq<DocumentView>,
    d: DocumentView,
    names: Map<u64, String>,
    by: Field,
    key: Seq<char>,
)
    ensures
        members(docs.push(d), names, by, key) == (if group_key(d, names, by) == key {
            members(docs, names, by, key).push(d)
        } else {
            members(docs, names, by, key)
        }),
{
    reveal(Seq::filter);
    assert(docs.push(d).drop_last() =~= docs);
}

/// Grouping `docs` by `group_by` and ordering each group by `sort_by` never
/// reads the name of a correspondent that `names` lacks: every name is there
/// when grouping by correspondent, and when ordering by correspondent, every
/// document that shares its group with another has its correspondent's name.
pub open spec fn names_cover(docs: Seq<DocumentView>, names: Map<u64, String>, group_by: Field, sort_by: Field) -> bool {
    &&& forall|k: int| 0 <= k < docs.len() ==> needs_name(#[trigger] docs[k], names, group_by)
    &&& forall|k: int, l: int|
        0 <= k < docs.len() && 0 <= l < docs.len() && k != l && group_key(#[trigger] docs[k], names, group_by)
            == group_key(#[trigger] docs[l], names, group_by) ==> needs_name(docs[k], names, sort_by)
}

/// Some string of `keys` holds `key`.
pub open spec fn has_key(keys: Seq<String>, key: Seq<char>) -> bool {
    exists|j: int| 0 <= j < keys.len() && (#[trigger] keys[j])@ == key
}

/// A group of documents that share a key.
#[derive(Debug)]
pub struct DocumentGroup {
    pub key: String,
    pub documents: Vec<Document>,
}

/// The value of a [`DocumentGroup`].
pub struct GroupView {
    pub key: Seq<char>,
    pub documents: Seq<DocumentView>,
}

impl View for DocumentGroup {
    type V = GroupView;

    open spec fn view(&self) -> GroupView {
        GroupView { key: self.key@, documents: document_views(self.documents@) }
    }
}

impl Clone for DocumentGroup {
    fn clone(&self) -> (res: Self)
        ensures
            res@ == self@,
    {
        let documents = self.documents.clone();
        proof {
            assert(document_views(documents@) =~= document_views(self.documents@));
        }
        DocumentGroup { key: self.key.clone(), documents }
    }
}

/// The values of a sequence of groups.
pub open spec fn group_views(groups: Seq<DocumentGroup>) -> Seq<GroupView> {
    groups.map_values(|g: DocumentGroup| g@)
}

/// Some group of `groups` has the key `key`.
pub open spec fn has_group(groups: Seq<GroupView>, key: Seq<char>) -> bool {
    exists|i: int| 0 <= i < groups.len() && (#[trigger] groups[i]).key == key
}

/// Some document of `docs` has the group key `key`.
pub open spec fn key_occurs(docs: Seq<DocumentView>, names: Map<u64, String>, by: Field, key: Seq<char>) -> bool {
    exists|k: int| 0 <= k < docs.len() && group_key(#[trigger] docs[k], names, by) == key
}

/// `groups` holds the documents of `docs` grouped by `group_by`: one group for
/// each key that some document has, no two groups with one key, and in each
/// group the documents with its key, sorted stably by `sort_by` (correspondents
/// by name), reversed when `desc` holds.
pub open spec fn is_grouping(
    groups: Seq<GroupView>,
    docs: Seq<DocumentView>,
    names: Map<u64, String>,
    group_by: Field,
    sort_by: Field,
    desc: bool,
) -> bool {
    &&& forall|i: int, j: int| 0 <= i < j < groups.len() ==> (#[trigger] groups[i]).key != (#[trigger] groups[j]).key
    &&& forall|k: int| 0 <= k < docs.len() ==> has_group(groups, group_key(#[trigger] docs[k], names, group_by))
    &&& forall|i: int| 0 <= i < groups.len() ==> key_occurs(docs, names, group_by, (#[trigger] groups[i]).key)
    &&& forall|i: int|
        0 <= i < groups.len() ==> ordered_as(
            (#[trigger] groups[i]).documents,
            members(docs, names, group_by, groups[i].key),
            names,
            sort_by,
            true,
            desc,
        )
}

/// Groups `documents` by the field that `group_by` names and orders each group
/// by the field that `sort_by` names (correspondents by name), descending when
/// `sort_desc` holds. Groups come in the order in which their keys first occur.
pub fn group_documents(
    documents: Vec<Document>,
    correspondents: &HashMap<u64, String>,
    group_by: &str,
    sort_by: &str,
    sort_desc: bool,
) -> (groups: Vec<DocumentGroup>)
    requires
        names_cover(document_views(documents@), correspondents@, field_named(group_by@), field_named(sort_by@)),
    ensures
        is_grouping(
            group_views(groups@),
            document_views(documents@),
            correspondents@,
            field_named(group_by@),
            field_named(sort_by@),
            sort_desc,
        ),
{
    let gb = parse_field(group_by);
    let sb = parse_field(sort_by);
    let ghost input = document_views(documents@);
    let ghost names = correspondents@;
    let n = documents.len();
    let mut keys: Vec<String> = Vec::new();
    let mut lists: Vec<Vec<Document>> = Vec::new();
    let ghost mut pos: Seq<Seq<int>> = Seq::empty();
    let mut i: usize = 0;
    while i < n
        invariant
            n == documents@.len(),
            input == document_views(documents@),
            names == correspondents@,
            names_cover(input, names, gb, sb),
            i <= n,
            keys@.len() == lists@.len(),
            pos.len() == lists@.len(),
            forall|a: int, b: int| 0 <= a < b < keys@.len() ==> (#[trigger] keys@[a])@ != (#[trigger] keys@[b])@,
            forall|j: int|
                0 <= j < lists@.len() ==> document_views(#[trigger] lists@[j]@) == members(
                    input.take(i as int),
                    names,
                    gb,
                    keys@[j]@,
                ),
            forall|j: int| 0 <= j < lists@.len() ==> (#[trigger] pos[j]).len() == lists@[j]@.len(),
            forall|j: int| 0 <= j < lists@.len() ==> (#[trigger] lists@[j])@.len() > 0,
            forall|j: int, a: int|
                0 <= j < lists@.len() && 0 <= a < pos[j].len() ==> 0 <= #[trigger] pos[j][a] < i && input[pos[j][a]]
                    == lists@[j]@[a]@ && group_key(input[pos[j][a]], names, gb) == keys@[j]@,
            forall|j: int, a: int, b: int|
                0 <= j < lists@.len() && 0 <= a < b < pos[j].len() ==> #[trigger] pos[j][a] < #[trigger] pos[j][b],
            forall|k: int| 0 <= k < i ==> has_key(keys@, group_key(#[trigger] input[k], names, gb)),
        decreases n - i,
    {
        proof {
            assert(needs_name(input[i as int], names, gb));
        }
        let key = document_group_key(&documents[i], correspondents, gb);
        let ghost d = input[i as int];
        let ghost old_lists = lists@;
        let ghost old_keys = keys@;
        let ghost old_pos = pos;
        proof {
            assert(input.take(i + 1) =~= input.take(i as int).push(d));
            assert forall|kk: Seq<char>| #[trigger] members(input.take(i + 1), names, gb, kk) == (if group_key(d, names, gb) == kk {
                members(input.take(i as int), names, gb, kk).push(d)
            } else {
                members(input.take(i as int), names, gb, kk)
            }) by {
                lemma_members_push(input.take(i as int), d, names, gb, kk);
            }
        }
        let mut j: usize = 0;
        let m = keys.len();
        while j < m
            invariant
                m == keys@.len(),
                j <= m,
                forall|a: int| 0 <= a < j ==> (#[trigger] keys@[a])@ != key@,
            ensures
                j <= m,
                forall|a: int| 0 <= a < j ==> (#[trigger] keys@[a])@ != key@,
                j < m ==> keys@[j as int]@ == key@,
            decreases m - j,
        {
            if keys[j] == key {
                break;
            }
            j = j + 1;
        }
        let doc = documents[i].clone();
        if j < m {
            assert(keys@[j as int]@ == key@);
            lists[j].push(doc);
            proof {
                pos = old_pos.update(j as int, old_pos[j as int].push(i as int));
                assert forall|jj: int| 0 <= jj < lists@.len() implies document_views(#[trigger] lists@[jj]@)
                    == members(input.take(i + 1), names, gb, keys@[jj]@) by {
                    if jj == j {
                        assert(document_views(lists@[jj]@) =~= document_views(old_lists[jj]@).push(d));
                    } else {
                        assert(lists@[jj] == old_lists[jj]);
                        assert(old_keys[jj]@ != key@);
                    }
                }
                assert forall|jj: int, a: int|
                    0 <= jj < lists@.len() && 0 <= a < pos[jj].len() implies 0 <= #[trigger] pos[jj][a] < i + 1
                        && input[pos[jj][a]] == lists@[jj]@[a]@ && group_key(input[pos[jj][a]], names, gb)
                        == keys@[jj]@ by {
                    if jj == j && a == pos[jj].len() - 1 {
                    } else if jj == j {
                        assert(pos[jj][a] == old_pos[jj][a]);
                        assert(lists@[jj]@[a] == old_lists[jj]@[a]);
                    } else {
                        assert(lists@[jj] == old_lists[jj]);
                    }
                }
                assert forall|jj: int, a: int, b: int|
                    0 <= jj < lists@.len() && 0 <= a < b < pos[jj].len() implies #[trigger] pos[jj][a]
                        < #[trigger] pos[jj][b] by {
                    if jj == j && b == pos[jj].len() - 1 {
                        assert(old_pos[jj][a] < i);
                    } else if jj == j {
                        assert(pos[jj][a] == old_pos[jj][a] && pos[jj][b] == old_pos[jj][b]);
                    }
                }
                assert forall|jj: int| 0 <= jj < lists@.len() implies (#[trigger] lists@[jj])@.len() > 0 by {
                    if jj != j {
                        assert(lists@[jj] == old_lists[jj]);
                    }
                }
                assert forall|k: int| 0 <= k < i + 1 implies has_key(keys@, group_key(#[trigger] input[k], names, gb)) by {
                    if k == i {
                        assert(keys@[j as int]@ == group_key(input[k], names, gb));
                    }
                }
            }
        } else {
            let mut list: Vec<Document> = Vec::new();
            list.push(doc);
            keys.push(key);
            lists.push(list);
            proof {
                pos = old_pos.push(seq![i as int]);
                assert forall|jj: int| 0 <= jj < lists@.len() implies document_views(#[trigger] lists@[jj]@)
                    == members(input.take(i + 1), names, gb, keys@[jj]@) by {
                    if jj == m {
                        assert(members(input.take(i as int), names, gb, key@) =~= Seq::<DocumentView>::empty()) by {
                            reveal(Seq::filter);
                            if members(input.take(i as int), names, gb, key@).len() > 0 {
                                let mm = members(input.take(i as int), names, gb, key@);
                                input.take(i as int).lemma_filter_pred(|dd: DocumentView| group_key(dd, names, gb) == key@, 0);
                                input.take(i as int).lemma_filter_contains_rev(|dd: DocumentView| group_key(dd, names, gb) == key@, mm[0]);
                                let k = choose|k: int| 0 <= k < i && input.take(i as int)[k] == mm[0];
                                assert(input[k] == mm[0]);
                                assert(has_key(old_keys, group_key(input[k], names, gb)));
                                let jw = choose|jw: int| 0 <= jw < old_keys.len() && (#[trigger] old_keys[jw])@ == group_key(input[k], names, gb);
                                assert(old_keys[jw]@ != key@);
                            }
                        }
                        assert(document_views(lists@[jj]@) =~= seq![d]);
                    } else {
                        assert(lists@[jj] == old_lists[jj]);
                        assert(keys@[jj] == old_keys[jj]);
                    }
                }
                assert forall|jj: int, a: int|
                    0 <= jj < lists@.len() && 0 <= a < pos[jj].len() implies 0 <= #[trigger] pos[jj][a] < i + 1
                        && input[pos[jj][a]] == lists@[jj]@[a]@ && group_key(input[pos[jj][a]], names, gb)
                        == keys@[jj]@ by {
                    if jj < m {
                        assert(lists@[jj] == old_lists[jj]);
                        assert(keys@[jj] == old_keys[jj]);
                    }
                }
                assert forall|jj: int, a: int, b: int|
                    0 <= jj < lists@.len() && 0 <= a < b < pos[jj].len() implies #[trigger] pos[jj][a]
                        < #[trigger] pos[jj][b] by {
                    if jj < m {
                        assert(pos[jj] == old_pos[jj]);
                    }
                }
                assert forall|jj: int| 0 <= jj < lists@.len() implies (#[trigger] lists@[jj])@.len() > 0 by {
                    if jj < m {
                        assert(lists@[jj] == old_lists[jj]);
                    }
                }
                assert forall|a: int, b: int| 0 <= a < b < keys@.len() implies (#[trigger] keys@[a])@
                    != (#[trigger] keys@[b])@ by {
                    if b == m {
                        assert(keys@[a] == old_keys[a]);
                    } else {
                        assert(keys@[a] == old_keys[a] && keys@[b] == old_keys[b]);
                    }
                }
                assert forall|k: int| 0 <= k < i + 1 implies has_key(keys@, group_key(#[trigger] input[k], names, gb)) by {
                    if k == i {
                        assert(keys@[m as int]@ == group_key(input[k], names, gb));
                    } else {
                        assert(has_key(old_keys, group_key(input[k], names, gb)));
                        let jw = choose|jw: int| 0 <= jw < old_keys.len() && (#[trigger] old_keys[jw])@ == group_key(input[k], names, gb);
                        assert(keys@[jw] == old_keys[jw]);
                    }
                }
            }
        }
        i = i + 1;
    }
    proof {
        assert(input.take(n as int) =~= input);
        assert(i == n);

    }
    let mut groups: Vec<DocumentGroup> = Vec::new();
    let m = keys.len();
    let mut j: usize = 0;
    while j < m
        invariant
            n == documents@.len(),
            input == document_views(documents@),
            names == correspondents@,
            names_cover(input, names, gb, sb),
            m == keys@.len(),
            keys@.len() == lists@.len(),
            pos.len() == lists@.len(),
            forall|jj: int|
                0 <= jj < lists@.len() ==> document_views(#[trigger] lists@[jj]@) == members(input, names, gb, keys@[jj]@),
            forall|jj: int| 0 <= jj < lists@.len() ==> (#[trigger] pos[jj]).len() == lists@[jj]@.len(),
            forall|jj: int, a: int|
                0 <= jj < lists@.len() && 0 <= a < pos[jj].len() ==> 0 <= #[trigger] pos[jj][a] < n && input[pos[jj][a]]
                    == lists@[jj]@[a]@ && group_key(input[pos[jj][a]], names, gb) == keys@[jj]@,
            forall|jj: int, a: int, b: int|
                0 <= jj < lists@.len() && 0 <= a < b < pos[jj].len() ==> #[trigger] pos[jj][a] < #[trigger] pos[jj][b],
            forall|k: int| 0 <= k < n ==> has_key(keys@, group_key(#[trigger] input[k], names, gb)),
            forall|a: int, b: int| 0 <= a < b < keys@.len() ==> (#[trigger] keys@[a])@ != (#[trigger] keys@[b])@,
            forall|jj: int| 0 <= jj < lists@.len() ==> (#[trigger] lists@[jj])@.len() > 0,
            j <= m,
            groups@.len() == j,
            forall|jj: int| 0 <= jj < j ==> (#[trigger] groups@[jj]).key@ == keys@[jj]@,
            forall|jj: int|
                0 <= jj < j ==> ordered_as(
                    document_views((#[trigger] groups@[jj]).documents@),
                    members(input, names, gb, keys@[jj]@),
                    names,
                    sb,
                    true,
                    sort_desc,
                ),
        decreases m - j,
    {
        proof {
            let lv = document_views(lists@[j as int]@);
            if lv.len() >= 2 {
                assert forall|a: int| 0 <= a < lv.len() implies needs_name(#[trigger] lv[a], names, sb) by {
                    let b = if a == 0 { 1int } else { 0int };
                    let pa = pos[j as int][a];
                    let pb = pos[j as int][b];
                    assert(pa != pb) by {
                        if a < b {
                            assert(pos[j as int][a] < pos[j as int][b]);
                        } else {
                            assert(pos[j as int][b] < pos[j as int][a]);
                        }
                    }
                    assert(input[pa] == lv[a]);
                    assert(group_key(input[pa], names, gb) == group_key(input[pb], names, gb));
                }
            }
        }
        let arranged_docs = arrange_documents(&lists[j], correspondents, sb, true, sort_desc);
        let key = keys[j].clone();
        groups.push(DocumentGroup { key, documents: arranged_docs });
        j = j + 1;
    }
    proof {
        let gv = group_views(groups@);
        assert forall|a: int, b: int| 0 <= a < b < gv.len() implies (#[trigger] gv[a]).key != (#[trigger] gv[b]).key by {
            assert(gv[a].key == keys@[a]@ && gv[b].key == keys@[b]@);
        }
        assert forall|k: int| 0 <= k < input.len() implies has_group(gv, group_key(#[trigger] input[k], names, gb)) by {
            assert(has_key(keys@, group_key(input[k], names, gb)));
            let jw = choose|jw: int| 0 <= jw < keys@.len() && (#[trigger] keys@[jw])@ == group_key(input[k], names, gb);
            assert(gv[jw].key == keys@[jw]@);
        }
        assert forall|ii: int| 0 <= ii < gv.len() implies key_occurs(input, names, gb, (#[trigger] gv[ii]).key) by {
            assert(pos[ii].len() > 0);
            let k = pos[ii][0];
            assert(group_key(input[k], names, gb) == keys@[ii]@);
        }
        assert forall|ii: int| 0 <= ii < gv.len() implies ordered_as(
            (#[trigger] gv[ii]).documents,
            members(input, names, gb, gv[ii].key),
            names,
            sb,
            true,
            sort_desc,
        ) by {
            assert(gv[ii] == groups@[ii]@);
        }
    }
    groups
}

/// Whether grouping `documents` by the field that `group_by` names and
/// ordering the groups by the field that `sort_by` names finds the name of
/// every correspondent that it reads in `correspondents`.
pub fn names_cover_documents(
    documents: &Vec<Document>,
    correspondents: &HashMap<u64, String>,
    group_by: &str,
    sort_by: &str,
) -> (ok: bool)
    ensures
        ok == names_cover(document_views(documents@), correspondents@, field_named(group_by@), field_named(sort_by@)),
{
    let gb = parse_field(group_by);
    let sb = parse_field(sort_by);
    let ghost input = document_views(documents@);
    let ghost names = correspondents@;
    let n = documents.len();
    if gb == Field::Correspondent {
        let mut k: usize = 0;
        while k < n
            invariant
                n == documents@.len(),
                input == document_views(documents@),
                names == correspondents@,
                gb == field_named(group_by@),
                sb == field_named(sort_by@),
                gb == Field::Correspondent,
                k <= n,
                forall|kk: int| 0 <= kk < k ==> names.contains_key((#[trigger] input[kk]).correspondent),
            decreases n - k,
        {
            if !correspondents.contains_key(&documents[k].correspondent) {
                proof {
                    assert(!needs_name(input[k as int], names, gb));
                    assert(!names_cover(input, names, gb, sb));
                }
                return false;
            }
            k = k + 1;
        }
        return true;
    }
    if sb != Field::Correspondent {
        return true;
    }
    let mut keys: Vec<String> = Vec::new();
    let mut k: usize = 0;
    while k < n
        invariant
            n == documents@.len(),
            input == document_views(documents@),
            names == correspondents@,
            gb != Field::Correspondent,
            k <= n,
            keys@.len() == k,
            forall|kk: int| 0 <= kk < k ==> (#[trigger] keys@[kk])@ == group_key(input[kk], names, gb),
        decreases n - k,
    {
        let key = document_group_key(&documents[k], correspondents, gb);
        keys.push(key);
        k = k + 1;
    }
    let mut k: usize = 0;
    while k < n
        invariant
            n == documents@.len(),
            input == document_views(documents@),
            names == correspondents@,
            gb == field_named(group_by@),
            sb == field_named(sort_by@),
            gb != Field::Correspondent,
            sb == Field::Correspondent,
            keys@.len() == n,
            forall|kk: int| 0 <= kk < n ==> (#[trigger] keys@[kk])@ == group_key(input[kk], names, gb),
            k <= n,
            forall|kk: int, ll: int|
                0 <= kk < k && 0 <= ll < n && kk != ll && group_key(#[trigger] input[kk], names, gb) == group_key(
                    #[trigger] input[ll],
                    names,
                    gb,
                ) ==> needs_name(input[kk], names, sb),
        decreases n - k,
    {
        if !correspondents.contains_key(&documents[k].correspondent) {
            let mut l: usize = 0;
            while l < n
                invariant
                    n == documents@.len(),
                    input == document_views(documents@),
                    names == correspondents@,
                    gb == field_named(group_by@),
                    sb == field_named(sort_by@),
                    gb != Field::Correspondent,
                    sb == Field::Correspondent,
                    !names.contains_key(input[k as int].correspondent),
                    keys@.len() == n,
                    forall|kk: int| 0 <= kk < n ==> (#[trigger] keys@[kk])@ == group_key(input[kk], names, gb),
                    k < n,
                    l <= n,
                    forall|ll: int| 0 <= ll < l && ll != k ==> (#[trigger] keys@[ll])@ != keys@[k as int]@,
                decreases n - l,
            {
                if l != k && keys[l] == keys[k] {
                    proof {
                        assert(group_key(input[k as int], names, gb) == group_key(input[l as int], names, gb));
                        assert(!needs_name(input[k as int], names, sb));
                        assert(!names_cover(input, names, gb, sb));
                    }
                    return false;
                }
                l = l + 1;
            }
            proof {
                assert forall|ll: int| 0 <= ll < n && k != ll && group_key(input[k as int], names, gb) == group_key(
                    #[trigger] input[ll],
                    names,
                    gb,
                ) implies needs_name(input[k as int], names, sb) by {
                    assert(keys@[ll]@ != keys@[k as int]@);
                }
            }
        }
        k = k + 1;
    }
    true
}

/// Sorting stably has one result: any two stable sorts of the same documents
/// by the same field are equal.
pub proof fn lemma_sorted_stably_unique(
    out1: Seq<DocumentView>,
    out2: Seq<DocumentView>,
    input: Seq<DocumentView>,
    names: Map<u64, String>,
    by: Field,
    by_name: bool,
)
    requires
        sorted_stably(out1, input, names, by, by_name),
        sorted_stably(out2, input, names, by, by_name),
    ensures
        out1 == out2,
{
    let keys = document_keys(input, names, by, by_name);
    let o1 = choose|o: Seq<usize>| is_stable_order(o, keys) && #[trigger] arranged(out1, input, o);
    let o2 = choose|o: Seq<usize>| is_stable_order(o, keys) && #[trigger] arranged(out2, input, o);
    lemma_stable_order_unique(o1, o2, keys);
    assert forall|i: int| 0 <= i < out1.len() implies out1[i] == out2[i] by {
        assert(out1[i] == input[o1[i] as int]);
        assert(out2[i] == input[o2[i] as int]);
    }
    assert(out1 =~= out2);
}

/// The descending order of a set of documents is its ascending order
/// reversed.
pub proof fn lemma_descending_reverses_ascending(
    desc_out: Seq<DocumentView>,
    asc_out: Seq<DocumentView>,
    input: Seq<DocumentView>,
    names: Map<u64, String>,
    by: Field,
    by_name: bool,
)
    requires
        ordered_as(desc_out, input, names, by, by_name, true),
        ordered_as(asc_out, input, names, by, by_name, false),
    ensures
        desc_out == asc_out.reverse(),
{
    lemma_sorted_stably_unique(desc_out.reverse(), asc_out, input, names, by, by_name);
    assert(desc_out =~= desc_out.reverse().reverse());
}

/// Sorting documents that are already sorted by the same field leaves them
/// as they are.
pub proof fn lemma_sorting_sorted_is_identity(
    again: Seq<DocumentView>,
    sorted: Seq<DocumentView>,
    input: Seq<DocumentView>,
    names: Map<u64, String>,
    by: Field,
    by_name: bool,
)
    requires
        sorted_stably(sorted, input, names, by, by_name),
        sorted_stably(again, sorted, names, by, by_name),
    ensures
        again == sorted,
{
    let keys = document_keys(input, names, by, by_name);
    let skeys = document_keys(sorted, names, by, by_name);
    let o = choose|o: Seq<usize>| is_stable_order(o, keys) && #[trigger] arranged(sorted, input, o);
    let n = sorted.len();
    if n > 0 {
        lemma_stable_order_covers(o, keys, n - 1);
    }
    assert(n <= usize::MAX + 1);
    let id = Seq::new(n, |i: int| i as usize);
    assert(is_stable_order(id, skeys)) by {
        assert forall|i: int, j: int| 0 <= i < j < id.len() implies before(
            skeys,
            #[trigger] id[i] as int,
            #[trigger] id[j] as int,
        ) by {
            assert(id[i] as int == i && id[j] as int == j);
            assert(sorted[i] == input[o[i] as int] && sorted[j] == input[o[j] as int]);
            assert(skeys[i] == keys[o[i] as int] && skeys[j] == keys[o[j] as int]);
            assert(before(keys, o[i] as int, o[j] as int));
        }
        assert forall|i: int| 0 <= i < id.len() implies #[trigger] id[i] < skeys.len() by {
            assert(id[i] as int == i);
        }
    }
    assert forall|i: int| 0 <= i < sorted.len() implies sorted[i] == sorted[#[trigger] id[i] as int] by {
        assert(id[i] as int == i);
    }
    assert(arranged(sorted, sorted, id));
    assert(sorted_stably(sorted, sorted, names, by, by_name));
    lemma_sorted_stably_unique(again, sorted, sorted, names, by, by_name);
}

/// A stable sort keeps every document of its input.
pub proof fn lemma_sorted_contains(
    out: Seq<DocumentView>,
    input: Seq<DocumentView>,
    names: Map<u64, String>,
    by: Field,
    by_name: bool,
    m: int,
)
    requires
        sorted_stably(out, input, names, by, by_name),
        0 <= m < input.len(),
    ensures
        out.contains(input[m]),
{
    let keys = document_keys(input, names, by, by_name);
    let o = choose|o: Seq<usize>| is_stable_order(o, keys) && #[trigger] arranged(out, input, o);
    lemma_stable_order_covers(o, keys, m);
    let i = choose|i: int| 0 <= i < o.len() && o[i] as int == m;
    assert(out[i] == input[m]);
}

/// A stable sort brings in nothing that its input lacks.
pub proof fn lemma_sorted_from_input(
    out: Seq<DocumentView>,
    input: Seq<DocumentView>,
    names: Map<u64, String>,
    by: Field,
    by_name: bool,
    i: int,
)
    requires
        sorted_stably(out, input, names, by, by_name),
        0 <= i < out.len(),
    ensures
        input.contains(out[i]),
{
    let keys = document_keys(input, names, by, by_name);
    let o = choose|o: Seq<usize>| is_stable_order(o, keys) && #[trigger] arranged(out, input, o);
    assert(out[i] == input[o[i] as int]);
}

/// Grouping places every document in the group of its own key, and in no
/// other group.
pub proof fn lemma_grouping_places_each_document_once(
    groups: Seq<GroupView>,
    docs: Seq<DocumentView>,
    names: Map<u64, String>,
    group_by: Field,
    sort_by: Field,
    desc: bool,
    k: int,
)
    requires
        is_grouping(groups, docs, names, group_by, sort_by, desc),
        0 <= k < docs.len(),
    ensures
        exists|i: int|
            0 <= i < groups.len() && (#[trigger] groups[i]).key == group_key(docs[k], names, group_by)
                && groups[i].documents.contains(docs[k]),
        forall|j: int|
            0 <= j < groups.len() && (#[trigger] groups[j]).documents.contains(docs[k]) ==> groups[j].key
                == group_key(docs[k], names, group_by),
{
    let key = group_key(docs[k], names, group_by);
    let pred = |d: DocumentView| group_key(d, names, group_by) == key;
    assert(has_group(groups, key));
    let i = choose|i: int| 0 <= i < groups.len() && (#[trigger] groups[i]).key == key;
    let mem = members(docs, names, group_by, key);
    docs.lemma_filter_contains(pred, k);
    assert(mem.contains(docs[k]));
    let m = choose|m: int| 0 <= m < mem.len() && mem[m] == docs[k];
    let g = groups[i].documents;
    if desc {
        lemma_sorted_contains(g.reverse(), mem, names, sort_by, true, m);
        let a = choose|a: int| 0 <= a < g.reverse().len() && g.reverse()[a] == docs[k];
        assert(g[g.len() - 1 - a] == docs[k]);
    } else {
        lemma_sorted_contains(g, mem, names, sort_by, true, m);
    }
    assert forall|j: int|
        0 <= j < groups.len() && (#[trigger] groups[j]).documents.contains(docs[k]) implies groups[j].key == key by {
        let kj = groups[j].key;
        let gj = groups[j].documents;
        let memj = members(docs, names, group_by, kj);
        let a = choose|a: int| 0 <= a < gj.len() && gj[a] == docs[k];
        assert(ordered_as(gj, memj, names, sort_by, true, desc));
        if desc {
            assert(gj.reverse()[gj.len() - 1 - a] == docs[k]);
            lemma_sorted_from_input(gj.reverse(), memj, names, sort_by, true, gj.len() - 1 - a);
        } else {
            lemma_sorted_from_input(gj, memj, names, sort_by, true, a);
        }
        let b = choose|b: int| 0 <= b < memj.len() && memj[b] == docs[k];
        docs.lemma_filter_pred(|d: DocumentView| group_key(d, names, group_by) == kj, b);
    }
}

/// Ordering documents keeps their number.
pub proof fn lemma_ordered_len(
    out: Seq<DocumentView>,
    input: Seq<DocumentView>,
    names: Map<u64, String>,
    by: Field,
    by_name: bool,
    desc: bool,
)
    requires
        ordered_as(out, input, names, by, by_name, desc),
    ensures
        out.len() == input.len(),
{
    let keys = document_keys(input, names, by, by_name);
    let sorted = if desc {
        out.reverse()
    } else {
        out
    };
    let o = choose|o: Seq<usize>| is_stable_order(o, keys) && #[trigger] arranged(sorted, input, o);
}

/// The number of times `key` occurs in `keys`.
pub open spec fn key_count(keys: Seq<Seq<char>>, key: Seq<char>) -> nat
    decreases keys.len(),
{
    if keys.len() == 0 {
        0
    } else {
        key_count(keys.drop_last(), key) + if keys.last() == key {
            1nat
        } else {
            0nat
        }
    }
}

/// The sizes of the groups of `docs` under each of `keys`, added up.
pub open spec fn member_count(docs: Seq<DocumentView>, names: Map<u64, String>, by: Field, keys: Seq<Seq<char>>) -> nat
    decreases keys.len(),
{
    if keys.len() == 0 {
        0
    } else {
        member_count(docs, names, by, keys.drop_last()) + members(docs, names, by, keys.last()).len()
    }
}

/// The number of documents that a sequence of groups holds.
pub open spec fn grouped_count(groups: Seq<GroupView>) -> nat
    decreases groups.len(),
{
    if groups.len() == 0 {
        0
    } else {
        grouped_count(groups.drop_last()) + groups.last().documents.len()
    }
}

proof fn lemma_key_count_absent(keys: Seq<Seq<char>>, key: Seq<char>)
    requires
        !keys.contains(key),
    ensures
        key_count(keys, key) == 0,
    decreases keys.len(),
{
    if keys.len() > 0 {
        assert(!keys.drop_last().contains(key)) by {
            if keys.drop_last().contains(key) {
                let i = choose|i: int| 0 <= i < keys.drop_last().len() && keys.drop_last()[i] == key;
                assert(keys[i] == key);
            }
        }
        lemma_key_count_absent(keys.drop_last(), key);
        assert(keys[keys.len() - 1] != key);
    }
}

proof fn lemma_key_count_once(keys: Seq<Seq<char>>, key: Seq<char>)
    requires
        keys.no_duplicates(),
        keys.contains(key),
    ensures
        key_count(keys, key) == 1,
    decreases keys.len(),
{
    let init = keys.drop_last();
    assert(init.no_duplicates()) by {
        assert forall|i: int, j: int| 0 <= i < init.len() && 0 <= j < init.len() && i != j implies init[i] != init[j] by {
            assert(keys[i] != keys[j]);
        }
    }
    if keys.last() == key {
        assert(!init.contains(key)) by {
            if init.contains(key) {
                let i = choose|i: int| 0 <= i < init.len() && init[i] == key;
                assert(keys[i] != keys[keys.len() - 1]);
            }
        }
        lemma_key_count_absent(init, key);
    } else {
        let i = choose|i: int| 0 <= i < keys.len() && keys[i] == key;
        assert(init[i] == key);
        lemma_key_count_once(init, key);
    }
}

proof fn lemma_member_count_empty(names: Map<u64, String>, by: Field, keys: Seq<Seq<char>>)
    ensures
        member_count(Seq::empty(), names, by, keys) == 0,
    decreases keys.len(),
{
    reveal(Seq::filter);
    if keys.len() > 0 {
        lemma_member_count_empty(names, by, keys.drop_last());
    }
}

proof fn lemma_member_count_push(
    docs: Seq<DocumentView>,
    d: DocumentView,
    names: Map<u64, String>,
    by: Field,
    keys: Seq<Seq<char>>,
)
    ensures
        member_count(docs.push(d), names, by, keys) == member_count(docs, names, by, keys) + key_count(
            keys,
            group_key(d, names, by),
        ),
    decreases keys.len(),
{
    if keys.len() > 0 {
        lemma_member_count_push(docs, d, names, by, keys.drop_last());
        lemma_members_push(docs, d, names, by, keys.last());
    }
}

proof fn lemma_member_count_covers(docs: Seq<DocumentView>, names: Map<u64, String>, by: Field, keys: Seq<Seq<char>>)
    requires
        keys.no_duplicates(),
        forall|k: int| 0 <= k < docs.len() ==> keys.contains(group_key(#[trigger] docs[k], names, by)),
    ensures
        member_count(docs, names, by, keys) == docs.len(),
    decreases docs.len(),
{
    if docs.len() == 0 {
        assert(docs =~= Seq::<DocumentView>::empty());
        lemma_member_count_empty(names, by, keys);
    } else {
        let init = docs.drop_last();
        let d = docs.last();
        assert forall|k: int| 0 <= k < init.len() implies keys.contains(group_key(#[trigger] init[k], names, by)) by {
            assert(init[k] == docs[k]);
        }
        lemma_member_count_covers(init, names, by, keys);
        assert(init.push(d) =~= docs);
        lemma_member_count_push(init, d, names, by, keys);
        assert(keys.contains(group_key(docs[docs.len() - 1], names, by)));
        lemma_key_count_once(keys, group_key(d, names, by));
    }
}

/// The keys of a sequence of groups.
pub open spec fn group_keys(groups: Seq<GroupView>) -> Seq<Seq<char>> {
    groups.map_values(|g: GroupView| g.key)
}

proof fn lemma_grouped_count_is_member_count(
    groups: Seq<GroupView>,
    docs: Seq<DocumentView>,
    names: Map<u64, String>,
    group_by: Field,
    sort_by: Field,
    desc: bool,
)
    requires
        forall|i: int|
            0 <= i < groups.len() ==> ordered_as(
                (#[trigger] groups[i]).documents,
                members(docs, names, group_by, groups[i].key),
                names,
                sort_by,
                true,
                desc,
            ),
    ensures
        grouped_count(groups) == member_count(docs, names, group_by, group_keys(groups)),
    decreases groups.len(),
{
    if groups.len() > 0 {
        let init = groups.drop_last();
        assert forall|i: int| 0 <= i < init.len() implies ordered_as(
            (#[trigger] init[i]).documents,
            members(docs, names, group_by, init[i].key),
            names,
            sort_by,
            true,
            desc,
        ) by {
            assert(init[i] == groups[i]);
        }
        lemma_grouped_count_is_member_count(init, docs, names, group_by, sort_by, desc);
        assert(group_keys(groups).drop_last() =~= group_keys(init));
        let g = groups[groups.len() - 1];
        lemma_ordered_len(g.documents, members(docs, names, group_by, g.key), names, sort_by, true, desc);
    }
}

/// Grouping neither loses nor repeats documents: the groups hold as many
/// documents as there are.
pub proof fn lemma_grouping_keeps_count(
    groups: Seq<GroupView>,
    docs: Seq<DocumentView>,
    names: Map<u64, String>,
    group_by: Field,
    sort_by: Field,
    desc: bool,
)
    requires
        is_grouping(groups, docs, names, group_by, sort_by, desc),
    ensures
        grouped_count(groups) == docs.len(),
{
    let keys = group_keys(groups);
    lemma_grouped_count_is_member_count(groups, docs, names, group_by, sort_by, desc);
    assert(keys.no_duplicates()) by {
        assert forall|i: int, j: int| 0 <= i < keys.len() && 0 <= j < keys.len() && i != j implies keys[i] != keys[j] by {
            if i < j {
                assert(groups[i].key != groups[j].key);
            } else {
                assert(groups[j].key != groups[i].key);
            }
        }
    }
    assert forall|k: int| 0 <= k < docs.len() implies keys.contains(group_key(#[trigger] docs[k], names, group_by)) by {
        assert(has_group(groups, group_key(docs[k], names, group_by)));
        let i = choose|i: int| 0 <= i < groups.len() && (#[trigger] groups[i]).key == group_key(docs[k], names, group_by);
        assert(keys[i] == groups[i].key);
    }
    lemma_member_count_covers(docs, names, group_by, keys);
}

/// The form values name the fields: "ID", "ASN", "Correspondent", "Title" and
/// "Created Date".
pub proof fn lemma_field_names()
    ensures
        field_named("ID"@) == Field::Id,
        field_named("ASN"@) == Field::Asn,
        field_named("Correspondent"@) == Field::Correspondent,
        field_named("Title"@) == Field::Title,
        field_named("Created Date"@) == Field::CreatedDate,
{
    reveal_strlit("ID");
    reveal_strlit("ASN");
    reveal_strlit("Correspondent");
    reveal_strlit("Title");
    reveal_strlit("Created Date");
    assert("ID"@ != "ASN"@ && "ID"@ != "Correspondent"@ && "ID"@ != "Title"@ && "ID"@ != "Created Date"@) by {
        assert("ID"@.len() != "ASN"@.len());
        assert("ID"@.len() != "Correspondent"@.len());
        assert("ID"@.len() != "Title"@.len());
        assert("ID"@.len() != "Created Date"@.len());
    }
    assert("Correspondent"@ != "ASN"@);
    assert("Title"@ != "ASN"@ && "Title"@ != "Correspondent"@) by {
        assert("Title"@.len() != "ASN"@.len());
        assert("Title"@.len() != "Correspondent"@.len());
    }
    assert("Created Date"@ != "ASN"@ && "Created Date"@ != "Correspondent"@ && "Created Date"@ != "Title"@) by {
        assert("Created Date"@.len() != "ASN"@.len());
        assert("Created Date"@.len() != "Correspondent"@.len());
        assert("Created Date"@.len() != "Title"@.len());
    }
}

/// A document is grouped under the chosen field: the id or the archive serial
/// number as a decimal numeral that denotes it, the correspondent's name, the
/// title or the creation date. So two documents share a group exactly when
/// they agree on that field.
pub proof fn lemma_group_key_fields(d1: DocumentView, d2: DocumentView, names: Map<u64, String>)
    ensures
        decimal_value(group_key(d1, names, Field::Id)) == d1.id,
        all_digits(group_key(d1, names, Field::Id)),
        decimal_value(group_key(d1, names, Field::Asn)) == d1.archive_serial_number,
        all_digits(group_key(d1, names, Field::Asn)),
        (group_key(d1, names, Field::Id) == group_key(d2, names, Field::Id)) <==> d1.id == d2.id,
        (group_key(d1, names, Field::Asn) == group_key(d2, names, Field::Asn)) <==> d1.archive_serial_number
            == d2.archive_serial_number,
        group_key(d1, names, Field::Correspondent) == names[d1.correspondent]@,
        group_key(d1, names, Field::Title) == d1.title,
        group_key(d1, names, Field::CreatedDate) == d1.created_date,
{
    lemma_decimal_denotes(d1.id as nat);
    lemma_decimal_denotes(d1.archive_serial_number as nat);
    if decimal(d1.id as nat) == decimal(d2.id as nat) {
        lemma_decimal_injective(d1.id as nat, d2.id as nat);
    }
    if decimal(d1.archive_serial_number as nat) == decimal(d2.archive_serial_number as nat) {
        lemma_decimal_injective(d1.archive_serial_number as nat, d2.archive_serial_number as nat);
    }
}

/// In a stable sort by a field, that field never decreases along the result:
/// numbers (id, archive serial number, correspondent id) by value, texts
/// (title, creation date, correspondent name) lexicographically.
pub proof fn lemma_sorted_by_field(
    out: Seq<DocumentView>,
    input: Seq<DocumentView>,
    names: Map<u64, String>,
    by: Field,
    by_name: bool,
    i: int,
    j: int,
)
    requires
        sorted_stably(out, input, names, by, by_name),
        0 <= i < j < out.len(),
    ensures
        by == Field::Id ==> out[i].id <= out[j].id,
        by == Field::Asn ==> out[i].archive_serial_number <= out[j].archive_serial_number,
        by == Field::Correspondent && !by_name ==> out[i].correspondent <= out[j].correspondent,
        by == Field::Correspondent && by_name ==> !lex_lt(names[out[j].correspondent]@, names[out[i].correspondent]@),
        by == Field::Title ==> !lex_lt(out[j].title, out[i].title),
        by == Field::CreatedDate ==> !lex_lt(out[j].created_date, out[i].created_date),
{
    let keys = document_keys(input, names, by, by_name);
    let o = choose|o: Seq<usize>| is_stable_order(o, keys) && #[trigger] arranged(out, input, o);
    let p = o[i] as int;
    let q = o[j] as int;
    assert(out[i] == input[p] && out[j] == input[q]);
    assert(before(keys, p, q));
    let ki = sort_key(out[i], names, by, by_name);
    let kj = sort_key(out[j], names, by, by_name);
    assert(keys[p] == ki && keys[q] == kj);
    assert(key_le(ki, kj));
    match by {
        Field::Id => {
            lemma_key_order(out[i].id, out[j].id, Seq::empty(), Seq::empty());
        },
        Field::Asn => {
            lemma_key_order(out[i].archive_serial_number, out[j].archive_serial_number, Seq::empty(), Seq::empty());
        },
        Field::Correspondent => {
            if by_name {
                lemma_text_key_le(names[out[i].correspondent]@, names[out[j].correspondent]@);
            } else {
                lemma_key_order(out[i].correspondent, out[j].correspondent, Seq::empty(), Seq::empty());
            }
        },
        Field::Title => {
            lemma_text_key_le(out[i].title, out[j].title);
        },
        Field::CreatedDate => {
            lemma_text_key_le(out[i].created_date, out[j].created_date);
        },
    }
}

} // verus!
