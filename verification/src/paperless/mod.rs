//! Talking to a Paperless instance: which pages to ask for, and what to keep
//! of each answer.

pub mod documents;

use std::collections::HashMap;
use vstd::prelude::*;
use vstd::string::*;
use crate::correspondents::{correspondent_views, Correspondent, CorrespondentView};
use crate::text::str_equal;

verus! {

broadcast use vstd::std_specs::hash::group_hash_axioms;

/// The kinds of list that the Paperless API serves.
pub enum PaperlessType {
    Correspondents,
    Documents,
}

/// The address of the first page of the correspondent list of the API at
/// `paperless_url`.
pub open spec fn correspondents_url_spec(paperless_url: Seq<char>) -> Seq<char> {
    paperless_url + "/correspondents/"@
}

/// The address of the first page of the documents whose archive serial
/// number lies between `asn_from` and `asn_to`.
pub open spec fn documents_url_spec(paperless_url: Seq<char>, asn_from: Seq<char>, asn_to: Seq<char>) -> Seq<
    char,
> {
    paperless_url + "/documents/?query=asn:["@ + asn_from + " TO "@ + asn_to + "]"@
}

/// The address of the first page of the correspondent list.
pub fn correspondents_url(paperless_url: &str) -> (url: String)
    ensures
        url@ == correspondents_url_spec(paperless_url@),
{
    let mut url = String::from_str(paperless_url);
    url.append("/correspondents/");
    url
}

/// The address of the first page of the documents whose archive serial
/// number lies between `asn_from` and `asn_to`.
pub fn documents_url(paperless_url: &str, asn_from: &str, asn_to: &str) -> (url: String)
    ensures
        url@ == documents_url_spec(paperless_url@, asn_from@, asn_to@),
{
    let mut url = String::from_str(paperless_url);
    url.append("/documents/?query=asn:[");
    url.append(asn_from);
    url.append(" TO ");
    url.append(asn_to);
    url.append("]");
    url
}

/// `url` with a leading "http://" replaced by "https://"; any other address
/// unchanged.
pub open spec fn secure_url(url: Seq<char>) -> Seq<char> {
    if "http://"@.is_prefix_of(url) {
        "https://"@ + url.skip("http://"@.len() as int)
    } else {
        url
    }
}

/// `url` with a leading "http://" replaced by "https://".
pub fn force_https(url: &str) -> (res: String)
    ensures
        res@ == secure_url(url@),
{
    proof {
        reveal_strlit("http://");
    }
    let n = url.unicode_len();
    if n >= 7 && str_equal(url.substring_char(0, 7), "http://") {
        let mut res = String::from_str("https://");
        res.append(url.substring_char(7, n));
        proof {
            assert("http://"@.is_prefix_of(url@)) by {
                assert(url@.subrange(0, 7) =~= "http://"@);
            }
        }
        res
    } else {
        proof {
            if "http://"@.is_prefix_of(url@) {
                assert(url@.subrange(0, 7) =~= "http://"@);
            }
        }
        String::from_str(url)
    }
}

/// Making an address secure twice changes nothing more than doing it once.
pub proof fn lemma_secure_url_idempotent(url: Seq<char>)
    ensures
        secure_url(secure_url(url)) == secure_url(url),
{
    reveal_strlit("http://");
    reveal_strlit("https://");
    if "http://"@.is_prefix_of(url) {
        let s = secure_url(url);
        assert(s[4] == 's');
        assert(!"http://"@.is_prefix_of(s)) by {
            if "http://"@.is_prefix_of(s) {
                assert("http://"@[4] == s[4]);
            }
        }
    }
}

/// The walk over a paginated list: the address of the page still to fetch,
/// and the items of the pages fetched so far.
pub struct Pager<T> {
    pub next: Option<String>,
    pub items: Vec<T>,
}

impl<T> Pager<T> {
    /// A walk that starts at `first` with nothing fetched yet.
    pub fn new(first: String) -> (p: Self)
        ensures
            p.next == Some(first),
            p.items@ == Seq::<T>::empty(),
    {
        Pager { next: Some(first), items: Vec::new() }
    }

    /// The address to fetch next, made secure; `None` once the last page is in.
    pub fn next_request(&self) -> (r: Option<String>)
        ensures
            match self.next {
                None => r is None,
                Some(url) => r is Some && r->0@ == secure_url(url@),
            },
    {
        match &self.next {
            None => None,
            Some(url) => Some(force_https(url.as_str())),
        }
    }

    /// Takes in a fetched page: its items go after those already in, and its
    /// link to the following page becomes the next address.
    pub fn receive(&mut self, next: Option<String>, results: Vec<T>)
        ensures
            final(self).next == next,
            final(self).items@ == old(self).items@ + results@,
    {
        let mut results = results;
        self.next = next;
        self.items.append(&mut results);
    }

    /// The items of every page fetched, in order.
    pub fn into_items(self) -> (items: Vec<T>)
        ensures
            items@ == self.items@,
    {
        self.items
    }
}

/// The names of the correspondents by id; where an id occurs twice, the later
/// name holds.
pub open spec fn names_by_id(cs: Seq<CorrespondentView>) -> Map<u64, Seq<char>>
    decreases cs.len(),
{
    if cs.len() == 0 {
        Map::empty()
    } else {
        names_by_id(cs.drop_last()).insert(cs.last().id, cs.last().name)
    }
}

/// The names that a map of strings holds, as character sequences.
pub open spec fn name_views(m: Map<u64, String>) -> Map<u64, Seq<char>> {
    m.map_values(|s: String| s@)
}

/// The map from correspondent id to name.
pub fn correspondent_names(correspondents: Vec<Correspondent>) -> (names: HashMap<u64, String>)
    ensures
        name_views(names@) == names_by_id(correspondent_views(correspondents@)),
{
    let ghost cs = correspondent_views(correspondents@);
    let mut names: HashMap<u64, String> = HashMap::new();
    let n = correspondents.len();
    let mut i: usize = 0;
    proof {
        assert(name_views(names@) =~= names_by_id(cs.take(0)));
    }
    while i < n
        invariant
            n == correspondents@.len(),
            cs == correspondent_views(correspondents@),
            i <= n,
            name_views(names@) == names_by_id(cs.take(i as int)),
        decreases n - i,
    {
        let id = correspondents[i].id;
        let name = correspondents[i].name.clone();
        let ghost before = names@;
        names.insert(id, name);
        proof {
            assert(cs.take(i + 1).drop_last() =~= cs.take(i as int));
            assert(name_views(names@) =~= name_views(before).insert(id, cs[i as int].name));
        }
        i = i + 1;
    }
    proof {
        assert(cs.take(n as int) =~= cs);
    }
    names
}

/// Every correspondent's id is in the map, and it maps to the name of the last
/// correspondent with that id.
pub proof fn lemma_names_by_id_last(cs: Seq<CorrespondentView>, k: int)
    requires
        0 <= k < cs.len(),
    ensures
        names_by_id(cs).contains_key(cs[k].id),
        (forall|l: int| k < l < cs.len() ==> (#[trigger] cs[l]).id != cs[k].id) ==> names_by_id(cs)[cs[k].id]
            == cs[k].name,
    decreases cs.len(),
{
    if k < cs.len() - 1 {
        lemma_names_by_id_last(cs.drop_last(), k);
        if forall|l: int| k < l < cs.len() ==> (#[trigger] cs[l]).id != cs[k].id {
            assert(cs.last().id != cs[k].id);
            assert forall|l: int| k < l < cs.drop_last().len() implies (#[trigger] cs.drop_last()[l]).id
                != cs.drop_last()[k].id by {
                assert(cs.drop_last()[l] == cs[l]);
            }
        }
    }
}

/// The first page of the correspondent list lies under the API's address.
pub proof fn lemma_correspondents_url_parts(paperless_url: Seq<char>)
    ensures
        correspondents_url_spec(paperless_url).len() == paperless_url.len() + "/correspondents/"@.len(),
        correspondents_url_spec(paperless_url).subrange(0, paperless_url.len() as int) == paperless_url,
        correspondents_url_spec(paperless_url).skip(paperless_url.len() as int) == "/correspondents/"@,
{
    let u = correspondents_url_spec(paperless_url);
    assert(u.subrange(0, paperless_url.len() as int) =~= paperless_url);
    assert(u.skip(paperless_url.len() as int) =~= "/correspondents/"@);
}

/// The document query carries the API's address and both bounds of the range
/// unchanged: the address, "/documents/?query=asn:[", the lower bound,
/// " TO ", the upper bound and a closing "]", in that order.
pub proof fn lemma_documents_url_parts(paperless_url: Seq<char>, asn_from: Seq<char>, asn_to: Seq<char>)
    ensures
        ({
            let u = documents_url_spec(paperless_url, asn_from, asn_to);
            let a: int = (paperless_url.len() + "/documents/?query=asn:["@.len()) as int;
            let b: int = a + asn_from.len();
            let c: int = b + " TO "@.len();
            &&& u.len() == c + asn_to.len() + 1
            &&& u.subrange(0, paperless_url.len() as int) == paperless_url
            &&& u.subrange(paperless_url.len() as int, a) == "/documents/?query=asn:["@
            &&& u.subrange(a, b) == asn_from
            &&& u.subrange(b, c) == " TO "@
            &&& u.subrange(c, c + asn_to.len()) == asn_to
            &&& u[u.len() - 1] == ']'
        }),
{
    reveal_strlit("]");
    let u = documents_url_spec(paperless_url, asn_from, asn_to);
    let a: int = (paperless_url.len() + "/documents/?query=asn:["@.len()) as int;
    let b: int = a + asn_from.len();
    let c: int = b + " TO "@.len();
    assert(u.subrange(0, paperless_url.len() as int) =~= paperless_url);
    assert(u.subrange(paperless_url.len() as int, a) =~= "/documents/?query=asn:["@);
    assert(u.subrange(a, b) =~= asn_from);
    assert(u.subrange(b, c) =~= " TO "@);
    assert(u.subrange(c, c + asn_to.len()) =~= asn_to);
}

/// A secure address starts with "https://" wherever the given one started
/// with "http://", keeps everything after the scheme, and never starts with
/// "http://".
pub proof fn lemma_secure_url_parts(url: Seq<char>)
    ensures
        !"http://"@.is_prefix_of(secure_url(url)),
        "http://"@.is_prefix_of(url) ==> "https://"@.is_prefix_of(secure_url(url)) && secure_url(url).len() == url.len()
            + 1 && secure_url(url).skip(8) == url.skip(7),
        !"http://"@.is_prefix_of(url) ==> secure_url(url) == url,
{
    reveal_strlit("http://");
    reveal_strlit("https://");
    if "http://"@.is_prefix_of(url) {
        let s = secure_url(url);
        assert(s[4] == 's');
        assert(!"http://"@.is_prefix_of(s)) by {
            if "http://"@.is_prefix_of(s) {
                assert("http://"@[4] == s[4]);
            }
        }
        assert("https://"@.is_prefix_of(s)) by {
            assert(s.subrange(0, 8) =~= "https://"@);
        }
        assert(s.skip(8) =~= url.skip(7));
    }
}

} // verus!
