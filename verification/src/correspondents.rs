//! Correspondents as the Paperless API lists them.

use vstd::prelude::*;

verus! {

/// One page of the correspondent list.
#[derive(Debug)]
pub struct Correspondents {
    pub count: u64,
    pub next: Option<u64>,
    pub previous: Option<u64>,
    pub all: Vec<u64>,
    pub results: Vec<Correspondent>,
}

/// A correspondent: the sender or recipient of documents.
#[derive(Debug)]
pub struct Correspondent {
    pub id: u64,
    pub slug: String,
    pub name: String,
}

/// The value of a [`Correspondent`].
pub struct CorrespondentView {
    pub id: u64,
    pub slug: Seq<char>,
    pub name: Seq<char>,
}

impl View for Correspondent {
    type V = CorrespondentView;

    open spec fn view(&self) -> CorrespondentView {
        CorrespondentView { id: self.id, slug: self.slug@, name: self.name@ }
    }
}

impl Clone for Correspondent {
    fn clone(&self) -> (res: Self)
        ensures
            res@ == self@,
    {
        Correspondent { id: self.id, slug: self.slug.clone(), name: self.name.clone() }
    }
}

/// The values of a sequence of correspondents.
pub open spec fn correspondent_views(cs: Seq<Correspondent>) -> Seq<CorrespondentView> {
    cs.map_values(|c: Correspondent| c@)
}

} // verus!
