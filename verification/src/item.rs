use vstd::prelude::*;

verus! {

/// One entry of the collection: an opaque identifier, a display label,
/// and the text payload that activation copies out.
#[derive(Debug, PartialEq, Eq)]
pub struct LinkItem {
    pub id: String,
    pub name: String,
    pub url: String,
}

impl Clone for LinkItem {
    fn clone(&self) -> (r: Self)
        ensures
            r == *self,
    {
        let r = LinkItem { id: self.id.clone(), name: self.name.clone(), url: self.url.clone() };
        proof {
            assert(r == *self);
        }
        r
    }
}

/// The mathematical value of a `LinkItem`: its three fields as
/// character sequences.
#[verifier::ext_equal]
pub struct LinkModel {
    pub id: Seq<char>,
    pub name: Seq<char>,
    pub url: Seq<char>,
}

impl View for LinkItem {
    type V = LinkModel;

    open spec fn view(&self) -> LinkModel {
        LinkModel { id: self.id@, name: self.name@, url: self.url@ }
    }
}

/// Builds the mathematical value of an item from its three fields.
pub open spec fn link_model(id: Seq<char>, name: Seq<char>, url: Seq<char>) -> LinkModel {
    LinkModel { id, name, url }
}

/// The mathematical value of a whole collection, in display order.
pub open spec fn links_view(links: Seq<LinkItem>) -> Seq<LinkModel> {
    links.map_values(|l: LinkItem| l@)
}

/// Whether some item of `s` carries the identifier `id`.
pub open spec fn contains_id(s: Seq<LinkModel>, id: Seq<char>) -> bool {
    exists|j: int| 0 <= j < s.len() && s[j].id == id
}

/// Identifiers are pairwise distinct: the collection invariant.
pub open spec fn unique_ids(s: Seq<LinkModel>) -> bool {
    forall|j: int, k: int| 0 <= j < k < s.len() ==> s[j].id != s[k].id
}

} // verus!
