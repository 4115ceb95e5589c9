use vstd::prelude::*;

use crate::item::{contains_id, link_model, links_view, unique_ids, LinkItem, LinkModel};

verus! {

/// `k` is the position of the first item of `s` that carries `id`.
pub open spec fn is_first_match(s: Seq<LinkModel>, id: Seq<char>, k: int) -> bool {
    &&& 0 <= k < s.len()
    &&& s[k].id == id
    &&& forall|j: int| 0 <= j < k ==> s[j].id != id
}

/// Relies on `uuid::Uuid::new_v4` and its `Display` form: a freshly drawn
/// random version-4 identifier, rendered as the 36-character hyphenated
/// text form. Nothing is promised about the drawn value itself.
#[verifier::external_body]
fn fresh_id() -> (r: String)
    ensures
        r@.len() == 36,
{
    uuid::Uuid::new_v4().to_string()
}

/// Position of the first item of `links` whose id equals `id`, if any.
fn find_by_id(links: &Vec<LinkItem>, id: &String) -> (r: Option<usize>)
    ensures
        match r {
            Some(k) => is_first_match(links_view(links@), id@, k as int),
            None => !contains_id(links_view(links@), id@),
        },
{
    let mut i: usize = 0;
    while i < links.len()
        invariant
            i <= links@.len(),
            forall|j: int| 0 <= j < i ==> links_view(links@)[j].id != id@,
        decreases links@.len() - i,
    {
        if links[i].id == *id {
            return Some(i);
        }
        i = i + 1;
    }
    None
}

/// Prepends a new item built from the three given fields.
pub fn add_link_item_with_id(links: Vec<LinkItem>, id: String, name: String, url: String) -> (r:
    Vec<LinkItem>)
    ensures
        links_view(r@) == seq![LinkModel { id: id@, name: name@, url: url@ }] + links_view(links@),
{
    let ghost before = links_view(links@);
    let ghost m = LinkModel { id: id@, name: name@, url: url@ };
    let mut links = links;
    links.insert(0, LinkItem { id, name, url });
    proof {
        assert(links_view(links@) =~~= seq![m] + before);
    }
    links
}

/// Creates an item under a freshly generated identifier and prepends it:
/// new items appear first, every prior item keeps its place and fields.
pub fn add_link_item(links: Vec<LinkItem>, name: String, url: String) -> (r: Vec<LinkItem>)
    ensures
        r@.len() == links@.len() + 1,
        r@[0]@.name == name@,
        r@[0]@.url == url@,
        r@[0]@.id.len() == 36,
        links_view(r@) == seq![r@[0]@] + links_view(links@),
        links_view(r@).skip(1) == links_view(links@),
{
    let id = fresh_id();
    let r = add_link_item_with_id(links, id, name, url);
    proof {
        assert(links_view(r@).len() == r@.len());
        assert(links_view(r@)[0] == r@[0]@);
        assert(links_view(r@).skip(1) =~~= links_view(links@));
    }
    r
}

/// Replaces the name and url of the first item carrying `id`, in place;
/// when no item carries `id` the collection comes back unchanged.
pub fn update_link_item(links: Vec<LinkItem>, id: &str, name: String, url: String) -> (r: Vec<
    LinkItem,
>)
    ensures
        r@.len() == links@.len(),
        forall|j: int|
            0 <= j < links@.len() ==> links_view(r@)[j].id == links_view(links@)[j].id,
        !contains_id(links_view(links@), id@) ==> links_view(r@) == links_view(links@),
        forall|k: int|
            is_first_match(links_view(links@), id@, k) ==> links_view(r@) == links_view(
                links@,
            ).update(k, link_model(id@, name@, url@)),
{
    let ghost before = links_view(links@);
    let id_key: String = id.to_owned();
    let mut links = links;
    match find_by_id(&links, &id_key) {
        Some(k) => {
            let hit = links.remove(k);
            links.insert(k, LinkItem { id: hit.id, name, url });
            proof {
                assert(links_view(links@) =~~= before.update(
                    k as int,
                    LinkModel { id: id@, name: name@, url: url@ },
                ));
            }
            links
        },
        None => {
            proof {
                assert(links_view(links@) =~~= before);
            }
            links
        },
    }
}

/// The subsequence of `s` made of the items that do not carry `id`, in
/// their original relative order.
pub open spec fn spec_delete(s: Seq<LinkModel>, id: Seq<char>) -> Seq<LinkModel>
    decreases s.len(),
{
    if s.len() == 0 {
        s
    } else {
        let rest = spec_delete(s.drop_last(), id);
        if s.last().id == id {
            rest
        } else {
            rest.push(s.last())
        }
    }
}

/// Removes every item carrying `id` (at most one, under the uniqueness
/// invariant); all surviving items keep their relative order. When no
/// item carries `id` the collection comes back unchanged.
pub fn delete_link_item(links: Vec<LinkItem>, id: &str) -> (r: Vec<LinkItem>)
    ensures
        links_view(r@) == spec_delete(links_view(links@), id@),
        !contains_id(links_view(links@), id@) ==> links_view(r@) == links_view(links@),
{
    let ghost s = links_view(links@);
    let id_key: String = id.to_owned();
    let mut out: Vec<LinkItem> = Vec::new();
    let mut i: usize = 0;
    proof {
        assert(links_view(out@) =~~= spec_delete(s.take(0), id@));
    }
    while i < links.len()
        invariant
            i <= links@.len(),
            s == links_view(links@),
            id_key@ == id@,
            links_view(out@) == spec_delete(s.take(i as int), id@),
        decreases links@.len() - i,
    {
        let ghost out_before = links_view(out@);
        let keep = !(links[i].id == id_key);
        if keep {
            out.push(links[i].clone());
        }
        proof {
            let t = s.take(i + 1);
            assert(t.drop_last() =~~= s.take(i as int));
            assert(t.last() == s[i as int]);
            assert(s[i as int] == links@[i as int]@);
            if keep {
                assert(links_view(out@) =~~= out_before.push(s[i as int]));
            } else {
                assert(links_view(out@) == out_before);
            }
            assert(links_view(out@) =~~= spec_delete(t, id@));
        }
        i = i + 1;
    }
    proof {
        assert(s.take(links@.len() as int) =~~= s);
        if !contains_id(s, id@) {
            lemma_delete_missing_identity(s, id@);
        }
    }
    out
}

/// Index of the first item of `s` carrying `id` (meaningful only when
/// some item does).
pub open spec fn first_match_idx(s: Seq<LinkModel>, id: Seq<char>) -> int
    decreases s.len(),
{
    if s.len() == 0 {
        0
    } else if s[0].id == id {
        0
    } else {
        1 + first_match_idx(s.drop_first(), id)
    }
}

/// The first match is unique, so `first_match_idx` finds it.
pub proof fn lemma_first_match_idx(s: Seq<LinkModel>, id: Seq<char>, k: int)
    requires
        is_first_match(s, id, k),
    ensures
        first_match_idx(s, id) == k,
    decreases s.len(),
{
    if s[0].id == id {
        if k > 0 {
            assert(s[0].id != id);
        }
    } else {
        assert(forall|j: int|
            0 <= j < s.drop_first().len() ==> s.drop_first()[j] == s[j + 1]);
        assert(is_first_match(s.drop_first(), id, k - 1));
        lemma_first_match_idx(s.drop_first(), id, k - 1);
    }
}

/// The meaning of the reorder operation: for each id of `ids` in turn,
/// the first matching item still unmoved goes to the output next; ids
/// with no match are skipped; items never mentioned follow at the end
/// in their original relative order.
pub open spec fn spec_reorder(s: Seq<LinkModel>, ids: Seq<Seq<char>>) -> Seq<LinkModel>
    decreases ids.len(),
{
    if ids.len() == 0 {
        s
    } else if contains_id(s, ids[0]) {
        let k = first_match_idx(s, ids[0]);
        seq![s[k]] + spec_reorder(s.remove(k), ids.drop_first())
    } else {
        spec_reorder(s, ids.drop_first())
    }
}

/// Rebuilds the collection in the order the given ids ask for: matched
/// ids come first in that order, unknown ids are skipped, and items not
/// mentioned keep their relative order after all matched ones.
pub fn reorder_link_items(links: Vec<LinkItem>, ordered_ids: Vec<String>) -> (r: Vec<LinkItem>)
    ensures
        links_view(r@) == spec_reorder(links_view(links@), ordered_ids.deep_view()),
{
    let ghost s0 = links_view(links@);
    let ghost ids = ordered_ids.deep_view();
    let mut remaining = links;
    let mut reordered: Vec<LinkItem> = Vec::new();
    let mut n: usize = 0;
    proof {
        assert(ids.skip(0) =~~= ids);
    }
    while n < ordered_ids.len()
        invariant
            n <= ordered_ids@.len(),
            ids == ordered_ids.deep_view(),
            links_view(reordered@) + spec_reorder(links_view(remaining@), ids.skip(n as int))
                == spec_reorder(s0, ids),
        decreases ordered_ids@.len() - n,
    {
        let ghost rem = links_view(remaining@);
        let ghost done = links_view(reordered@);
        proof {
            assert(ids.skip(n as int)[0] == ids[n as int]);
            assert(ids.skip(n as int).drop_first() =~~= ids.skip(n + 1));
            assert(ordered_ids@[n as int]@ == ids[n as int]);
        }
        match find_by_id(&remaining, &ordered_ids[n]) {
            Some(k) => {
                let moved = remaining.remove(k);
                reordered.push(moved);
                proof {
                    assert(rem[k as int].id == ids[n as int]);
                    assert(contains_id(rem, ids[n as int]));
                    lemma_first_match_idx(rem, ids[n as int], k as int);
                    assert(links_view(remaining@) =~~= rem.remove(k as int));
                    assert(links_view(reordered@) =~~= done.push(rem[k as int]));
                    assert(done.push(rem[k as int]) + spec_reorder(
                        rem.remove(k as int),
                        ids.skip(n + 1),
                    ) =~~= done + (seq![rem[k as int]] + spec_reorder(
                        rem.remove(k as int),
                        ids.skip(n + 1),
                    )));
                }
            },
            None => {
                proof {
                    assert(spec_reorder(rem, ids.skip(n as int)) == spec_reorder(
                        rem,
                        ids.skip(n + 1),
                    ));
                }
            },
        }
        n = n + 1;
    }
    proof {
        assert(ids.skip(ordered_ids@.len() as int) =~~= Seq::<Seq<char>>::empty());
    }
    reordered.append(&mut remaining);
    proof {
        assert(links_view(reordered@) =~~= spec_reorder(s0, ids));
    }
    reordered
}

/// Identifiers of the items of `s`, in collection order.
pub open spec fn ids_of(s: Seq<LinkModel>) -> Seq<Seq<char>> {
    s.map_values(|m: LinkModel| m.id)
}

/// Law: adding under an identifier that no item of `s` carries grows the
/// collection by one at the front, gives the new item the supplied
/// fields, leaves the rest untouched, and keeps identifiers unique.
pub proof fn lemma_add_fresh(s: Seq<LinkModel>, id: Seq<char>, name: Seq<char>, url: Seq<char>)
    requires
        !contains_id(s, id),
    ensures
        (seq![link_model(id, name, url)] + s).len() == s.len() + 1,
        (seq![link_model(id, name, url)] + s)[0] == link_model(id, name, url),
        !contains_id(s, (seq![link_model(id, name, url)] + s)[0].id),
        (seq![link_model(id, name, url)] + s).skip(1) == s,
        unique_ids(s) ==> unique_ids(seq![link_model(id, name, url)] + s),
{
    let r = seq![link_model(id, name, url)] + s;
    assert(r.skip(1) =~~= s);
    if unique_ids(s) {
        assert forall|j: int, k: int| 0 <= j < k < r.len() implies r[j].id != r[k].id by {
            if j == 0 {
                assert(r[k] == s[k - 1]);
                assert(s[k - 1].id != id);
            } else {
                assert(r[j] == s[j - 1]);
                assert(r[k] == s[k - 1]);
            }
        }
    }
}

/// When some item carries `id`, `first_match_idx` names the first one.
pub proof fn lemma_first_match_exists(s: Seq<LinkModel>, id: Seq<char>)
    requires
        contains_id(s, id),
    ensures
        is_first_match(s, id, first_match_idx(s, id)),
    decreases s.len(),
{
    if s[0].id == id {
    } else {
        assert(contains_id(s.drop_first(), id)) by {
            let w = choose|w: int| 0 <= w < s.len() && s[w].id == id;
            assert(s.drop_first()[w - 1].id == id);
        }
        lemma_first_match_exists(s.drop_first(), id);
        assert(forall|j: int|
            0 <= j < s.drop_first().len() ==> s.drop_first()[j] == s[j + 1]);
        let k1 = first_match_idx(s.drop_first(), id);
        assert(first_match_idx(s, id) == 1 + k1);
        assert(s[1 + k1].id == id);
        assert forall|j: int| 0 <= j < 1 + k1 implies s[j].id != id by {
            if j > 0 {
                assert(s.drop_first()[j - 1].id != id);
            }
        }
    }
}

/// Deleting the only match is the same as removing it by position.
proof fn lemma_delete_eq_remove(s: Seq<LinkModel>, id: Seq<char>, k: int)
    requires
        is_first_match(s, id, k),
        forall|j: int| 0 <= j < s.len() && j != k ==> s[j].id != id,
    ensures
        spec_delete(s, id) == s.remove(k),
    decreases s.len(),
{
    let n = s.len() as int;
    if k == n - 1 {
        assert(s.last().id == id);
        assert(!contains_id(s.drop_last(), id)) by {
            assert(forall|j: int| 0 <= j < n - 1 ==> s.drop_last()[j] == s[j]);
        }
        lemma_delete_missing_identity(s.drop_last(), id);
        assert(spec_delete(s, id) =~~= s.remove(k));
    } else {
        assert(s.last().id != id);
        assert(forall|j: int| 0 <= j < n - 1 ==> s.drop_last()[j] == s[j]);
        assert(is_first_match(s.drop_last(), id, k));
        lemma_delete_eq_remove(s.drop_last(), id, k);
        assert(spec_delete(s, id) =~~= s.remove(k));
    }
}

/// Law: deleting an identifier that exactly one item carries shortens
/// the collection by one, removes that item, and keeps all surviving
/// items in their original relative order, identifiers still unique.
pub proof fn lemma_delete_present(s: Seq<LinkModel>, id: Seq<char>, k: int)
    requires
        unique_ids(s),
        is_first_match(s, id, k),
    ensures
        spec_delete(s, id) == s.remove(k),
        spec_delete(s, id).len() == s.len() - 1,
        !contains_id(spec_delete(s, id), id),
        unique_ids(spec_delete(s, id)),
{
    assert(forall|j: int| 0 <= j < s.len() && j != k ==> s[j].id != id);
    lemma_delete_eq_remove(s, id, k);
    s.remove_ensures(k);
    let r = s.remove(k);
    assert(!contains_id(r, id)) by {
        assert forall|j: int| 0 <= j < r.len() implies r[j].id != id by {
            if j < k {
                assert(r[j] == s[j]);
            } else {
                assert(r[j] == s[j + 1]);
            }
        }
    }
    assert(unique_ids(r)) by {
        assert forall|j: int, m: int| 0 <= j < m < r.len() implies r[j].id != r[m].id by {
            let j0 = if j < k {
                j
            } else {
                j + 1
            };
            let m0 = if m < k {
                m
            } else {
                m + 1
            };
            assert(r[j] == s[j0]);
            assert(r[m] == s[m0]);
        }
    }
}

/// Law: reordering by a permutation of all identifiers yields exactly
/// that identifier order.
pub proof fn lemma_reorder_permutation(s: Seq<LinkModel>, ids: Seq<Seq<char>>)
    requires
        unique_ids(s),
        ids.no_duplicates(),
        forall|j: int| 0 <= j < ids.len() ==> contains_id(s, #[trigger] ids[j]),
        forall|j: int| 0 <= j < s.len() ==> ids.contains(#[trigger] s[j].id),
    ensures
        ids_of(spec_reorder(s, ids)) == ids,
    decreases ids.len(),
{
    if ids.len() == 0 {
        if s.len() > 0 {
            assert(ids.contains(s[0].id));
        }
        assert(ids_of(spec_reorder(s, ids)) =~~= ids);
    } else {
        let id0 = ids[0];
        let k = first_match_idx(s, id0);
        lemma_first_match_exists(s, id0);
        let s1 = s.remove(k);
        let ids1 = ids.drop_first();
        s.remove_ensures(k);
        assert(unique_ids(s1)) by {
            assert forall|j: int, m: int| 0 <= j < m < s1.len() implies s1[j].id != s1[m].id by {
                let j0 = if j < k {
                    j
                } else {
                    j + 1
                };
                let m0 = if m < k {
                    m
                } else {
                    m + 1
                };
                assert(s1[j] == s[j0]);
                assert(s1[m] == s[m0]);
            }
        }
        assert forall|j: int| 0 <= j < ids1.len() implies contains_id(s1, #[trigger] ids1[j]) by {
            assert(ids1[j] == ids[j + 1]);
            assert(contains_id(s, ids[j + 1]));
            let w = choose|w: int| 0 <= w < s.len() && s[w].id == ids[j + 1];
            assert(ids[j + 1] != id0);
            assert(w != k);
            if w < k {
                assert(s1[w] == s[w]);
                assert(s1[w].id == ids1[j]);
            } else {
                assert(s1[w - 1] == s[w]);
                assert(s1[w - 1].id == ids1[j]);
            }
        }
        assert forall|j: int| 0 <= j < s1.len() implies ids1.contains(#[trigger] s1[j].id) by {
            let j0 = if j < k {
                j
            } else {
                j + 1
            };
            assert(s1[j] == s[j0]);
            assert(ids.contains(s[j0].id));
            let p = choose|p: int| 0 <= p < ids.len() && ids[p] == s[j0].id;
            assert(s[j0].id != s[k].id);
            assert(p != 0);
            assert(ids1[p - 1] == ids[p]);
        }
        lemma_reorder_permutation(s1, ids1);
        let r = spec_reorder(s, ids);
        assert(r == seq![s[k]] + spec_reorder(s1, ids1));
        assert(ids_of(r) =~~= ids) by {
            assert(ids_of(spec_reorder(s1, ids1)) == ids1);
            assert forall|j: int| 0 <= j < ids.len() implies ids_of(r)[j] == ids[j] by {
                if j == 0 {
                    assert(r[0] == s[k]);
                } else {
                    assert(r[j] == spec_reorder(s1, ids1)[j - 1]);
                    assert(ids_of(spec_reorder(s1, ids1))[j - 1] == ids1[j - 1]);
                }
            }
        }
    }
}

/// The items of `s` whose identifiers `ids` never mentions, in their
/// original relative order.
pub open spec fn unmentioned(s: Seq<LinkModel>, ids: Seq<Seq<char>>) -> Seq<LinkModel>
    decreases s.len(),
{
    if s.len() == 0 {
        s
    } else {
        let rest = unmentioned(s.drop_last(), ids);
        if ids.contains(s.last().id) {
            rest
        } else {
            rest.push(s.last())
        }
    }
}

/// Dropping the head id from `ids` does not change which items count as
/// unmentioned, as long as no item carries that head id.
proof fn lemma_unmentioned_drop_head(t: Seq<LinkModel>, ids: Seq<Seq<char>>)
    requires
        ids.len() > 0,
        forall|j: int| 0 <= j < t.len() ==> t[j].id != ids[0],
    ensures
        unmentioned(t, ids) == unmentioned(t, ids.drop_first()),
    decreases t.len(),
{
    if t.len() > 0 {
        assert(forall|j: int| 0 <= j < t.len() - 1 ==> t.drop_last()[j] == t[j]);
        lemma_unmentioned_drop_head(t.drop_last(), ids);
        assert(t.last() == t[t.len() - 1]);
        assert(ids.contains(t.last().id) == ids.drop_first().contains(t.last().id)) by {
            if ids.contains(t.last().id) {
                let p = choose|p: int| 0 <= p < ids.len() && ids[p] == t.last().id;
                assert(p != 0);
                assert(ids.drop_first()[p - 1] == ids[p]);
            }
            if ids.drop_first().contains(t.last().id) {
                let p = choose|p: int|
                    0 <= p < ids.drop_first().len() && ids.drop_first()[p] == t.last().id;
                assert(ids[p + 1] == ids.drop_first()[p]);
            }
        }
    }
}

/// Removing a mentioned item does not change the unmentioned items.
proof fn lemma_unmentioned_remove(s: Seq<LinkModel>, ids: Seq<Seq<char>>, k: int)
    requires
        0 <= k < s.len(),
        ids.contains(s[k].id),
    ensures
        unmentioned(s, ids) == unmentioned(s.remove(k), ids),
    decreases s.len(),
{
    let n = s.len() as int;
    s.remove_ensures(k);
    if k == n - 1 {
        assert(s.last() == s[k]);
        assert(s.remove(k) =~~= s.drop_last());
    } else {
        assert(s.remove(k).last() == s.last());
        assert(s.remove(k).drop_last() =~~= s.drop_last().remove(k)) by {
            s.drop_last().remove_ensures(k);
            assert(forall|j: int| 0 <= j < n - 1 ==> s.drop_last()[j] == s[j]);
        }
        assert(forall|j: int| 0 <= j < n - 1 ==> s.drop_last()[j] == s[j]);
        lemma_unmentioned_remove(s.drop_last(), ids, k);
    }
}

/// Law: reordering by ids that all match distinct items keeps the
/// collection's length, puts the named items first in the given order,
/// and appends every unmentioned item afterwards in original order.
pub proof fn lemma_reorder_partial(s: Seq<LinkModel>, ids: Seq<Seq<char>>)
    requires
        unique_ids(s),
        ids.no_duplicates(),
        forall|j: int| 0 <= j < ids.len() ==> contains_id(s, #[trigger] ids[j]),
    ensures
        ids.len() <= s.len(),
        spec_reorder(s, ids).len() == s.len(),
        ids_of(spec_reorder(s, ids)).take(ids.len() as int) == ids,
        spec_reorder(s, ids).skip(ids.len() as int) == unmentioned(s, ids),
    decreases ids.len(),
{
    let r = spec_reorder(s, ids);
    if ids.len() == 0 {
        assert(r == s);
        assert(ids_of(r).take(0) =~~= ids);
        assert(r.skip(0) =~~= r);
        lemma_unmentioned_empty(s, ids);
    } else {
        let id0 = ids[0];
        let k = first_match_idx(s, id0);
        lemma_first_match_exists(s, id0);
        let s1 = s.remove(k);
        let ids1 = ids.drop_first();
        s.remove_ensures(k);
        assert(unique_ids(s1)) by {
            assert forall|j: int, m: int| 0 <= j < m < s1.len() implies s1[j].id != s1[m].id by {
                let j0 = if j < k {
                    j
                } else {
                    j + 1
                };
                let m0 = if m < k {
                    m
                } else {
                    m + 1
                };
                assert(s1[j] == s[j0]);
                assert(s1[m] == s[m0]);
            }
        }
        assert forall|j: int| 0 <= j < ids1.len() implies contains_id(s1, #[trigger] ids1[j]) by {
            assert(ids1[j] == ids[j + 1]);
            assert(contains_id(s, ids[j + 1]));
            let w = choose|w: int| 0 <= w < s.len() && s[w].id == ids[j + 1];
            assert(ids[j + 1] != id0);
            assert(w != k);
            if w < k {
                assert(s1[w] == s[w]);
                assert(s1[w].id == ids1[j]);
            } else {
                assert(s1[w - 1] == s[w]);
                assert(s1[w - 1].id == ids1[j]);
            }
        }
        lemma_reorder_partial(s1, ids1);
        assert(r == seq![s[k]] + spec_reorder(s1, ids1));
        let r1 = spec_reorder(s1, ids1);
        assert(r.len() == s.len());
        assert(ids_of(r).take(ids.len() as int) =~~= ids) by {
            assert forall|j: int| 0 <= j < ids.len() implies ids_of(r)[j] == ids[j] by {
                if j == 0 {
                    assert(r[0] == s[k]);
                } else {
                    assert(r[j] == r1[j - 1]);
                    assert(ids_of(r1).take(ids1.len() as int)[j - 1] == ids1[j - 1]);
                    assert(ids_of(r1)[j - 1] == ids1[j - 1]);
                }
            }
        }
        assert(r.skip(ids.len() as int) =~~= r1.skip(ids1.len() as int));
        assert(unmentioned(s1, ids1) == unmentioned(s, ids)) by {
            assert forall|j: int| 0 <= j < s1.len() implies s1[j].id != id0 by {
                let j0 = if j < k {
                    j
                } else {
                    j + 1
                };
                assert(s1[j] == s[j0]);
                assert(s[j0].id != s[k].id);
            }
            lemma_unmentioned_drop_head(s1, ids);
            lemma_unmentioned_remove(s, ids, k);
        }
    }
}

/// With no ids given, every item counts as unmentioned.
proof fn lemma_unmentioned_empty(s: Seq<LinkModel>, ids: Seq<Seq<char>>)
    requires
        ids.len() == 0,
    ensures
        unmentioned(s, ids) == s,
    decreases s.len(),
{
    if s.len() > 0 {
        lemma_unmentioned_empty(s.drop_last(), ids);
        assert(unmentioned(s, ids) =~~= s);
    } else {
        assert(unmentioned(s, ids) =~~= s);
    }
}

/// Law: deleting an identifier that no item carries changes nothing.
pub proof fn lemma_delete_missing_identity(s: Seq<LinkModel>, id: Seq<char>)
    requires
        !contains_id(s, id),
    ensures
        spec_delete(s, id) == s,
    decreases s.len(),
{
    if s.len() > 0 {
        assert(s.last() == s[s.len() - 1]);
        assert(forall|j: int| 0 <= j < s.len() - 1 ==> s.drop_last()[j] == s[j]);
        lemma_delete_missing_identity(s.drop_last(), id);
        assert(spec_delete(s, id) =~~= s);
    } else {
        assert(spec_delete(s, id) =~~= s);
    }
}

} // verus!
