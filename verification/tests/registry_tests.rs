use easycopy::item::LinkItem;
use easycopy::registry::{add_link_item, delete_link_item, reorder_link_items, update_link_item};
use uuid::Uuid;

fn sample_links() -> Vec<LinkItem> {
    vec![
        LinkItem {
            id: "a".to_string(),
            name: "One".to_string(),
            url: "https://one.test".to_string(),
        },
        LinkItem {
            id: "b".to_string(),
            name: "Two".to_string(),
            url: "https://two.test".to_string(),
        },
    ]
}

#[test]
fn adds_link_at_beginning() {
    let next = add_link_item(
        sample_links(),
        "Three".to_string(),
        "https://three.test".to_string(),
    );

    assert_eq!(next.len(), 3);
    assert_eq!(next[0].name, "Three");
    assert_eq!(next[0].url, "https://three.test");
    assert_eq!(next[1].id, "a");
    assert_eq!(next[2].id, "b");
}

#[test]
fn generates_valid_uuid_when_adding() {
    let next = add_link_item(vec![], "One".to_string(), "https://one.test".to_string());
    assert_eq!(next.len(), 1);
    assert!(Uuid::parse_str(&next[0].id).is_ok());
}

#[test]
fn updates_only_matching_link() {
    let next = update_link_item(
        sample_links(),
        "b",
        "Updated Two".to_string(),
        "https://updated-two.test".to_string(),
    );

    assert_eq!(next[0].name, "One");
    assert_eq!(next[1].name, "Updated Two");
    assert_eq!(next[1].url, "https://updated-two.test");
}

#[test]
fn returns_unchanged_when_update_id_missing() {
    let sample = sample_links();
    let next = update_link_item(
        sample.clone(),
        "z",
        "Nope".to_string(),
        "https://nope.test".to_string(),
    );
    assert_eq!(next, sample);
}

#[test]
fn deletes_matching_link() {
    let next = delete_link_item(sample_links(), "a");
    assert_eq!(next.len(), 1);
    assert_eq!(next[0].id, "b");
}

#[test]
fn returns_unchanged_when_delete_id_missing() {
    let sample = sample_links();
    let next = delete_link_item(sample.clone(), "z");
    assert_eq!(next, sample);
}

#[test]
fn update_keeps_other_fields_identical() {
    let sample = sample_links();
    let next = update_link_item(
        sample.clone(),
        "a",
        "New One".to_string(),
        "https://new-one.test".to_string(),
    );
    assert_eq!(next.len(), sample.len());
    assert_eq!(next[0].id, "a");
    assert_eq!(next[0].name, "New One");
    assert_eq!(next[0].url, "https://new-one.test");
    assert_eq!(next[1], sample[1]);
}

#[test]
fn reorders_by_full_permutation() {
    let next = reorder_link_items(sample_links(), vec!["b".to_string(), "a".to_string()]);
    assert_eq!(next.len(), 2);
    assert_eq!(next[0].id, "b");
    assert_eq!(next[1].id, "a");
}

#[test]
fn reorder_with_partial_ids_keeps_everything() {
    let mut links = sample_links();
    links.push(LinkItem {
        id: "c".to_string(),
        name: "Three".to_string(),
        url: "https://three.test".to_string(),
    });
    let next = reorder_link_items(links, vec!["c".to_string()]);
    assert_eq!(next.len(), 3);
    assert_eq!(next[0].id, "c");
    assert_eq!(next[1].id, "a");
    assert_eq!(next[2].id, "b");
}

#[test]
fn reorder_skips_unknown_ids() {
    let next = reorder_link_items(
        sample_links(),
        vec!["nope".to_string(), "b".to_string(), "a".to_string()],
    );
    assert_eq!(next.len(), 2);
    assert_eq!(next[0].id, "b");
    assert_eq!(next[1].id, "a");
}

#[test]
fn scenario_walkthrough() {
    let start = sample_links();

    let added = add_link_item(
        start.clone(),
        "Three".to_string(),
        "https://three.test".to_string(),
    );
    assert_eq!(added.len(), 3);
    assert_eq!(added[0].name, "Three");

    let updated = update_link_item(
        start.clone(),
        "b",
        "Updated Two".to_string(),
        "https://updated-two.test".to_string(),
    );
    assert_eq!(updated[1].name, "Updated Two");

    let deleted = delete_link_item(start.clone(), "a");
    assert_eq!(deleted.len(), 1);
    assert_eq!(deleted[0].id, "b");

    let reordered = reorder_link_items(start, vec!["b".to_string(), "a".to_string()]);
    assert_eq!(reordered[0].id, "b");
    assert_eq!(reordered[1].id, "a");
}

#[test]
fn add_with_given_id_prepends_exactly() {
    let next = easycopy::registry::add_link_item_with_id(
        sample_links(),
        "c".to_string(),
        "Three".to_string(),
        "https://three.test".to_string(),
    );
    assert_eq!(next.len(), 3);
    assert_eq!(next[0].id, "c");
    assert_eq!(next[0].name, "Three");
    assert_eq!(next[0].url, "https://three.test");
    assert_eq!(next[1..], sample_links()[..]);
}
