use easycopy::codec::{links_from_storage_text, links_to_storage_text, loaded_links};
use easycopy::item::LinkItem;

fn sample_links() -> Vec<LinkItem> {
    vec![
        LinkItem {
            id: "a".to_string(),
            name: "One".to_string(),
            url: "https://one.test".to_string(),
        },
        LinkItem {
            id: "b".to_string(),
            name: "Two".to_string(),
            url: "https://two.test".to_string(),
        },
    ]
}

#[test]
fn storage_text_is_exact() {
    let text = links_to_storage_text(&sample_links());
    let expected = "[{\"id\":\"a\",\"name\":\"One\",\"url\":\"https://one.test\"},{\"id\":\"b\",\"name\":\"Two\",\"url\":\"https://two.test\"}]";
    assert_eq!(text, expected);
}

#[test]
fn empty_collection_storage_text() {
    let text = links_to_storage_text(&Vec::new());
    assert_eq!(text, "[]");
}

#[test]
fn round_trip_preserves_collection() {
    let links = sample_links();
    let text = links_to_storage_text(&links);
    let back = links_from_storage_text(&text);
    assert_eq!(back, links);
}

#[test]
fn round_trip_preserves_empty_collection() {
    let text = links_to_storage_text(&Vec::new());
    let back = links_from_storage_text(&text);
    assert!(back.is_empty());
}

#[test]
fn round_trip_preserves_tricky_characters() {
    let links = vec![LinkItem {
        id: "x-1".to_string(),
        name: "He said \"hi\" \\ bye".to_string(),
        url: "https://q.test/?a=\"b\"&c=\\d".to_string(),
    }];
    let text = links_to_storage_text(&links);
    let back = links_from_storage_text(&text);
    assert_eq!(back, links);
}

#[test]
fn loads_text_with_blanks_between_tokens() {
    let text = "[ {\"id\" : \"a\" , \"name\" : \"One\" , \"url\" : \"https://one.test\"} ]\n";
    let back = links_from_storage_text(text);
    assert_eq!(back.len(), 1);
    assert_eq!(back[0].id, "a");
    assert_eq!(back[0].name, "One");
    assert_eq!(back[0].url, "https://one.test");
}

#[test]
fn empty_text_loads_as_empty_collection() {
    assert!(links_from_storage_text("").is_empty());
}

#[test]
fn garbage_text_loads_as_empty_collection() {
    assert!(links_from_storage_text("not json at all").is_empty());
    assert!(links_from_storage_text("[{\"id\":\"a\"").is_empty());
    assert!(links_from_storage_text("{\"id\":\"a\"}").is_empty());
    assert!(links_from_storage_text("[{\"wrong\":\"a\",\"name\":\"b\",\"url\":\"c\"}]").is_empty());
    assert!(links_from_storage_text("[]trailing").is_empty());
}

#[test]
fn missing_store_loads_as_empty_collection() {
    assert!(loaded_links(None).is_empty());
    let links = sample_links();
    let text = links_to_storage_text(&links);
    assert_eq!(loaded_links(Some(&text)), links);
}
