use easycopy::item::LinkItem;
use easycopy::menu::{menu_entry_action, tray_menu_entries, MenuAction, MenuEntry};

fn links_of(n: usize) -> Vec<LinkItem> {
    let mut out = Vec::new();
    for i in 0..n {
        out.push(LinkItem {
            id: format!("id-{}", i),
            name: format!("Name {}", i),
            url: format!("https://site-{}.test", i),
        });
    }
    out
}

#[test]
fn empty_collection_menu_shows_placeholder() {
    let entries = tray_menu_entries(&Vec::new());
    assert_eq!(entries.len(), 5);
    assert_eq!(entries[0], MenuEntry::OpenEditor);
    assert_eq!(entries[1], MenuEntry::Divider);
    assert_eq!(entries[2], MenuEntry::NoLinks);
    assert_eq!(entries[3], MenuEntry::Divider);
    assert_eq!(entries[4], MenuEntry::Quit);
}

#[test]
fn menu_lists_items_in_collection_order() {
    let entries = tray_menu_entries(&links_of(3));
    assert_eq!(entries.len(), 7);
    assert_eq!(
        entries[2],
        MenuEntry::Link {
            index: 0,
            label: "Name 0".to_string()
        }
    );
    assert_eq!(
        entries[3],
        MenuEntry::Link {
            index: 1,
            label: "Name 1".to_string()
        }
    );
    assert_eq!(
        entries[4],
        MenuEntry::Link {
            index: 2,
            label: "Name 2".to_string()
        }
    );
    assert_eq!(entries[5], MenuEntry::Divider);
    assert_eq!(entries[6], MenuEntry::Quit);
}

#[test]
fn menu_is_capped_at_eight_items() {
    let entries = tray_menu_entries(&links_of(11));
    assert_eq!(entries.len(), 12);
    assert_eq!(
        entries[9],
        MenuEntry::Link {
            index: 7,
            label: "Name 7".to_string()
        }
    );
    assert_eq!(entries[10], MenuEntry::Divider);
    assert_eq!(entries[11], MenuEntry::Quit);
}

#[test]
fn activation_resolves_to_actions() {
    let links = links_of(2);
    assert_eq!(
        menu_entry_action(&MenuEntry::OpenEditor, &links),
        MenuAction::ShowEditor
    );
    assert_eq!(
        menu_entry_action(&MenuEntry::Quit, &links),
        MenuAction::Terminate
    );
    assert_eq!(
        menu_entry_action(&MenuEntry::Divider, &links),
        MenuAction::Ignore
    );
    assert_eq!(
        menu_entry_action(&MenuEntry::NoLinks, &links),
        MenuAction::Ignore
    );
    let entry = MenuEntry::Link {
        index: 1,
        label: "Name 1".to_string(),
    };
    assert_eq!(
        menu_entry_action(&entry, &links),
        MenuAction::CopyText {
            text: "https://site-1.test".to_string()
        }
    );
}

#[test]
fn stale_activation_index_is_ignored() {
    let links = links_of(1);
    let entry = MenuEntry::Link {
        index: 4,
        label: "Gone".to_string(),
    };
    assert_eq!(menu_entry_action(&entry, &links), MenuAction::Ignore);
}
