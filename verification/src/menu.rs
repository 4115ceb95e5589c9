use vstd::prelude::*;

use crate::item::{links_view, LinkItem};

verus! {

/// How many collection items the status-area menu can show at most.
pub const MENU_LINK_CAPACITY: usize = 8;

/// One entry of the status-area menu projection.
#[derive(Debug, PartialEq, Eq)]
pub enum MenuEntry {
    /// The static control that opens the editing surface.
    OpenEditor,
    /// A visual divider between menu sections.
    Divider,
    /// The placeholder shown when the collection is empty.
    NoLinks,
    /// One collection item, referenced by its truncated-list position.
    Link { index: usize, label: String },
    /// The static control that ends the process.
    Quit,
}

/// What activating a menu entry asks the surrounding program to do.
#[derive(Debug, PartialEq, Eq)]
pub enum MenuAction {
    /// Bring up the editing surface.
    ShowEditor,
    /// End the process.
    Terminate,
    /// Put the given text on the system clipboard.
    CopyText { text: String },
    /// Nothing: the entry carries no action.
    Ignore,
}

/// How many item entries the projection of a collection of `n` items
/// carries: all of them up to the capacity bound.
pub open spec fn shown_links(n: nat) -> nat {
    if n <= 8 {
        n
    } else {
        8
    }
}

/// Derives the bounded menu projection of the collection: the editor
/// control, a divider, the first items (or a placeholder when there are
/// none) in collection order, a divider, and the quit control.
pub fn tray_menu_entries(links: &Vec<LinkItem>) -> (r: Vec<MenuEntry>)
    ensures
        links@.len() == 0 ==> r@.len() == 5,
        links@.len() > 0 ==> r@.len() == shown_links(links@.len()) + 4,
        r@[0] == MenuEntry::OpenEditor,
        r@[1] == MenuEntry::Divider,
        links@.len() == 0 ==> r@[2] == MenuEntry::NoLinks,
        forall|k: int|
            0 <= k < shown_links(links@.len()) && links@.len() > 0 ==> ((#[trigger] r@[2 + k])
                matches MenuEntry::Link { index, label } && index == k && label@ == links_view(
                links@,
            )[k].name),
        r@[r@.len() - 2] == MenuEntry::Divider,
        r@[r@.len() - 1] == MenuEntry::Quit,
{
    let mut out: Vec<MenuEntry> = Vec::new();
    out.push(MenuEntry::OpenEditor);
    out.push(MenuEntry::Divider);
    if links.len() == 0 {
        out.push(MenuEntry::NoLinks);
    } else {
        let shown = if links.len() < MENU_LINK_CAPACITY {
            links.len()
        } else {
            MENU_LINK_CAPACITY
        };
        let mut k: usize = 0;
        while k < shown
            invariant
                shown == shown_links(links@.len()),
                shown <= links@.len(),
                k <= shown,
                out@.len() == 2 + k,
                out@[0] == MenuEntry::OpenEditor,
                out@[1] == MenuEntry::Divider,
                forall|j: int|
                    0 <= j < k ==> ((#[trigger] out@[2 + j]) matches MenuEntry::Link {
                        index,
                        label,
                    } && index == j && label@ == links_view(links@)[j].name),
            decreases shown - k,
        {
            let label = links[k].name.clone();
            out.push(MenuEntry::Link { index: k, label });
            k = k + 1;
        }
    }
    out.push(MenuEntry::Divider);
    out.push(MenuEntry::Quit);
    out
}

/// Resolves the activation of one menu entry against the collection as
/// it stands now: item entries in range ask for their payload to be
/// copied, out-of-range item entries do nothing, and the two static
/// controls ask for the editor and for termination.
pub fn menu_entry_action(entry: &MenuEntry, links: &Vec<LinkItem>) -> (r: MenuAction)
    ensures
        entry is OpenEditor ==> r == MenuAction::ShowEditor,
        entry is Quit ==> r == MenuAction::Terminate,
        entry is Divider || entry is NoLinks ==> r == MenuAction::Ignore,
        forall|index: usize, label: String|
            *entry == (MenuEntry::Link { index, label }) ==> if index < links@.len() {
                (r matches MenuAction::CopyText { text } && text@ == links_view(
                    links@,
                )[index as int].url)
            } else {
                r == MenuAction::Ignore
            },
{
    match entry {
        MenuEntry::OpenEditor => MenuAction::ShowEditor,
        MenuEntry::Quit => MenuAction::Terminate,
        MenuEntry::Divider => MenuAction::Ignore,
        MenuEntry::NoLinks => MenuAction::Ignore,
        MenuEntry::Link { index, label: _ } => {
            if *index < links.len() {
                let text = links[*index].url.clone();
                MenuAction::CopyText { text }
            } else {
                MenuAction::Ignore
            }
        },
    }
}

} // verus!
