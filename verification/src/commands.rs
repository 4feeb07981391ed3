//! What the window does in answer to a button, a menu item, a key, or a click
//! on a column header.

use crate::action::Action;
use crate::model::Filter;
use vstd::prelude::*;

verus! {

pub const ID_SEARCH: usize = 101;
pub const ID_LIST: usize = 102;
pub const ID_REFRESH: usize = 103;
pub const ID_END: usize = 104;
pub const ID_SUSPEND: usize = 105;
pub const ID_RESUME: usize = 106;
pub const ID_DETAILS: usize = 107;
pub const ID_RECORD_BASELINE: usize = 108;
pub const ID_ADD_BASELINE: usize = 109;
pub const ID_REMOVE_BASELINE: usize = 110;
pub const ID_FILTER_REVIEW: usize = 120;
pub const ID_FILTER_NEW: usize = 121;
pub const ID_FILTER_HEAVY: usize = 122;
pub const ID_FILTER_RESTARTING: usize = 123;
pub const ID_FILTER_KNOWN: usize = 124;
pub const ID_FILTER_ALL: usize = 125;
pub const ID_MENU_DETAILS: usize = 201;
pub const ID_MENU_COPY: usize = 202;
pub const ID_MENU_OPEN_LOCATION: usize = 203;
pub const ID_MENU_END_TREE: usize = 204;
pub const ID_MENU_END: usize = 205;
pub const ID_MENU_SUSPEND: usize = 206;
pub const ID_MENU_RESUME: usize = 207;
pub const ID_MENU_TRUST: usize = 208;
pub const ID_MENU_UNTRUST: usize = 209;
pub const ID_MENU_ACTIVITY: usize = 210;

/// Virtual-key codes the window answers.
pub const VK_ESCAPE_KEY: usize = 27;
pub const VK_ENTER_KEY: usize = 13;
pub const VK_SPACE_KEY: usize = 32;
pub const VK_DELETE_KEY: usize = 46;
pub const VK_F2_KEY: usize = 113;
pub const VK_F5_KEY: usize = 116;
pub const KEY_C: usize = 67;
pub const KEY_F: usize = 70;
pub const KEY_K: usize = 75;

/// Something the window does.
#[derive(Clone, Copy, Debug, PartialEq, Eq, Structural)]
pub enum Command {
    Refresh,
    Details,
    RecordBaseline,
    Allow,
    Unallow,
    Act(Action),
    ShowFilter(Filter),
    CopySelected,
    OpenLocation,
    EndTree,
    RecentActivity,
    FocusSearch,
    FocusList,
    ClearSearch,
}

/// Which control has the keyboard focus.
#[derive(Clone, Copy, Debug, PartialEq, Eq, Structural)]
pub enum Focus {
    Search,
    List,
    Elsewhere,
}

/// What a button does.
pub open spec fn button_meaning(id: usize) -> Option<Command> {
    if id == ID_REFRESH {
        Some(Command::Refresh)
    } else if id == ID_DETAILS {
        Some(Command::Details)
    } else if id == ID_RECORD_BASELINE {
        Some(Command::RecordBaseline)
    } else if id == ID_ADD_BASELINE {
        Some(Command::Allow)
    } else if id == ID_REMOVE_BASELINE {
        Some(Command::Unallow)
    } else if id == ID_END {
        Some(Command::Act(Action::Terminate))
    } else if id == ID_SUSPEND {
        Some(Command::Act(Action::Suspend))
    } else if id == ID_RESUME {
        Some(Command::Act(Action::Resume))
    } else if id == ID_FILTER_REVIEW {
        Some(Command::ShowFilter(Filter::Review))
    } else if id == ID_FILTER_NEW {
        Some(Command::ShowFilter(Filter::New))
    } else if id == ID_FILTER_HEAVY {
        Some(Command::ShowFilter(Filter::Heavy))
    } else if id == ID_FILTER_RESTARTING {
        Some(Command::ShowFilter(Filter::Restarting))
    } else if id == ID_FILTER_KNOWN {
        Some(Command::ShowFilter(Filter::Known))
    } else if id == ID_FILTER_ALL {
        Some(Command::ShowFilter(Filter::All))
    } else {
        None
    }
}

/// What a button does, by its control id.
pub fn button_command(id: usize) -> (r: Option<Command>)
    ensures
        r == button_meaning(id),
{
    if id == ID_REFRESH {
        Some(Command::Refresh)
    } else if id == ID_DETAILS {
        Some(Command::Details)
    } else if id == ID_RECORD_BASELINE {
        Some(Command::RecordBaseline)
    } else if id == ID_ADD_BASELINE {
        Some(Command::Allow)
    } else if id == ID_REMOVE_BASELINE {
        Some(Command::Unallow)
    } else if id == ID_END {
        Some(Command::Act(Action::Terminate))
    } else if id == ID_SUSPEND {
        Some(Command::Act(Action::Suspend))
    } else if id == ID_RESUME {
        Some(Command::Act(Action::Resume))
    } else if id == ID_FILTER_REVIEW {
        Some(Command::ShowFilter(Filter::Review))
    } else if id == ID_FILTER_NEW {
        Some(Command::ShowFilter(Filter::New))
    } else if id == ID_FILTER_HEAVY {
        Some(Command::ShowFilter(Filter::Heavy))
    } else if id == ID_FILTER_RESTARTING {
        Some(Command::ShowFilter(Filter::Restarting))
    } else if id == ID_FILTER_KNOWN {
        Some(Command::ShowFilter(Filter::Known))
    } else if id == ID_FILTER_ALL {
        Some(Command::ShowFilter(Filter::All))
    } else {
        None
    }
}

/// What a context-menu item does.
pub open spec fn menu_meaning(id: usize) -> Option<Command> {
    if id == ID_MENU_DETAILS {
        Some(Command::Details)
    } else if id == ID_MENU_COPY {
        Some(Command::CopySelected)
    } else if id == ID_MENU_OPEN_LOCATION {
        Some(Command::OpenLocation)
    } else if id == ID_MENU_END_TREE {
        Some(Command::EndTree)
    } else if id == ID_MENU_END {
        Some(Command::Act(Action::Terminate))
    } else if id == ID_MENU_SUSPEND {
        Some(Command::Act(Action::Suspend))
    } else if id == ID_MENU_RESUME {
        Some(Command::Act(Action::Resume))
    } else if id == ID_MENU_TRUST {
        Some(Command::Allow)
    } else if id == ID_MENU_UNTRUST {
        Some(Command::Unallow)
    } else if id == ID_MENU_ACTIVITY {
        Some(Command::RecentActivity)
    } else {
        None
    }
}

/// What a context-menu item does, by its id.
pub fn menu_command(id: usize) -> (r: Option<Command>)
    ensures
        r == menu_meaning(id),
{
    if id == ID_MENU_DETAILS {
        Some(Command::Details)
    } else if id == ID_MENU_COPY {
        Some(Command::CopySelected)
    } else if id == ID_MENU_OPEN_LOCATION {
        Some(Command::OpenLocation)
    } else if id == ID_MENU_END_TREE {
        Some(Command::EndTree)
    } else if id == ID_MENU_END {
        Some(Command::Act(Action::Terminate))
    } else if id == ID_MENU_SUSPEND {
        Some(Command::Act(Action::Suspend))
    } else if id == ID_MENU_RESUME {
        Some(Command::Act(Action::Resume))
    } else if id == ID_MENU_TRUST {
        Some(Command::Allow)
    } else if id == ID_MENU_UNTRUST {
        Some(Command::Unallow)
    } else if id == ID_MENU_ACTIVITY {
        Some(Command::RecentActivity)
    } else {
        None
    }
}

/// What a key press does: Ctrl+F and Ctrl+K go to the search box, Ctrl+C
/// copies the selection unless the search box has the focus, F5 refreshes;
/// in the list, Delete ends, F2 allows, Space pauses or resumes, Enter shows
/// details; Escape clears the search, or goes back to the list when the
/// search is already empty.
pub open spec fn key_meaning(
    control: bool,
    key: usize,
    focus: Focus,
    search_empty: bool,
    selected_paused: bool,
) -> Option<Command> {
    if control && key == KEY_F {
        Some(Command::FocusSearch)
    } else if control && key == KEY_K {
        Some(Command::FocusSearch)
    } else if control && key == KEY_C && focus != Focus::Search {
        Some(Command::CopySelected)
    } else if !control && key == VK_F5_KEY {
        Some(Command::Refresh)
    } else if !control && key == VK_DELETE_KEY && focus == Focus::List {
        Some(Command::Act(Action::Terminate))
    } else if !control && key == VK_F2_KEY && focus == Focus::List {
        Some(Command::Allow)
    } else if !control && key == VK_SPACE_KEY && focus == Focus::List {
        Some(
            Command::Act(
                if selected_paused {
                    Action::Resume
                } else {
                    Action::Suspend
                },
            ),
        )
    } else if !control && key == VK_ENTER_KEY && focus == Focus::List {
        Some(Command::Details)
    } else if !control && key == VK_ESCAPE_KEY {
        Some(
            if search_empty {
                Command::FocusList
            } else {
                Command::ClearSearch
            },
        )
    } else {
        None
    }
}

/// What a key press does (see `key_meaning`); `None` leaves the key to the
/// focused control.
pub fn shortcut(
    control: bool,
    key: usize,
    focus: Focus,
    search_empty: bool,
    selected_paused: bool,
) -> (r: Option<Command>)
    ensures
        r == key_meaning(control, key, focus, search_empty, selected_paused),
{
    if control && key == KEY_F {
        Some(Command::FocusSearch)
    } else if control && key == KEY_K {
        Some(Command::FocusSearch)
    } else if control && key == KEY_C && focus != Focus::Search {
        Some(Command::CopySelected)
    } else if !control && key == VK_F5_KEY {
        Some(Command::Refresh)
    } else if !control && key == VK_DELETE_KEY && focus == Focus::List {
        Some(Command::Act(Action::Terminate))
    } else if !control && key == VK_F2_KEY && focus == Focus::List {
        Some(Command::Allow)
    } else if !control && key == VK_SPACE_KEY && focus == Focus::List {
        if selected_paused {
            Some(Command::Act(Action::Resume))
        } else {
            Some(Command::Act(Action::Suspend))
        }
    } else if !control && key == VK_ENTER_KEY && focus == Focus::List {
        Some(Command::Details)
    } else if !control && key == VK_ESCAPE_KEY {
        if search_empty {
            Some(Command::FocusList)
        } else {
            Some(Command::ClearSearch)
        }
    } else {
        None
    }
}

/// The sort after a click on a column header: the same column flips its
/// direction; another column sorts by it, descending for CPU, memory and
/// disk rate and ascending otherwise.
pub fn next_sort(column: usize, descending: bool, clicked: usize) -> (r: (usize, bool))
    ensures
        clicked == column ==> r == (column, !descending),
        clicked != column ==> r == (clicked, 3 <= clicked <= 5),
{
    if clicked == column {
        (column, !descending)
    } else {
        (clicked, 3 <= clicked && clicked <= 5)
    }
}

/// The keyboard, by key code: Ctrl+F (70) and Ctrl+K (75) go to the search
/// box; Ctrl+C (67) copies, but never while typing in the search box; F5
/// (116) refreshes anywhere; Delete (46) ends, Space (32) pauses or resumes,
/// F2 (113) allows and Enter (13) opens details only when the list has the
/// focus; Escape (27) clears a search, or returns to the list from an empty
/// one. Only Delete and Space act on a process, and every other key is left
/// to the focused control.
pub proof fn lemma_key_bindings(
    control: bool,
    key: usize,
    focus: Focus,
    search_empty: bool,
    selected_paused: bool,
)
    ensures
        ({
            let m = key_meaning(control, key, focus, search_empty, selected_paused);
            &&& control && (key == 70 || key == 75) ==> m == Some(Command::FocusSearch)
            &&& control && key == 67 ==> m == (if focus == Focus::Search {
                None
            } else {
                Some(Command::CopySelected)
            })
            &&& !control && key == 116 ==> m == Some(Command::Refresh)
            &&& !control && key == 46 ==> m == (if focus == Focus::List {
                Some(Command::Act(Action::Terminate))
            } else {
                None
            })
            &&& !control && key == 32 ==> m == (if focus != Focus::List {
                None
            } else if selected_paused {
                Some(Command::Act(Action::Resume))
            } else {
                Some(Command::Act(Action::Suspend))
            })
            &&& !control && key == 113 ==> m == (if focus == Focus::List {
                Some(Command::Allow)
            } else {
                None
            })
            &&& !control && key == 13 ==> m == (if focus == Focus::List {
                Some(Command::Details)
            } else {
                None
            })
            &&& !control && key == 27 ==> m == Some(
                if search_empty {
                    Command::FocusList
                } else {
                    Command::ClearSearch
                },
            )
            &&& (m matches Some(Command::Act(_))) ==> !control && focus == Focus::List && (key == 46
                || key == 32)
            &&& !(key == 70 || key == 75 || key == 67 || key == 116 || key == 46 || key == 32 || key
                == 113 || key == 13 || key == 27) ==> m is None
        }),
{
}

/// The buttons, by control id: refresh (103), end (104), suspend (105),
/// resume (106), details (107), record snapshot (108), allow (109) and
/// disallow (110), and the six filters Review, New, Heavy, Restarting, Known
/// and All (120 to 125); no two buttons do the same thing and no other id
/// does anything.
pub proof fn lemma_button_ids(id: usize, other: usize)
    ensures
        id == 103 ==> button_meaning(id) == Some(Command::Refresh),
        id == 104 ==> button_meaning(id) == Some(Command::Act(Action::Terminate)),
        id == 105 ==> button_meaning(id) == Some(Command::Act(Action::Suspend)),
        id == 106 ==> button_meaning(id) == Some(Command::Act(Action::Resume)),
        id == 107 ==> button_meaning(id) == Some(Command::Details),
        id == 108 ==> button_meaning(id) == Some(Command::RecordBaseline),
        id == 109 ==> button_meaning(id) == Some(Command::Allow),
        id == 110 ==> button_meaning(id) == Some(Command::Unallow),
        id == 120 ==> button_meaning(id) == Some(Command::ShowFilter(Filter::Review)),
        id == 121 ==> button_meaning(id) == Some(Command::ShowFilter(Filter::New)),
        id == 122 ==> button_meaning(id) == Some(Command::ShowFilter(Filter::Heavy)),
        id == 123 ==> button_meaning(id) == Some(Command::ShowFilter(Filter::Restarting)),
        id == 124 ==> button_meaning(id) == Some(Command::ShowFilter(Filter::Known)),
        id == 125 ==> button_meaning(id) == Some(Command::ShowFilter(Filter::All)),
        !(103 <= id <= 110 || 120 <= id <= 125) ==> button_meaning(id) is None,
        button_meaning(id) is Some && button_meaning(id) == button_meaning(other) ==> id == other,
{
}

/// The context menu, by item id: details (201), copy (202), open location
/// (203), end tree (204), end (205), suspend (206), resume (207), allow
/// (208), disallow (209) and recent activity (210); no two items do the
/// same thing and no other id does anything.
pub proof fn lemma_menu_ids(id: usize, other: usize)
    ensures
        id == 201 ==> menu_meaning(id) == Some(Command::Details),
        id == 202 ==> menu_meaning(id) == Some(Command::CopySelected),
        id == 203 ==> menu_meaning(id) == Some(Command::OpenLocation),
        id == 204 ==> menu_meaning(id) == Some(Command::EndTree),
        id == 205 ==> menu_meaning(id) == Some(Command::Act(Action::Terminate)),
        id == 206 ==> menu_meaning(id) == Some(Command::Act(Action::Suspend)),
        id == 207 ==> menu_meaning(id) == Some(Command::Act(Action::Resume)),
        id == 208 ==> menu_meaning(id) == Some(Command::Allow),
        id == 209 ==> menu_meaning(id) == Some(Command::Unallow),
        id == 210 ==> menu_meaning(id) == Some(Command::RecentActivity),
        !(201 <= id <= 210) ==> menu_meaning(id) is None,
        menu_meaning(id) is Some && menu_meaning(id) == menu_meaning(other) ==> id == other,
{
}

} // verus!
