use procdrift::action::Action;
use procdrift::commands::{
    button_command, menu_command, next_sort, shortcut, Command, Focus, ID_FILTER_HEAVY,
    ID_MENU_ACTIVITY, ID_REFRESH, KEY_C, KEY_F, VK_ESCAPE_KEY, VK_SPACE_KEY,
};
use procdrift::model::Filter;

#[test]
fn buttons_and_menu_items_map_to_commands() {
    assert_eq!(button_command(ID_REFRESH), Some(Command::Refresh));
    assert_eq!(
        button_command(ID_FILTER_HEAVY),
        Some(Command::ShowFilter(Filter::Heavy))
    );
    assert_eq!(menu_command(ID_MENU_ACTIVITY), Some(Command::RecentActivity));
    assert_eq!(button_command(9999), None);
}

#[test]
fn shortcuts_depend_on_focus_and_state() {
    assert_eq!(shortcut(true, KEY_F, Focus::List, true, false), Some(Command::FocusSearch));
    assert_eq!(shortcut(true, KEY_C, Focus::Search, true, false), None);
    assert_eq!(shortcut(true, KEY_C, Focus::List, true, false), Some(Command::CopySelected));
    assert_eq!(
        shortcut(false, VK_SPACE_KEY, Focus::List, true, true),
        Some(Command::Act(Action::Resume))
    );
    assert_eq!(
        shortcut(false, VK_SPACE_KEY, Focus::List, true, false),
        Some(Command::Act(Action::Suspend))
    );
    assert_eq!(shortcut(false, VK_SPACE_KEY, Focus::Search, true, false), None);
    assert_eq!(shortcut(false, VK_ESCAPE_KEY, Focus::Search, false, false), Some(Command::ClearSearch));
    assert_eq!(shortcut(false, VK_ESCAPE_KEY, Focus::Search, true, false), Some(Command::FocusList));
}

#[test]
fn header_clicks_toggle_or_switch_the_sort() {
    assert_eq!(next_sort(1, false, 1), (1, true));
    assert_eq!(next_sort(1, false, 4), (4, true));
    assert_eq!(next_sort(4, true, 2), (2, false));
}
