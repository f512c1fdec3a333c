use cerbere::login::{login_layout, Area, Icon, Key, LoginAction, LoginInfo, SelectedInput};

fn text(v: &Vec<char>) -> String {
    v.iter().collect()
}

#[test]
fn starts_on_password_with_username_filled() {
    let info = LoginInfo::with_username("eclipse");
    assert_eq!(text(&info.username.value), "eclipse");
    assert_eq!(info.username.cursor_index, 7);
    assert_eq!(info.username.icon, Icon::Empty);
    assert!(!info.username.hidden);
    assert!(info.password.value.is_empty());
    assert_eq!(info.password.icon, Icon::Selected);
    assert!(info.password.hidden);
    assert_eq!(info.selected_input, SelectedInput::Password);
}

#[test]
fn username_counts_characters_not_bytes() {
    let info = LoginInfo::with_username("élan");
    assert_eq!(info.username.cursor_index, 4);
    assert_eq!(info.username.value.len(), 4);
}

#[test]
fn tab_switches_focus_both_ways() {
    let mut info = LoginInfo::with_username("a");
    assert_eq!(info.handle_key_event(Key::Tab), LoginAction::Nothing);
    assert_eq!(info.selected_input, SelectedInput::Username);
    assert_eq!(info.username.icon, Icon::Selected);
    assert_eq!(info.password.icon, Icon::Empty);
    info.handle_key_event(Key::Tab);
    assert_eq!(info.selected_input, SelectedInput::Password);
    assert_eq!(info.username.icon, Icon::Empty);
    assert_eq!(info.password.icon, Icon::Selected);
}

#[test]
fn typing_goes_to_focused_field() {
    let mut info = LoginInfo::with_username("ab");
    info.handle_key_event(Key::Char('x'));
    info.handle_key_event(Key::Char('y'));
    assert_eq!(text(&info.password.value), "xy");
    assert_eq!(text(&info.username.value), "ab");
    info.handle_key_event(Key::Tab);
    info.handle_key_event(Key::Backspace);
    info.handle_key_event(Key::Char('c'));
    assert_eq!(text(&info.username.value), "ac");
    assert_eq!(info.username.icon, Icon::Selected);
    info.handle_key_event(Key::Other);
    assert_eq!(text(&info.username.value), "ac");
}

#[test]
fn backspace_on_empty_field_does_nothing() {
    let mut info = LoginInfo::with_username("");
    info.handle_key_event(Key::Backspace);
    assert!(info.password.value.is_empty());
    assert_eq!(info.password.icon, Icon::Selected);
}

#[test]
fn enter_without_password_asks_for_one() {
    let mut info = LoginInfo::with_username("root");
    assert_eq!(info.handle_key_event(Key::Enter), LoginAction::Nothing);
    assert_eq!(info.password.icon, Icon::Question);
}

#[test]
fn enter_with_password_asks_for_authentication() {
    let mut info = LoginInfo::with_username("root");
    info.handle_key_event(Key::Char('p'));
    assert_eq!(info.handle_key_event(Key::Enter), LoginAction::Authenticate);
    assert_eq!(text(&info.password.value), "p");
    info.wipe_password();
    assert!(info.password.value.is_empty());
    info.record_rejection();
    assert_eq!(info.password.icon, Icon::Error);
    assert_eq!(text(&info.username.value), "root");
}

#[test]
fn field_width_is_the_wider_field() {
    let mut info = LoginInfo::with_username("abc");
    assert_eq!(info.field_width(), 3);
    for c in "hunter22".chars() {
        info.handle_key_event(Key::Char(c));
    }
    assert_eq!(info.field_width(), 8);
    assert_eq!(info.password.required_size(), 8);
}

#[test]
fn layout_centres_frame() {
    let l = login_layout(80, 24, 7);
    assert_eq!(l.frame, Area { x: 33, y: 10, width: 14, height: 4 });
    assert_eq!(l.username, Area { x: 34, y: 11, width: 10, height: 2 });
    assert_eq!(l.password, Area { x: 34, y: 12, width: 10, height: 2 });
}

#[test]
fn layout_even_area_gets_even_frame() {
    let l = login_layout(81, 5, 7);
    assert_eq!(l.frame, Area { x: 34, y: 0, width: 13, height: 4 });
}

#[test]
fn layout_shrinks_to_small_area() {
    let l = login_layout(3, 1, 0);
    assert_eq!(l.frame, Area { x: 0, y: 0, width: 3, height: 1 });
    assert_eq!(l.username, Area { x: 1, y: 0, width: 0, height: 0 });
    assert_eq!(l.password, Area { x: 1, y: 0, width: 0, height: 0 });
}
