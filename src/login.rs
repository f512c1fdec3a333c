//! State of the login panel: its two input fields, the keys it reacts to,
//! and where it is drawn.
use vstd::prelude::*;
use vstd::string::StrSliceExecFns;

verus! {

/// The mark shown before an input field.
#[derive(Clone, Copy, Debug, PartialEq, Eq, Structural)]
pub enum Icon {
    Empty,
    Selected,
    Error,
    Question,
}

/// Which field receives typed characters.
#[derive(Clone, Copy, Debug, PartialEq, Eq, Structural)]
pub enum SelectedInput {
    Username,
    Password,
}

/// The keys the login panel reacts to.
#[derive(Clone, Copy, Debug, PartialEq, Eq, Structural)]
pub enum Key {
    Tab,
    Enter,
    Backspace,
    Char(char),
    Other,
}

/// One line of text input.
pub struct InputField {
    pub icon: Icon,
    pub value: Vec<char>,
    pub cursor_index: usize,
    pub hidden: bool,
}

impl InputField {
    /// Backspace drops the last character; a character is appended and
    /// marks the field as selected; other keys change nothing.
    pub fn handle_key_event(&mut self, key: Key)
        ensures
            field_after_key(*old(self), *final(self), key),
    {
        match key {
            Key::Backspace => {
                self.value.pop();
            },
            Key::Char(c) => {
                self.value.push(c);
                self.icon = Icon::Selected;
            },
            _ => {},
        }
    }

    /// Width the value needs on screen, capped at the largest `u16`.
    pub fn required_size(&self) -> (r: u16)
        ensures
            r as int == if self.value.len() <= u16::MAX { self.value.len() as int } else { u16::MAX as int },
    {
        if self.value.len() <= u16::MAX as usize {
            self.value.len() as u16
        } else {
            u16::MAX
        }
    }
}

/// The login panel's state: two fields and the one that has focus.
pub struct LoginInfo {
    pub username: InputField,
    pub password: InputField,
    pub selected_input: SelectedInput,
}

/// What the caller has to do after a key.
#[derive(Clone, Copy, Debug, PartialEq, Eq, Structural)]
pub enum LoginAction {
    Nothing,
    /// Check the current username and password with the system.
    Authenticate,
}

impl LoginInfo {
    /// A panel with the username filled in and the empty password field
    /// focused.
    pub fn with_username(username: &str) -> (r: Self)
        ensures
            r.username.value@ == username@,
            r.username.icon == Icon::Empty,
            r.username.cursor_index == username@.len(),
            !r.username.hidden,
            r.password.value@.len() == 0,
            r.password.icon == Icon::Selected,
            r.password.cursor_index == 0,
            r.password.hidden,
            r.selected_input == SelectedInput::Password,
    {
        let count = username.unicode_len();
        let mut value: Vec<char> = Vec::new();
        let mut i: usize = 0;
        while i < count
            invariant
                count == username@.len(),
                i <= count,
                value@ == username@.subrange(0, i as int),
            decreases count - i,
        {
            value.push(username.get_char(i));
            i = i + 1;
            assert(value@ =~= username@.subrange(0, i as int));
        }
        assert(value@ =~= username@);
        LoginInfo {
            username: InputField { icon: Icon::Empty, value, cursor_index: count, hidden: false },
            password: InputField { icon: Icon::Selected, value: Vec::new(), cursor_index: 0, hidden: true },
            selected_input: SelectedInput::Password,
        }
    }
}


impl LoginInfo {
    /// Tab moves the focus to the other field; Enter asks for an
    /// authentication when a password was typed, and marks the empty password
    /// field otherwise; any other key goes to the focused field.
    pub fn handle_key_event(&mut self, key: Key) -> (action: LoginAction)
        ensures
            match key {
                Key::Tab => {
                    &&& action == LoginAction::Nothing
                    &&& final(self).username.value == old(self).username.value
                    &&& final(self).password.value == old(self).password.value
                    &&& match old(self).selected_input {
                        SelectedInput::Password => {
                            &&& final(self).selected_input == SelectedInput::Username
                            &&& final(self).username.icon == Icon::Selected
                            &&& final(self).password.icon == Icon::Empty
                        },
                        SelectedInput::Username => {
                            &&& final(self).selected_input == SelectedInput::Password
                            &&& final(self).username.icon == Icon::Empty
                            &&& final(self).password.icon == Icon::Selected
                        },
                    }
                },
                Key::Enter => {
                    &&& final(self).username == old(self).username
                    &&& final(self).selected_input == old(self).selected_input
                    &&& final(self).password.value == old(self).password.value
                    &&& if old(self).password.value@.len() == 0 {
                        action == LoginAction::Nothing && final(self).password.icon == Icon::Question
                    } else {
                        action == LoginAction::Authenticate && final(self).password.icon == old(self).password.icon
                    }
                },
                _ => {
                    &&& action == LoginAction::Nothing
                    &&& final(self).selected_input == old(self).selected_input
                    &&& match old(self).selected_input {
                        SelectedInput::Username => final(self).password == old(self).password,
                        SelectedInput::Password => final(self).username == old(self).username,
                    }
                },
            },
            key != Key::Tab && key != Key::Enter ==> match old(self).selected_input {
                SelectedInput::Username => field_after_key(old(self).username, final(self).username, key),
                SelectedInput::Password => field_after_key(old(self).password, final(self).password, key),
            },
    {
        match key {
            Key::Tab => {
                match self.selected_input {
                    SelectedInput::Password => {
                        self.selected_input = SelectedInput::Username;
                        self.username.icon = Icon::Selected;
                        self.password.icon = Icon::Empty;
                    },
                    SelectedInput::Username => {
                        self.selected_input = SelectedInput::Password;
                        self.username.icon = Icon::Empty;
                        self.password.icon = Icon::Selected;
                    },
                }
                LoginAction::Nothing
            },
            Key::Enter => {
                if self.password.value.len() == 0 {
                    self.password.icon = Icon::Question;
                    LoginAction::Nothing
                } else {
                    LoginAction::Authenticate
                }
            },
            _ => {
                match self.selected_input {
                    SelectedInput::Username => self.username.handle_key_event(key),
                    SelectedInput::Password => self.password.handle_key_event(key),
                }
                LoginAction::Nothing
            },
        }
    }

    /// Overwrites the typed password and empties the field, once it has been
    /// handed to the authentication service.
    pub fn wipe_password(&mut self)
        ensures
            final(self).password.value@.len() == 0,
            final(self).password.icon == old(self).password.icon,
            final(self).password.hidden == old(self).password.hidden,
            final(self).password.cursor_index == old(self).password.cursor_index,
            final(self).username == old(self).username,
            final(self).selected_input == old(self).selected_input,
    {
        let mut i: usize = 0;
        while i < self.password.value.len()
            invariant
                i <= self.password.value.len(),
                self.password.icon == old(self).password.icon,
                self.password.hidden == old(self).password.hidden,
                self.password.cursor_index == old(self).password.cursor_index,
                self.username == old(self).username,
                self.selected_input == old(self).selected_input,
            decreases self.password.value.len() - i,
        {
            self.password.value.set(i, '\0');
            i = i + 1;
        }
        self.password.value.clear();
    }

    /// Marks the password field after the service rejected the credentials.
    pub fn record_rejection(&mut self)
        ensures
            final(self).password.icon == Icon::Error,
            final(self).password.value == old(self).password.value,
            final(self).password.hidden == old(self).password.hidden,
            final(self).password.cursor_index == old(self).password.cursor_index,
            final(self).username == old(self).username,
            final(self).selected_input == old(self).selected_input,
    {
        self.password.icon = Icon::Error;
    }
}

/// The field `after` is `before` with `key` applied to it.
pub open spec fn field_after_key(before: InputField, after: InputField, key: Key) -> bool {
    &&& after.cursor_index == before.cursor_index
    &&& after.hidden == before.hidden
    &&& match key {
        Key::Backspace => {
            &&& after.value@ == if before.value@.len() > 0 {
                before.value@.drop_last()
            } else {
                before.value@
            }
            &&& after.icon == before.icon
        },
        Key::Char(c) => after.value@ == before.value@.push(c) && after.icon == Icon::Selected,
        _ => after.value@ == before.value@ && after.icon == before.icon,
    }
}


/// A rectangle of terminal cells.
#[derive(Clone, Copy, Debug, PartialEq, Eq, Structural)]
pub struct Area {
    pub x: u16,
    pub y: u16,
    pub width: u16,
    pub height: u16,
}

/// Where the login frame and its two fields are drawn.
#[derive(Clone, Copy, Debug, PartialEq, Eq, Structural)]
pub struct LoginLayout {
    pub frame: Area,
    pub username: Area,
    pub password: Area,
}

pub open spec fn min_int(a: int, b: int) -> int {
    if a < b { a } else { b }
}

pub open spec fn sat_sub(a: int, b: int) -> int {
    if a > b { a - b } else { 0 }
}

pub open spec fn area_is(a: Area, x: int, y: int, width: int, height: int) -> bool {
    a.x == x && a.y == y && a.width == width && a.height == height
}

/// The layout of the login panel inside an area of `area_width` by
/// `area_height` cells whose fields need `field_width` columns: a frame
/// four cells higher and wider than the fields (one more column when that
/// centres it exactly), shrunk to the area and centred in it, with the
/// username on its first inner row and the password on its second.
pub open spec fn is_login_layout(area_width: int, area_height: int, field_width: int, r: LoginLayout) -> bool {
    let required_width = field_width + 4;
    let parity = (required_width + area_width) % 2;
    let width = min_int(area_width, required_width + 2 + parity);
    let height = min_int(area_height, 4);
    let x = (area_width - width) / 2;
    let y = (area_height - height) / 2;
    let content_width = sat_sub(width, 2);
    let content_height = sat_sub(height, 2);
    &&& area_is(r.frame, x, y, width, height)
    &&& area_is(
        r.username,
        x + min_int(1, content_width),
        y + min_int(1, content_height),
        sat_sub(content_width, 2),
        content_height,
    )
    &&& area_is(
        r.password,
        x + min_int(1, content_width),
        y + min_int(2, content_height),
        sat_sub(content_width, 2),
        content_height,
    )
}

/// Places the login frame and fields in an area of the given size.
pub fn login_layout(area_width: u16, area_height: u16, field_width: u16) -> (r: LoginLayout)
    requires
        field_width + 4 + area_width <= u16::MAX,
        field_width + 7 <= u16::MAX,
    ensures
        is_login_layout(area_width as int, area_height as int, field_width as int, r),
{
    let required_width: u16 = field_width + 4;
    let required_height: u16 = 2;
    let parity = (required_width + area_width) % 2;
    let wanted_width = required_width + 2 + parity;
    let width = if area_width < wanted_width { area_width } else { wanted_width };
    let height = if area_height < required_height + 2 { area_height } else { required_height + 2 };
    let x = (area_width - width) / 2;
    let y = (area_height - height) / 2;
    let content_width = width.saturating_sub(2);
    let content_height = height.saturating_sub(2);
    let inset_x = if content_width < 1 { content_width } else { 1 };
    let inset_user = if content_height < 1 { content_height } else { 1 };
    let inset_pass = if content_height < 2 { content_height } else { 2 };
    LoginLayout {
        frame: Area { x, y, width, height },
        username: Area {
            x: x + inset_x,
            y: y + inset_user,
            width: content_width.saturating_sub(2),
            height: content_height,
        },
        password: Area {
            x: x + inset_x,
            y: y + inset_pass,
            width: content_width.saturating_sub(2),
            height: content_height,
        },
    }
}

impl LoginInfo {
    /// Columns needed by the wider of the two fields.
    pub fn field_width(&self) -> (r: u16)
        ensures
            r as int == min_int(
                if self.username.value.len() < self.password.value.len() {
                    self.password.value.len() as int
                } else {
                    self.username.value.len() as int
                },
                u16::MAX as int,
            ),
    {
        let u = self.username.required_size();
        let p = self.password.required_size();
        if u < p {
            p
        } else {
            u
        }
    }
}

} // verus!
