//! Keys and clicks.
use vstd::prelude::*;

verus! {

/// Whether a character is a letter of any script.
pub uninterp spec fn alphabetic(c: char) -> bool;

/// `char::is_alphabetic`: whether the character has the Unicode property Alphabetic, by
/// the name `alphabetic`.
pub assume_specification[ char::is_alphabetic ](c: char) -> (b: bool)
    ensures
        b == alphabetic(c),
;

/// Which key was pressed.
#[derive(Clone, Copy, Debug, PartialEq, Eq, Structural)]
pub enum KeyCode {
    Char(char),
    Enter,
    Esc,
    Backspace,
    Tab,
    Left,
    Right,
    Up,
    Down,
    Home,
    End,
    PageUp,
    PageDown,
    /// Any other key.
    Other,
}

/// The modifiers held with a key.
#[derive(Clone, Copy, Debug, PartialEq, Eq, Structural)]
pub struct Modifiers {
    pub shift: bool,
    pub control: bool,
    pub alt: bool,
    /// Any other modifier.
    pub other: bool,
}

impl Modifiers {
    pub open spec fn only_shift(self) -> bool {
        self.shift && !self.control && !self.alt && !self.other
    }

    pub open spec fn only_control(self) -> bool {
        self.control && !self.shift && !self.alt && !self.other
    }

    /// Shift and nothing else.
    pub fn is_shift(self) -> (b: bool)
        ensures
            b == self.only_shift(),
    {
        self.shift && !self.control && !self.alt && !self.other
    }

    /// Control and nothing else.
    pub fn is_control(self) -> (b: bool)
        ensures
            b == self.only_control(),
    {
        self.control && !self.shift && !self.alt && !self.other
    }
}

/// A key press.
#[derive(Clone, Copy, Debug, PartialEq, Eq, Structural)]
pub struct KeyEvent {
    pub code: KeyCode,
    pub modifiers: Modifiers,
}

impl KeyEvent {
    /// A key without modifiers.
    pub fn plain(code: KeyCode) -> (k: KeyEvent)
        ensures
            k.code == code,
            k.modifiers == (Modifiers { shift: false, control: false, alt: false, other: false }),
    {
        KeyEvent {
            code,
            modifiers: Modifiers { shift: false, control: false, alt: false, other: false },
        }
    }

    pub open spec fn ctrl_c(self) -> bool {
        self.code == KeyCode::Char('c') && self.modifiers.control
    }
}

/// Whether a key event is Ctrl-C.
pub fn is_ctrl_c(key: &KeyEvent) -> (b: bool)
    ensures
        b == key.ctrl_c(),
{
    key.code == KeyCode::Char('c') && key.modifiers.control
}

/// The letter of a key that is no shortcut on any layout.
pub open spec fn foreign_letter(key: KeyEvent) -> Option<char> {
    match key.code {
        KeyCode::Char(c) => if !key.modifiers.control && !key.modifiers.alt && c as int >= 128
            && alphabetic(c) {
            Some(c)
        } else {
            None
        },
        _ => None,
    }
}

/// The letter of a key that looks like the wrong keyboard layout: one outside of ASCII,
/// without Control or Alt. Such a key can match no shortcut.
pub fn wrong_layout_char(key: &KeyEvent) -> (r: Option<char>)
    ensures
        r == foreign_letter(*key),
{
    match key.code {
        KeyCode::Char(c) => {
            if !key.modifiers.control && !key.modifiers.alt && c as u32 >= 128 && c.is_alphabetic() {
                Some(c)
            } else {
                None
            }
        },
        _ => None,
    }
}

/// The hint about a key that is no shortcut.
pub open spec fn layout_hint(c: char) -> Seq<char> {
    "⚠ '"@ + seq![c] + "' is not a shortcut — a non-US/Latin keyboard layout may be active"@
}

/// The hint shown for the letter of a wrong keyboard layout.
pub fn layout_hint_msg(c: char) -> (r: String)
    ensures
        r@ == layout_hint(c),
{
    let mut s = "⚠ '".to_owned();
    s.push(c);
    proof {
        assert(s@ =~= "⚠ '"@ + seq![c]);
    }
    s.concat("' is not a shortcut — a non-US/Latin keyboard layout may be active")
}

} // verus!
