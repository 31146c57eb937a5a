//! What each key does in a menu or a text prompt.
use vstd::prelude::*;

use crate::inputs::{number_of, parse_number, parse_shape_input, parse_slice_input, shape_read};
use crate::inputs::{slice_read, trim, trimmed, Percent};
use crate::keys::{is_ctrl_c, KeyCode, KeyEvent};
use crate::sample::ViewDtype;
use crate::text::{chars_of, decimal, decimal_string, digit, is_digit, join, joined, substring};
use crate::units::{number_strings, number_texts};

verus! {

/// What becomes of a prompt after a key.
#[derive(Debug)]
pub enum Outcome<T> {
    /// It stays open.
    Stay,
    /// The whole application is left.
    Quit,
    /// It is left without a choice.
    Cancel,
    /// It is left with this choice.
    Done(T),
}

// ---------------------------------------------------------------------------
// Menus

/// The index one to the right, around the end.
pub open spec fn next_of(idx: int, len: int) -> int {
    if idx + 1 < len {
        idx + 1
    } else {
        0
    }
}

/// The index one to the left, around the beginning.
pub open spec fn previous_of(idx: int, len: int) -> int {
    if idx > 0 {
        idx - 1
    } else {
        len - 1
    }
}

/// The entry highlighted after a key in a horizontal menu, and what becomes of the menu.
/// `letter` and `capital` move like the right and the left arrow.
pub open spec fn menu_after(
    idx: int,
    len: int,
    key: KeyEvent,
    letter: Option<char>,
    capital: Option<char>,
) -> (int, Outcome<int>) {
    if key.ctrl_c() {
        (idx, Outcome::Quit)
    } else {
        match key.code {
            KeyCode::Right => (next_of(idx, len), Outcome::Stay),
            KeyCode::Left => (previous_of(idx, len), Outcome::Stay),
            KeyCode::Enter => (idx, Outcome::Done(idx)),
            KeyCode::Esc => (idx, Outcome::Cancel),
            KeyCode::Char(c) => if letter == Some(c) {
                (next_of(idx, len), Outcome::Stay)
            } else if capital == Some(c) {
                (previous_of(idx, len), Outcome::Stay)
            } else {
                (idx, Outcome::Stay)
            },
            _ => (idx, Outcome::Stay),
        }
    }
}

/// A key in a horizontal menu.
pub fn menu_key(
    idx: usize,
    len: usize,
    key: &KeyEvent,
    letter: Option<char>,
    capital: Option<char>,
) -> (r: (usize, Outcome<usize>))
    requires
        idx < len,
    ensures
        r.0 < len,
        r.0 == menu_after(idx as int, len as int, *key, letter, capital).0,
        match menu_after(idx as int, len as int, *key, letter, capital).1 {
            Outcome::Stay => r.1 is Stay,
            Outcome::Quit => r.1 is Quit,
            Outcome::Cancel => r.1 is Cancel,
            Outcome::Done(i) => r.1 is Done && r.1->Done_0 == i,
        },
{
    let right: usize = if idx + 1 < len {
        idx + 1
    } else {
        0
    };
    let left: usize = if idx > 0 {
        idx - 1
    } else {
        len - 1
    };
    if is_ctrl_c(key) {
        return (idx, Outcome::Quit);
    }
    match key.code {
        KeyCode::Right => (right, Outcome::Stay),
        KeyCode::Left => (left, Outcome::Stay),
        KeyCode::Enter => (idx, Outcome::Done(idx)),
        KeyCode::Esc => (idx, Outcome::Cancel),
        KeyCode::Char(c) => {
            if letter == Some(c) {
                (right, Outcome::Stay)
            } else if capital == Some(c) {
                (left, Outcome::Stay)
            } else {
                (idx, Outcome::Stay)
            }
        },
        _ => (idx, Outcome::Stay),
    }
}

/// Moving right and then left, or left and then right, comes back to the same entry.
pub proof fn law_menu_steps_undo(idx: int, len: int)
    requires
        0 <= idx < len,
    ensures
        previous_of(next_of(idx, len), len) == idx,
        next_of(previous_of(idx, len), len) == idx,
        0 <= next_of(idx, len) < len,
        0 <= previous_of(idx, len) < len,
{
}

/// Where the dtype menu starts: at the active view, or at the first entry where it is
/// not among them.
pub fn dtype_menu_start(options: &Vec<ViewDtype>, current: ViewDtype) -> (r: usize)
    requires
        options.len() > 0,
    ensures
        r < options.len(),
        (exists|k: int| 0 <= k < options.len() && (#[trigger] options@[k]).same_view(current)) ==> (
        options@[r as int].same_view(current) && forall|k: int|
            0 <= k < r ==> !(#[trigger] options@[k]).same_view(current)),
        (forall|k: int| 0 <= k < options.len() ==> !(#[trigger] options@[k]).same_view(current))
            ==> r == 0,
{
    let mut i: usize = 0;
    while i < options.len()
        invariant
            i <= options.len(),
            forall|k: int| 0 <= k < i ==> !(#[trigger] options@[k]).same_view(current),
        decreases options.len() - i,
    {
        if options[i].is_same(current) {
            return i;
        }
        i = i + 1;
    }
    0
}

// ---------------------------------------------------------------------------
// Text prompts

/// What is typed so far, and the complaint about it.
#[derive(Debug)]
pub struct Entry {
    pub text: String,
    pub error: Option<String>,
}

/// The view of an optional text.
pub open spec fn optional(s: Option<String>) -> Option<Seq<char>> {
    match s {
        Some(t) => Some(t@),
        None => None,
    }
}

/// What is typed so far, and the complaint.
pub struct EntryModel {
    pub text: Seq<char>,
    pub error: Option<Seq<char>>,
}

impl DeepView for Entry {
    type V = EntryModel;

    open spec fn deep_view(&self) -> EntryModel {
        EntryModel { text: self.text@, error: optional(self.error) }
    }
}

impl EntryModel {
    /// A character typed.
    pub open spec fn typed(self, c: char) -> EntryModel {
        EntryModel { text: self.text.push(c), error: None }
    }

    /// The last character taken back.
    pub open spec fn erased(self) -> EntryModel {
        EntryModel {
            text: if self.text.len() > 0 {
                self.text.drop_last()
            } else {
                self.text
            },
            error: None,
        }
    }

    /// A complaint about what was typed.
    pub open spec fn refused(self, e: Seq<char>) -> EntryModel {
        EntryModel { text: self.text, error: Some(e) }
    }
}

impl Entry {
    /// An entry with a text to begin with.
    pub fn new(text: String) -> (r: Entry)
        ensures
            r.deep_view() == (EntryModel { text: text@, error: None }),
    {
        Entry { text, error: None }
    }

    fn put(&mut self, c: char)
        ensures
            final(self).deep_view() == old(self).deep_view().typed(c),
    {
        let mut t = self.text.clone();
        t.push(c);
        self.text = t;
        self.error = None;
    }

    fn erase(&mut self)
        ensures
            final(self).deep_view() == old(self).deep_view().erased(),
    {
        let v = chars_of(self.text.as_str());
        if v.len() > 0 {
            let t = substring(&v, 0, v.len() - 1);
            proof {
                assert(t@ =~= v@.drop_last());
            }
            self.text = t;
        }
        self.error = None;
    }

    fn refuse(&mut self, e: String)
        ensures
            final(self).deep_view() == old(self).deep_view().refused(e@),
    {
        self.error = Some(e);
    }
}

/// The outcome of the reshape prompt.
#[derive(Debug)]
pub enum ReshapeChoice {
    /// Apply this shape.
    Apply(Vec<usize>),
    /// Clear any override.
    Clear,
}

/// The reshape prompt begins with the current override, if there is one.
pub fn reshape_entry(current: Option<&Vec<usize>>) -> (r: Entry)
    ensures
        r.deep_view() == (EntryModel {
            text: match current {
                Some(s) => join(number_texts(s@), ", "@),
                None => ""@,
            },
            error: None,
        }),
{
    match current {
        Some(s) => Entry::new(joined(&number_strings(s.as_slice()), ", ")),
        None => Entry::new("".to_owned()),
    }
}

/// A character that can be typed into the reshape prompt.
pub open spec fn reshape_char(c: char) -> bool {
    is_digit(c) || c == ',' || c == ' ' || c == 'x' || c == '*' || c == '-' || c == '_'
}

/// The entry of the reshape prompt after a key.
pub open spec fn reshape_after(e: EntryModel, key: KeyEvent, elements: usize) -> EntryModel {
    if key.ctrl_c() {
        e
    } else {
        match key.code {
            KeyCode::Enter => if trimmed(e.text).len() == 0 {
                e
            } else {
                match shape_read(e.text, elements) {
                    Ok(_) => e,
                    Err(msg) => e.refused(msg),
                }
            },
            KeyCode::Backspace => e.erased(),
            KeyCode::Char(c) => if reshape_char(c) {
                e.typed(c)
            } else {
                e
            },
            _ => e,
        }
    }
}

/// A key in the reshape prompt: Enter applies the shape, or clears the override where
/// nothing is entered; Esc leaves it as it is.
pub fn reshape_key(entry: &mut Entry, key: &KeyEvent, elements: usize) -> (r: Outcome<ReshapeChoice>)
    ensures
        final(entry).deep_view() == reshape_after(old(entry).deep_view(), *key, elements),
        r is Quit <==> key.ctrl_c(),
        r is Cancel <==> !key.ctrl_c() && key.code == KeyCode::Esc,
        r is Done <==> !key.ctrl_c() && key.code == KeyCode::Enter && (trimmed(
            old(entry).text@,
        ).len() == 0 || shape_read(old(entry).text@, elements) is Ok),
        r matches Outcome::Done(ReshapeChoice::Clear) ==> trimmed(old(entry).text@).len() == 0,
        r matches Outcome::Done(ReshapeChoice::Apply(s)) ==> trimmed(old(entry).text@).len() > 0
            && shape_read(old(entry).text@, elements) == Ok::<Seq<usize>, Seq<char>>(s@),
{
    if is_ctrl_c(key) {
        return Outcome::Quit;
    }
    match key.code {
        KeyCode::Enter => {
            if trim(entry.text.as_str()).as_str().unicode_len() == 0 {
                return Outcome::Done(ReshapeChoice::Clear);
            }
            match parse_shape_input(entry.text.as_str(), elements) {
                Ok(shape) => Outcome::Done(ReshapeChoice::Apply(shape)),
                Err(msg) => {
                    entry.refuse(msg);
                    Outcome::Stay
                },
            }
        },
        KeyCode::Esc => Outcome::Cancel,
        KeyCode::Backspace => {
            entry.erase();
            Outcome::Stay
        },
        KeyCode::Char(c) => {
            if digit(c) || c == ',' || c == ' ' || c == 'x' || c == '*' || c == '-' || c == '_' {
                entry.put(c);
            }
            Outcome::Stay
        },
        _ => Outcome::Stay,
    }
}

/// A character that can be typed into the slice prompt.
pub open spec fn slice_char(c: char) -> bool {
    is_digit(c) || c == '.' || c == '%'
}

/// The entry of the slice prompt after a key.
pub open spec fn slice_after(e: EntryModel, key: KeyEvent, slices: usize, percent: Percent) -> EntryModel {
    if key.ctrl_c() {
        e
    } else {
        match key.code {
            KeyCode::Enter => match slice_read(e.text, slices, percent) {
                Ok(_) => e,
                Err(msg) => e.refused(msg),
            },
            KeyCode::Backspace => e.erased(),
            KeyCode::Char(c) => if slice_char(c) {
                e.typed(c)
            } else {
                e
            },
            _ => e,
        }
    }
}

/// A key in the slice prompt: Enter jumps to the slice, or cancels where nothing is
/// entered. `percent` is what the entry's percentage comes to, where it is one.
pub fn slice_key(entry: &mut Entry, key: &KeyEvent, slices: usize, percent: &Percent) -> (r: Outcome<
    usize,
>)
    ensures
        final(entry).deep_view() == slice_after(old(entry).deep_view(), *key, slices, *percent),
        r is Quit <==> key.ctrl_c(),
        r is Cancel <==> !key.ctrl_c() && (key.code == KeyCode::Esc || (key.code == KeyCode::Enter
            && slice_read(old(entry).text@, slices, *percent) == Ok::<Option<usize>, Seq<char>>(
            None,
        ))),
        r is Done <==> !key.ctrl_c() && key.code == KeyCode::Enter && slice_read(
            old(entry).text@,
            slices,
            *percent,
        ) is Ok && slice_read(old(entry).text@, slices, *percent)->Ok_0 is Some,
        r is Done ==> slice_read(old(entry).text@, slices, *percent) == Ok::<
            Option<usize>,
            Seq<char>,
        >(Some(r->Done_0)),
{
    if is_ctrl_c(key) {
        return Outcome::Quit;
    }
    match key.code {
        KeyCode::Enter => match parse_slice_input(entry.text.as_str(), slices, percent) {
            Ok(Some(n)) => Outcome::Done(n),
            Ok(None) => Outcome::Cancel,
            Err(msg) => {
                entry.refuse(msg);
                Outcome::Stay
            },
        },
        KeyCode::Esc => Outcome::Cancel,
        KeyCode::Backspace => {
            entry.erase();
            Outcome::Stay
        },
        KeyCode::Char(c) => {
            if digit(c) || c == '.' || c == '%' {
                entry.put(c);
            }
            Outcome::Stay
        },
        _ => Outcome::Stay,
    }
}

/// The bin-count prompt begins with the current count, if there is one.
pub fn bins_entry(current: Option<usize>) -> (r: Entry)
    ensures
        r.deep_view() == (EntryModel {
            text: match current {
                Some(n) => decimal(n as nat),
                None => ""@,
            },
            error: None,
        }),
{
    match current {
        Some(n) => Entry::new(decimal_string(n as u128)),
        None => Entry::new("".to_owned()),
    }
}

/// The complaint about a bin count, if there is one.
pub open spec fn bins_fault(text: Seq<char>) -> Option<Seq<char>> {
    match number_of(trimmed(text)) {
        Some(n) => if 1 <= n <= 512 {
            None
        } else {
            Some("Enter a count between 1 and 512."@)
        },
        None => Some("Enter a whole number (empty = automatic)."@),
    }
}

/// The entry of a prompt for free text after a key; `fault` is the complaint that Enter
/// gives.
pub open spec fn text_after(e: EntryModel, key: KeyEvent, fault: Option<Seq<char>>) -> EntryModel {
    if key.ctrl_c() {
        e
    } else {
        match key.code {
            KeyCode::Enter => match fault {
                Some(msg) => e.refused(msg),
                None => e,
            },
            KeyCode::Backspace => e.erased(),
            KeyCode::Char(c) => e.typed(c),
            _ => e,
        }
    }
}

/// A key in the bin-count prompt: Enter takes the count, or the automatic one (`None`)
/// where nothing is entered.
pub fn bins_key(entry: &mut Entry, key: &KeyEvent) -> (r: Outcome<Option<usize>>)
    ensures
        ({
            let t = trimmed(old(entry).text@);
            &&& final(entry).deep_view() == text_after(
                old(entry).deep_view(),
                *key,
                if t.len() == 0 {
                    None
                } else {
                    bins_fault(old(entry).text@)
                },
            )
            &&& r is Quit <==> key.ctrl_c()
            &&& r is Cancel <==> !key.ctrl_c() && key.code == KeyCode::Esc
            &&& r is Done <==> !key.ctrl_c() && key.code == KeyCode::Enter && (t.len() == 0
                || bins_fault(old(entry).text@) is None)
            &&& r is Done ==> r->Done_0 == if t.len() == 0 {
                None
            } else {
                number_of(t)
            }
        }),
{
    if is_ctrl_c(key) {
        return Outcome::Quit;
    }
    match key.code {
        KeyCode::Enter => {
            let t = trim(entry.text.as_str());
            if t.as_str().unicode_len() == 0 {
                return Outcome::Done(None);
            }
            match parse_number(t.as_str()) {
                Some(n) => {
                    if 1 <= n && n <= 512 {
                        Outcome::Done(Some(n))
                    } else {
                        entry.refuse("Enter a count between 1 and 512.".to_owned());
                        Outcome::Stay
                    }
                },
                None => {
                    entry.refuse("Enter a whole number (empty = automatic).".to_owned());
                    Outcome::Stay
                },
            }
        },
        KeyCode::Esc => Outcome::Cancel,
        KeyCode::Backspace => {
            entry.erase();
            Outcome::Stay
        },
        KeyCode::Char(c) => {
            entry.put(c);
            Outcome::Stay
        },
        _ => Outcome::Stay,
    }
}

/// The complaint about a buffer size that was read so, if there is one.
pub open spec fn buffer_fault(size: Result<usize, String>) -> Option<Seq<char>> {
    match size {
        Ok(n) => if n > 0 {
            None
        } else {
            Some("Buffer must be greater than zero."@)
        },
        Err(e) => Some(e@),
    }
}

/// A key in the buffer-size prompt. `size` is what the entry is read as.
pub fn buffer_key(entry: &mut Entry, key: &KeyEvent, size: &Result<usize, String>) -> (r: Outcome<usize>)
    ensures
        final(entry).deep_view() == text_after(old(entry).deep_view(), *key, buffer_fault(*size)),
        r is Quit <==> key.ctrl_c(),
        r is Cancel <==> !key.ctrl_c() && key.code == KeyCode::Esc,
        r is Done <==> !key.ctrl_c() && key.code == KeyCode::Enter && buffer_fault(*size) is None,
        r is Done ==> *size == Ok::<usize, String>(r->Done_0),
{
    if is_ctrl_c(key) {
        return Outcome::Quit;
    }
    match key.code {
        KeyCode::Enter => match size {
            Ok(n) => {
                if *n > 0 {
                    Outcome::Done(*n)
                } else {
                    entry.refuse("Buffer must be greater than zero.".to_owned());
                    Outcome::Stay
                }
            },
            Err(e) => {
                entry.refuse(e.clone());
                Outcome::Stay
            },
        },
        KeyCode::Esc => Outcome::Cancel,
        KeyCode::Backspace => {
            entry.erase();
            Outcome::Stay
        },
        KeyCode::Char(c) => {
            entry.put(c);
            Outcome::Stay
        },
        _ => Outcome::Stay,
    }
}

/// The complaint about an output path, if there is one.
pub open spec fn output_fault(text: Seq<char>, taken: bool) -> Option<Seq<char>> {
    if trimmed(text).len() == 0 {
        Some("Enter a file name."@)
    } else if taken {
        Some("That file already exists — choose another name."@)
    } else {
        None
    }
}

/// A key in the output-path prompt. `taken` tells whether the file that the entry names
/// exists already.
pub fn output_key(entry: &mut Entry, key: &KeyEvent, taken: bool) -> (r: Outcome<String>)
    ensures
        final(entry).deep_view() == text_after(
            old(entry).deep_view(),
            *key,
            output_fault(old(entry).text@, taken),
        ),
        r is Quit <==> key.ctrl_c(),
        r is Cancel <==> !key.ctrl_c() && key.code == KeyCode::Esc,
        r is Done <==> !key.ctrl_c() && key.code == KeyCode::Enter && output_fault(
            old(entry).text@,
            taken,
        ) is None,
        r is Done ==> r->Done_0@ == trimmed(old(entry).text@),
{
    if is_ctrl_c(key) {
        return Outcome::Quit;
    }
    match key.code {
        KeyCode::Enter => {
            let t = trim(entry.text.as_str());
            if t.as_str().unicode_len() == 0 {
                entry.refuse("Enter a file name.".to_owned());
                Outcome::Stay
            } else if taken {
                entry.refuse("That file already exists — choose another name.".to_owned());
                Outcome::Stay
            } else {
                Outcome::Done(t)
            }
        },
        KeyCode::Esc => Outcome::Cancel,
        KeyCode::Backspace => {
            entry.erase();
            Outcome::Stay
        },
        KeyCode::Char(c) => {
            entry.put(c);
            Outcome::Stay
        },
        _ => Outcome::Stay,
    }
}

/// Typing adds a character and Backspace takes the last one back; both clear the complaint.
pub proof fn law_entries_are_edited_at_the_end(e: EntryModel, c: char, message: Seq<char>)
    ensures
        e.typed(c).text == e.text.push(c),
        e.typed(c).erased().text == e.text,
        e.typed(c).error is None,
        e.erased().error is None,
        e.text.len() == 0 ==> e.erased().text == e.text,
        e.refused(message).text == e.text,
        e.refused(message).error == Some(message),
{
    assert(e.typed(c).erased().text =~= e.text);
}

/// In an entry, a digit is typed; Backspace erases; Enter leaves what reads, and complains of
/// what does not; Escape and other keys change nothing.
pub proof fn law_entry_keys(
    e: EntryModel,
    key: KeyEvent,
    elements: usize,
    slices: usize,
    percent: Percent,
    c: char,
)
    requires
        !key.modifiers.control,
    ensures
        key.code == KeyCode::Backspace ==> reshape_after(e, key, elements) == e.erased()
            && slice_after(e, key, slices, percent) == e.erased() && text_after(e, key, None)
            == e.erased(),
        key.code == KeyCode::Char(c) && '0' <= c && c <= '9' ==> reshape_after(e, key, elements)
            == e.typed(c) && slice_after(e, key, slices, percent) == e.typed(c) && text_after(
            e,
            key,
            None,
        ) == e.typed(c),
        key.code == KeyCode::Char(c) && (c == ',' || c == 'x') ==> reshape_after(e, key, elements)
            == e.typed(c) && slice_after(e, key, slices, percent) == e,
        key.code == KeyCode::Char('%') ==> slice_after(e, key, slices, percent) == e.typed('%')
            && reshape_after(e, key, elements) == e,
        key.code == KeyCode::Enter && shape_read(e.text, elements) is Ok ==> reshape_after(
            e,
            key,
            elements,
        ) == e,
        key.code == KeyCode::Enter && trimmed(e.text).len() > 0 ==> (shape_read(
            e.text,
            elements,
        ) matches Err(m) ==> reshape_after(e, key, elements).error == Some(m)),
        key.code == KeyCode::Enter ==> (slice_read(e.text, slices, percent) matches Err(m)
            ==> slice_after(e, key, slices, percent).error == Some(m)),
        key.code == KeyCode::Esc ==> reshape_after(e, key, elements) == e && slice_after(
            e,
            key,
            slices,
            percent,
        ) == e && text_after(e, key, None) == e,
{
}

/// In a menu, Right and the letter go on, Left and the capital back, Enter takes the entry
/// and Escape none.
pub proof fn law_menu_keys(idx: int, len: int, key: KeyEvent, letter: char, capital: char)
    requires
        0 <= idx < len,
        !key.modifiers.control,
        letter != capital,
    ensures
        ({
            let (to, outcome) = menu_after(idx, len, key, Some(letter), Some(capital));
            &&& key.code == KeyCode::Right || key.code == KeyCode::Char(letter) ==> outcome is Stay
                && to == if idx + 1 < len {
                idx + 1
            } else {
                0
            }
            &&& key.code == KeyCode::Left || key.code == KeyCode::Char(capital) ==> outcome is Stay
                && to == if idx > 0 {
                idx - 1
            } else {
                len - 1
            }
            &&& key.code == KeyCode::Enter ==> outcome == Outcome::Done(idx)
            &&& key.code == KeyCode::Esc ==> outcome is Cancel && to == idx
        }),
{
}

/// A count of bins is between 1 and 512; a buffer is not empty; an output has a name that is
/// not taken.
pub proof fn law_entries_are_refused(text: Seq<char>, size: Result<usize, String>, taken: bool)
    ensures
        bins_fault(text) is None <==> number_of(trimmed(text)) is Some && 1 <= number_of(
            trimmed(text),
        )->0 <= 512,
        buffer_fault(size) is None <==> size is Ok && size->Ok_0 > 0,
        output_fault(text, taken) is None <==> trimmed(text).len() > 0 && !taken,
{
}

} // verus!
