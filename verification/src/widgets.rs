//! The input widgets of the terminal renderer: which widget an input is, and
//! what a numeric input does with its size, its border and its keys.

use vstd::prelude::*;
use vstd::string::*;
use vstd::utf8::{
    decode_utf8_split, encode_utf8_decode_utf8, encode_utf8_valid_utf8, is_char_boundary,
    is_char_boundary_iff_not_is_continuation_byte, is_char_boundary_start_end_of_seq, valid_utf8,
    valid_utf8_split,
};
use crate::text::{chars_of, str_eq};

verus! {

/// The properties of an input. The handlers of its events are not among
/// them: what is decided here is which of them a widget listens to.
#[derive(Clone, Copy, Debug, PartialEq, Eq)]
pub struct InputProps<'a> {
    /// The `type` attribute of the input.
    pub kind: Option<&'a str>,
    pub value: Option<&'a str>,
    pub size: Option<&'a str>,
    pub width: Option<&'a str>,
    pub height: Option<&'a str>,
    pub min: Option<&'a str>,
    pub max: Option<&'a str>,
}

/// The widget that renders an input.
#[derive(Clone, Copy, Debug, PartialEq, Eq, Structural)]
pub enum Widget {
    CheckBox,
    Slider,
    Button,
    NumbericInput,
    TextBox,
}

/// The event whose handler a widget is given as its own.
#[derive(Clone, Copy, Debug, PartialEq, Eq, Structural)]
pub enum Handler {
    OnInput,
    OnClick,
}

/// The widget for an input of the given type: a text box where the type is
/// none of the others.
pub open spec fn widget_of(kind: Option<&str>) -> Widget {
    match kind {
        Some(name) => if name@ == "checkbox"@ {
            Widget::CheckBox
        } else if name@ == "range"@ {
            Widget::Slider
        } else if name@ == "button"@ {
            Widget::Button
        } else if name@ == "number"@ {
            Widget::NumbericInput
        } else {
            Widget::TextBox
        },
        None => Widget::TextBox,
    }
}

/// The handler that a widget is given: a button and a numeric input get the
/// one for clicks, the others the one for input.
pub open spec fn handler_of(widget: Widget) -> Handler {
    match widget {
        Widget::Button => Handler::OnClick,
        Widget::NumbericInput => Handler::OnClick,
        _ => Handler::OnInput,
    }
}

/// Whether a widget is given the size of the input: the two that take text.
pub open spec fn takes_size(widget: Widget) -> bool {
    widget == Widget::NumbericInput || widget == Widget::TextBox
}

/// Whether a widget is given the least and the greatest value of the input:
/// the slider.
pub open spec fn takes_range(widget: Widget) -> bool {
    widget == Widget::Slider
}

/// A widget and what it is given of the input's properties.
#[derive(Clone, Copy, Debug, PartialEq, Eq)]
pub struct Rendered<'a> {
    pub widget: Widget,
    pub handler: Handler,
    pub value: Option<&'a str>,
    pub size: Option<&'a str>,
    pub width: Option<&'a str>,
    pub height: Option<&'a str>,
    pub min: Option<&'a str>,
    pub max: Option<&'a str>,
}

/// Picks the widget that renders the input, the handler that it is given,
/// and what it is given of the properties: every widget gets the value, the
/// width and the height.
#[allow(non_snake_case)]
pub fn Input<'a>(props: &InputProps<'a>) -> (chosen: Rendered<'a>)
    ensures
        chosen.widget == widget_of(props.kind),
        chosen.handler == handler_of(chosen.widget),
        chosen.value == props.value,
        chosen.width == props.width,
        chosen.height == props.height,
        chosen.size == if takes_size(chosen.widget) {
            props.size
        } else {
            None
        },
        chosen.min == if takes_range(chosen.widget) {
            props.min
        } else {
            None
        },
        chosen.max == if takes_range(chosen.widget) {
            props.max
        } else {
            None
        },
{
    let widget = match props.kind {
        Some(name) => {
            if str_eq(name, "checkbox") {
                Widget::CheckBox
            } else if str_eq(name, "range") {
                Widget::Slider
            } else if str_eq(name, "button") {
                Widget::Button
            } else if str_eq(name, "number") {
                Widget::NumbericInput
            } else {
                Widget::TextBox
            }
        },
        None => Widget::TextBox,
    };
    let handler = match widget {
        Widget::Button => Handler::OnClick,
        Widget::NumbericInput => Handler::OnClick,
        _ => Handler::OnInput,
    };
    let size = match widget {
        Widget::NumbericInput => props.size,
        Widget::TextBox => props.size,
        _ => None,
    };
    let (min, max) = match widget {
        Widget::Slider => (props.min, props.max),
        _ => (None, None),
    };
    Rendered {
        widget,
        handler,
        value: props.value,
        size,
        width: props.width,
        height: props.height,
        min,
        max,
    }
}

/// Whether every character is a decimal digit.
pub open spec fn all_digits(text: Seq<char>) -> bool {
    forall|i: int| 0 <= i < text.len() ==> '0' <= #[trigger] text[i] <= '9'
}

/// The number that some decimal digits write.
pub open spec fn digits_value(digits: Seq<char>) -> int
    decreases digits.len(),
{
    if digits.len() == 0 {
        0
    } else {
        digits_value(digits.drop_last()) * 10 + (digits.last() as int - '0' as int)
    }
}

/// The number that `text` writes in decimal, where it writes one between
/// `least` and `greatest`: digits, behind a `+` if any, or behind a `-` where
/// `least` is negative.
pub open spec fn number_written(text: Seq<char>, least: int, greatest: int) -> Option<int> {
    let signed = text.len() > 0 && (text[0] == '+' || (text[0] == '-' && least < 0));
    let digits = if signed {
        text.skip(1)
    } else {
        text
    };
    let value = if signed && text[0] == '-' {
        -digits_value(digits)
    } else {
        digits_value(digits)
    };
    if digits.len() > 0 && all_digits(digits) && least <= value <= greatest {
        Some(value)
    } else {
        None
    }
}

proof fn lemma_digits_positive(digits: Seq<char>)
    requires
        all_digits(digits),
    ensures
        0 <= digits_value(digits),
    decreases digits.len(),
{
    if digits.len() > 0 {
        assert forall|i: int| 0 <= i < digits.drop_last().len() implies '0'
            <= #[trigger] digits.drop_last()[i] <= '9' by {
            assert(digits.drop_last()[i] == digits[i]);
        }
        lemma_digits_positive(digits.drop_last());
        assert('0' <= digits[digits.len() - 1] <= '9');
    }
}

/// The number grows with every digit.
proof fn lemma_digits_grow(digits: Seq<char>, k: int)
    requires
        all_digits(digits),
        0 <= k <= digits.len(),
    ensures
        0 <= digits_value(digits.take(k)) <= digits_value(digits),
    decreases digits.len() - k,
{
    assert forall|i: int| 0 <= i < digits.take(k).len() implies '0' <= #[trigger] digits.take(
        k,
    )[i] <= '9' by {
        assert(digits.take(k)[i] == digits[i]);
    }
    lemma_digits_positive(digits.take(k));
    if k < digits.len() {
        assert(digits.take(k + 1).drop_last() =~= digits.take(k));
        assert(digits.take(k + 1).last() == digits[k]);
        lemma_digits_grow(digits, k + 1);
    } else {
        assert(digits.take(k) =~= digits);
    }
}

/// Reads the decimal number that the characters from `from` up to `to`
/// write, where it lies between `least` and `greatest`.
#[verifier::loop_isolation(false)]
pub fn parse_chars(chars: &Vec<char>, from: usize, to: usize, least: i128, greatest: i128) -> (number:
    Option<i128>)
    requires
        from <= to <= chars@.len(),
        -0x1_0000_0000_0000_0000 <= least <= 0 <= greatest <= 0x1_0000_0000_0000_0000,
    ensures
        match number_written(chars@.subrange(from as int, to as int), least as int, greatest as int) {
            Some(value) => number == Some(value as i128),
            None => number is None,
        },
{
    let ghost text = chars@.subrange(from as int, to as int);
    if from == to {
        return None;
    }
    assert(text[0] == chars@[from as int]);
    let signed = chars[from] == '+' || (chars[from] == '-' && least < 0);
    let negative = signed && chars[from] == '-';
    let start: usize = if signed {
        from + 1
    } else {
        from
    };
    let ghost digits = chars@.subrange(start as int, to as int);
    assert(digits =~= if signed {
        text.skip(1)
    } else {
        text
    });
    if start == to {
        return None;
    }
    let bound: i128 = if negative {
        -least
    } else {
        greatest
    };
    let mut value: i128 = 0;
    let mut i: usize = start;
    assert(digits.take(0) =~= Seq::<char>::empty());
    while i < to
        invariant
            start <= i <= to <= chars@.len(),
            digits == chars@.subrange(start as int, to as int),
            all_digits(digits.take(i - start)),
            value == digits_value(digits.take(i - start)),
            0 <= value <= bound <= 0x1_0000_0000_0000_0000,
        decreases to - i,
    {
        let c = chars[i];
        let ghost before = digits.take(i - start);
        let ghost grown = digits.take(i - start + 1);
        assert(grown.drop_last() =~= before);
        assert(grown.last() == c);
        if c < '0' || c > '9' {
            assert(!all_digits(digits)) by {
                assert(digits[i - start] == c);
            }
            return None;
        }
        let digit = (c as u32 - '0' as u32) as i128;
        assert(all_digits(grown)) by {
            assert forall|j: int| 0 <= j < grown.len() implies '0' <= #[trigger] grown[j]
                <= '9' by {
                if j < before.len() {
                    assert(before[j] == grown[j]);
                }
            }
        }
        let next = value * 10 + digit;
        if next > bound {
            proof {
                if all_digits(digits) {
                    lemma_digits_grow(digits, i - start + 1);
                }
            }
            return None;
        }
        value = next;
        i += 1;
    }
    assert(digits.take(i - start) =~= digits);
    if negative {
        Some(-value)
    } else {
        Some(value)
    }
}

/// Reads the decimal number that `text` writes.
pub fn parse_number(text: &str, least: i128, greatest: i128) -> (number: Option<i128>)
    requires
        -0x1_0000_0000_0000_0000 <= least <= 0 <= greatest <= 0x1_0000_0000_0000_0000,
    ensures
        match number_written(text@, least as int, greatest as int) {
            Some(value) => number == Some(value as i128),
            None => number is None,
        },
{
    let chars = chars_of(text);
    assert(chars@.subrange(0, chars@.len() as int) =~= text@);
    parse_chars(&chars, 0, chars.len(), least, greatest)
}

/// The greatest number of characters that a numeric input takes: what `size`
/// says, and any number where it says nothing that can be read.
pub open spec fn size_limit(size: Option<&str>) -> int {
    match size {
        Some(text) => match number_written(text@, 0, usize::MAX as int) {
            Some(value) => value,
            None => usize::MAX as int,
        },
        None => usize::MAX as int,
    }
}

/// The greatest number of characters that a numeric input takes.
pub fn max_len(size: Option<&str>) -> (limit: usize)
    ensures
        limit == size_limit(size),
{
    match size {
        Some(text) => match parse_number(text, 0, usize::MAX as i128) {
            Some(value) => value as usize,
            None => usize::MAX,
        },
        None => usize::MAX,
    }
}

/// The number of pixels that a length says, where it is written as a whole
/// number followed by `px`.
pub open spec fn pixels(length: Seq<char>) -> Option<int> {
    if length.len() >= 2 && length[length.len() - 2] == 'p' && length[length.len() - 1] == 'x' {
        number_written(length.take(length.len() - 2), i32::MIN as int, i32::MAX as int)
    } else {
        None
    }
}

/// Whether a length is too small for a border: less than three pixels.
pub open spec fn too_small(length: Seq<char>) -> bool {
    pixels(length) matches Some(value) && value < 3
}

fn is_too_small(length: &str) -> (small: bool)
    ensures
        small == too_small(length@),
{
    let chars = chars_of(length);
    let n = chars.len();
    if n < 2 || chars[n - 2] != 'p' || chars[n - 1] != 'x' {
        return false;
    }
    assert(chars@.subrange(0, n - 2) =~= length@.take(n - 2));
    match parse_chars(&chars, 0, n - 2, i32::MIN as i128, i32::MAX as i128) {
        Some(value) => value < 3,
        None => false,
    }
}

/// How a numeric input is laid out.
#[derive(Debug, PartialEq, Eq)]
pub struct NumericLayout {
    /// The text that the input starts with.
    pub text: String,
    /// The greatest number of characters that the input takes.
    pub max_len: usize,
    pub width: String,
    pub height: String,
    /// The style of the border: `none` or `solid`.
    pub border: &'static str,
}

/// Lays a numeric input out. Without a width it is ten pixels wide, without a
/// height three pixels high; a border is drawn unless the width or the
/// height is less than three pixels.
#[allow(non_snake_case)]
pub fn NumbericInput(props: &InputProps<'_>) -> (layout: NumericLayout)
    ensures
        layout.text@ == match props.value {
            Some(text) => text@,
            None => Seq::<char>::empty(),
        },
        layout.max_len == size_limit(props.size),
        layout.width@ == match props.width {
            Some(width) => width@,
            None => "10px"@,
        },
        layout.height@ == match props.height {
            Some(height) => height@,
            None => "3px"@,
        },
        layout.border@ == if too_small(layout.width@) || too_small(layout.height@) {
            "none"@
        } else {
            "solid"@
        },
{
    let text = match props.value {
        Some(text) => text.to_owned(),
        None => String::new(),
    };
    let width: &str = match props.width {
        Some(width) => width,
        None => "10px",
    };
    let height: &str = match props.height {
        Some(height) => height,
        None => "3px",
    };
    let border = if is_too_small(width) || is_too_small(height) {
        "none"
    } else {
        "solid"
    };
    NumericLayout {
        text,
        max_len: max_len(props.size),
        width: width.to_owned(),
        height: height.to_owned(),
        border,
    }
}

/// The keys that a numeric input tells apart.
#[derive(Clone, Copy, Debug, PartialEq, Eq, Structural)]
pub enum KeyCode {
    LeftArrow,
    RightArrow,
    Backspace,
    Period,
    UpArrow,
    DownArrow,
    Other,
}

/// What a numeric input does on a key.
#[derive(Clone, Copy, Debug, PartialEq, Eq, Structural)]
pub enum KeyAction {
    /// The key goes to the cursor, which edits the text.
    Edit,
    /// The number goes up by one.
    Increment,
    /// The number goes down by one.
    Decrement,
    /// Nothing.
    Ignore,
}

/// Whether a character is numeric, as the standard library has it.
pub uninterp spec fn numeric(c: char) -> bool;

/// `char::is_numeric`: whether the character is numeric.
#[verifier::external_body]
fn is_numeric(c: char) -> (yes: bool)
    ensures
        yes == numeric(c),
{
    c.is_numeric()
}

/// What a numeric input does on the key with the code `code` that writes
/// `key`: the arrows to the sides, backspace, the period and every key that
/// writes numeric characters only edit the text; of the others, the arrows up
/// and down change the number.
pub open spec fn action_of(code: KeyCode, key: Seq<char>) -> KeyAction {
    if code == KeyCode::LeftArrow || code == KeyCode::RightArrow || code == KeyCode::Backspace
        || code == KeyCode::Period || forall|i: int|
        0 <= i < key.len() ==> numeric(#[trigger] key[i]) {
        KeyAction::Edit
    } else if code == KeyCode::UpArrow {
        KeyAction::Increment
    } else if code == KeyCode::DownArrow {
        KeyAction::Decrement
    } else {
        KeyAction::Ignore
    }
}

/// What a numeric input does on a key.
pub fn key_action(code: KeyCode, key: &str) -> (action: KeyAction)
    ensures
        action == action_of(code, key@),
{
    match code {
        KeyCode::LeftArrow | KeyCode::RightArrow | KeyCode::Backspace | KeyCode::Period => {
            return KeyAction::Edit;
        },
        _ => {},
    }
    let chars = chars_of(key);
    let mut all = true;
    let mut i: usize = 0;
    while i < chars.len()
        invariant
            i <= chars.len(),
            all == forall|j: int| 0 <= j < i ==> numeric(#[trigger] chars@[j]),
        decreases chars.len() - i,
    {
        if !is_numeric(chars[i]) {
            all = false;
        }
        i += 1;
    }
    if all {
        KeyAction::Edit
    } else {
        match code {
            KeyCode::UpArrow => KeyAction::Increment,
            KeyCode::DownArrow => KeyAction::Decrement,
            _ => KeyAction::Ignore,
        }
    }
}

/// Whether a text can be cut at the two places of a cursor: the places are
/// in order, and each stands between two characters of the text, or at one
/// of its ends. A place is counted in bytes.
pub open spec fn cuts(text: &str, start: usize, end: usize) -> bool {
    &&& start <= end
    &&& is_char_boundary(text.spec_bytes(), start as int)
    &&& is_char_boundary(text.spec_bytes(), end as int)
}

/// Whether `text` can be cut at `start` and `end`.
pub fn can_cut(text: &str, start: usize, end: usize) -> (yes: bool)
    ensures
        yes == cuts(text, start, end),
{
    start <= end && text.is_char_boundary(start) && text.is_char_boundary(end)
}

/// A place between two characters of a text is such a place in what follows
/// an earlier one.
proof fn lemma_boundary_in_rest(bytes: Seq<u8>, start: int, end: int)
    requires
        valid_utf8(bytes),
        start <= end,
        is_char_boundary(bytes, start),
        is_char_boundary(bytes, end),
    ensures
        0 <= start <= end <= bytes.len(),
        valid_utf8(bytes.subrange(start, bytes.len() as int)),
        is_char_boundary(bytes.subrange(start, bytes.len() as int), end - start),
{
    reveal_with_fuel(is_char_boundary, 1);
    let rest = bytes.subrange(start, bytes.len() as int);
    valid_utf8_split(bytes, start);
    if end == bytes.len() {
        is_char_boundary_start_end_of_seq(rest);
    } else {
        is_char_boundary_iff_not_is_continuation_byte(bytes, end);
        is_char_boundary_iff_not_is_continuation_byte(rest, end - start);
    }
}

/// The three parts of a text that is cut at the two places of a cursor: what
/// stands before the first place, what is selected between the two, and what
/// stands behind the second.
pub fn split_selection<'a>(text: &'a str, start: usize, end: usize) -> (parts: (
    &'a str,
    &'a str,
    &'a str,
))
    requires
        cuts(text, start, end),
    ensures
        parts.0.spec_bytes() == text.spec_bytes().subrange(0, start as int),
        parts.1.spec_bytes() == text.spec_bytes().subrange(start as int, end as int),
        parts.2.spec_bytes() == text.spec_bytes().subrange(
            end as int,
            text.spec_bytes().len() as int,
        ),
        parts.0@ + parts.1@ + parts.2@ == text@,
{
    let ghost bytes = text.spec_bytes();
    let ghost rest = bytes.subrange(start as int, bytes.len() as int);
    proof {
        encode_utf8_valid_utf8(text@);
        lemma_boundary_in_rest(bytes, start as int, end as int);
    }
    let (before, behind) = text.split_at(start);
    let (selected, after) = behind.split_at(end - start);
    proof {
        assert(behind.spec_bytes() == rest);
        assert(rest.subrange(0, end - start) =~= bytes.subrange(start as int, end as int));
        assert(rest.subrange(end - start, rest.len() as int) =~= bytes.subrange(
            end as int,
            bytes.len() as int,
        ));
        decode_utf8_split(bytes, start as int);
        decode_utf8_split(rest, end - start);
        encode_utf8_decode_utf8(text@);
        encode_utf8_decode_utf8(before@);
        encode_utf8_decode_utf8(selected@);
        encode_utf8_decode_utf8(after@);
        assert(before@ + selected@ + after@ =~= text@);
    }
    (before, selected, after)
}

/// The text that stands for a selection: the selection and a bar behind it,
/// or nothing where nothing is selected.
pub fn highlighted(selection: &str) -> (shown: String)
    ensures
        shown@ == if selection@.len() == 0 {
            Seq::<char>::empty()
        } else {
            selection@ + "|"@
        },
{
    if selection.is_empty() {
        String::new()
    } else {
        String::from_str(selection).concat("|")
    }
}

} // verus!
