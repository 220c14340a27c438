//! Colours of calendars.
use vstd::prelude::*;

use crate::lines;
use crate::model;
use crate::text;

verus! {

/// Whether a text is six hexadecimal digits.
pub open spec fn is_hex_color(digits: Seq<char>) -> bool {
    digits.len() == 6 && forall|i: int| 0 <= i < 6 ==> text::is_hex_digit(#[trigger] digits[i])
}

/// Whether a text is six hexadecimal digits.
fn hex_color(digits: &Vec<char>) -> (r: bool)
    ensures
        r == is_hex_color(digits@),
{
    if digits.len() != 6 {
        return false;
    }
    for i in 0..6usize
        invariant
            digits@.len() == 6,
            forall|k: int| 0 <= k < i ==> text::is_hex_digit(#[trigger] digits@[k]),
    {
        if !text::hex_digit(digits[i]) {
            assert(!text::is_hex_digit(digits@[i as int]));
            return false;
        }
    }
    true
}

/// What follows an optional number sign.
fn digits_of(color: &Vec<char>) -> (r: Vec<char>)
    ensures
        r@ == model::color_digits(color@),
{
    if color.len() > 0 && color[0] == '#' {
        let rest = text::slice(color, 1, color.len());
        assert(rest@ =~= color@.drop_first());
        rest
    } else {
        let all = text::slice(color, 0, color.len());
        assert(all@ =~= color@);
        all
    }
}

/// A colour as six small hexadecimal digits; grey where it is none.
pub open spec fn plain_color(color: Seq<char>) -> Seq<char> {
    let digits = model::color_digits(text::trimmed(color));
    if is_hex_color(digits) {
        text::lower(digits)
    } else {
        "808080"@
    }
}

/// A colour as six small hexadecimal digits.
pub fn sanitize_color(color: &str) -> (r: String)
    ensures
        r@ == plain_color(color@),
{
    let chars = text::chars_of(color);
    let digits = digits_of(&text::trim_chars(&chars));
    if hex_color(&digits) {
        text::string_of(&text::lower_chars(&digits))
    } else {
        String::from_str("808080")
    }
}

/// The hexadecimal digits of a colour, and nothing else of it.
pub fn hex_digits(color: &str) -> (r: String)
    ensures
        r@ == color@.filter(|c: char| text::is_hex_digit(c)),
{
    let chars = text::chars_of(color);
    let ghost keep = |c: char| text::is_hex_digit(c);
    let mut kept: Vec<char> = Vec::new();
    proof {
        reveal(Seq::filter);
        assert(chars@.take(0).filter(keep) =~= seq![]);
    }
    for i in 0..chars.len()
        invariant
            keep == (|c: char| text::is_hex_digit(c)),
            kept@ == chars@.take(i as int).filter(keep),
    {
        proof {
            assert(chars@.take(i + 1) =~= chars@.take(i as int).push(chars@[i as int]));
            lines::lemma_filter_push(chars@.take(i as int), chars@[i as int], keep);
        }
        if text::hex_digit(chars[i]) {
            kept.push(chars[i]);
        }
    }
    assert(chars@.take(chars@.len() as int) =~= color@);
    text::string_of(&kept)
}

/// What is left of a text without the number signs at its start.
pub open spec fn without_signs(color: Seq<char>) -> Seq<char>
    decreases color.len(),
{
    if color.len() > 0 && color[0] == '#' {
        without_signs(color.drop_first())
    } else {
        color
    }
}

/// The style of a colour that has one of its own, as digits in small letters.
pub open spec fn style_of(digits: Seq<char>) -> Seq<char> {
    if digits == "3366cc"@ {
        "calendar-color-1"@
    } else if digits == "cc3333"@ {
        "calendar-color-2"@
    } else if digits == "33aa55"@ {
        "calendar-color-3"@
    } else if digits == "dd8833"@ {
        "calendar-color-4"@
    } else if digits == "9966cc"@ {
        "calendar-color-5"@
    } else if digits == "339999"@ {
        "calendar-color-6"@
    } else {
        "calendar-color-7"@
    }
}

/// The style of a colour: one of its own, or that of grey.
pub fn color_class(color: &str) -> (r: &'static str)
    ensures
        r@ == style_of(text::lower(without_signs(color@))),
{
    let chars = text::chars_of(color);
    let mut at: usize = 0;
    assert(chars@.skip(0) =~= chars@);
    while at < chars.len() && chars[at] == '#'
        invariant
            at <= chars@.len(),
            without_signs(chars@.skip(at as int)) == without_signs(chars@),
        decreases chars@.len() - at,
    {
        assert(chars@.skip(at as int).drop_first() =~= chars@.skip(at + 1));
        at += 1;
    }
    let rest = text::slice(&chars, at, chars.len());
    assert(rest@ =~= chars@.skip(at as int));
    let digits = text::lower_chars(&rest);
    if text::chars_are(&digits, "3366cc") {
        "calendar-color-1"
    } else if text::chars_are(&digits, "cc3333") {
        "calendar-color-2"
    } else if text::chars_are(&digits, "33aa55") {
        "calendar-color-3"
    } else if text::chars_are(&digits, "dd8833") {
        "calendar-color-4"
    } else if text::chars_are(&digits, "9966cc") {
        "calendar-color-5"
    } else if text::chars_are(&digits, "339999") {
        "calendar-color-6"
    } else {
        "calendar-color-7"
    }
}

/// The value of a hexadecimal digit.
pub open spec fn hex_value(c: char) -> int {
    if '0' <= c <= '9' {
        c as int - '0' as int
    } else if 'a' <= c <= 'f' {
        c as int - 'a' as int + 10
    } else {
        c as int - 'A' as int + 10
    }
}

/// The value of a hexadecimal digit.
fn digit_value(c: char) -> (r: u8)
    requires
        text::is_hex_digit(c),
    ensures
        r == hex_value(c),
        r < 16,
{
    if '0' <= c && c <= '9' {
        (c as u32 - 48) as u8
    } else if 'a' <= c && c <= 'f' {
        (c as u32 - 97 + 10) as u8
    } else {
        (c as u32 - 65 + 10) as u8
    }
}

/// The shares of red, green and blue in a colour, out of 255; equal shares where it is none.
pub open spec fn shares(color: Seq<char>) -> (int, int, int) {
    let digits = model::color_digits(color);
    if is_hex_color(digits) {
        (
            hex_value(digits[0]) * 16 + hex_value(digits[1]),
            hex_value(digits[2]) * 16 + hex_value(digits[3]),
            hex_value(digits[4]) * 16 + hex_value(digits[5]),
        )
    } else {
        (153, 153, 153)
    }
}

/// The shares of red, green and blue in a colour, out of 255.
pub fn parse_color(value: &str) -> (r: (u8, u8, u8))
    ensures
        (r.0 as int, r.1 as int, r.2 as int) == shares(value@),
{
    let chars = text::chars_of(value);
    let digits = digits_of(&chars);
    if hex_color(&digits) {
        (
            digit_value(digits[0]) * 16 + digit_value(digits[1]),
            digit_value(digits[2]) * 16 + digit_value(digits[3]),
            digit_value(digits[4]) * 16 + digit_value(digits[5]),
        )
    } else {
        (153, 153, 153)
    }
}

// ---------------------------------------------------------------------------------------------
// The palette
// ---------------------------------------------------------------------------------------------

/// The number of colours that are offered.
pub const PRESETS: usize = 7;

/// The name and the value of a colour that is offered.
pub open spec fn preset_of(i: int) -> (Seq<char>, Seq<char>) {
    if i == 0 {
        ("Blue"@, "#62a0ea"@)
    } else if i == 1 {
        ("Red"@, "#f66151"@)
    } else if i == 2 {
        ("Green"@, "#57e389"@)
    } else if i == 3 {
        ("Orange"@, "#ffbe6f"@)
    } else if i == 4 {
        ("Purple"@, "#dc8add"@)
    } else if i == 5 {
        ("Teal"@, "#5bc8c9"@)
    } else {
        ("Gray"@, "#becedd"@)
    }
}

/// The name and the value of a colour that is offered.
pub fn preset(i: usize) -> (r: (&'static str, &'static str))
    requires
        i < PRESETS,
    ensures
        (r.0@, r.1@) == preset_of(i as int),
{
    match i {
        0 => ("Blue", "#62a0ea"),
        1 => ("Red", "#f66151"),
        2 => ("Green", "#57e389"),
        3 => ("Orange", "#ffbe6f"),
        4 => ("Purple", "#dc8add"),
        5 => ("Teal", "#5bc8c9"),
        _ => ("Gray", "#becedd"),
    }
}

/// Whether a colour is the one that is offered at a place.
pub open spec fn is_preset(value: Seq<char>, i: int) -> bool {
    text::lower(preset_of(i).1) == text::lower(value)
}

/// The first place from `i` on at which a colour is offered; the number of places where there is none.
pub open spec fn place_from(value: Seq<char>, i: int) -> int
    decreases PRESETS - i,
{
    if i >= PRESETS {
        PRESETS as int
    } else if is_preset(value, i) {
        i
    } else {
        place_from(value, i + 1)
    }
}

/// The place at which a colour is offered.
pub fn preset_place(value: &str) -> (r: Option<usize>)
    ensures
        match r {
            Some(i) => i < PRESETS && i == place_from(value@, 0),
            None => place_from(value@, 0) == PRESETS,
        },
{
    let chars = text::chars_of(value);
    for i in 0..PRESETS
        invariant
            chars@ == value@,
            place_from(value@, i as int) == place_from(value@, 0),
    {
        let (_, color): (&'static str, &'static str) = preset(i);
        if text::same_ignoring_case(&chars, color) {
            return Some(i);
        }
    }
    None
}

/// How a colour is described.
pub open spec fn description_of(value: Seq<char>) -> Seq<char> {
    let place = place_from(value, 0);
    if place < PRESETS {
        preset_of(place).0 + " calendar color"@
    } else {
        "Custom calendar color"@
    }
}

/// How a colour is described: by its name where it is offered.
pub fn color_description(value: &str) -> (r: String)
    ensures
        r@ == description_of(value@),
{
    match preset_place(value) {
        Some(i) => text::joined(preset(i).0, " calendar color"),
        None => String::from_str("Custom calendar color"),
    }
}

/// The value of a hexadecimal digit, and how it is written: digits of the same value are the same
/// letter, large or small.
pub proof fn law_values_of_digits(c: char)
    requires
        text::is_hex_digit(c),
    ensures
        0 <= hex_value(c) < 16,
        "0123456789abcdef"@[hex_value(c)] == text::lower_char(c),
{
    reveal_strlit("0123456789abcdef");
}

/// A colour is made of six digits, with or without a sign before them; its three shares are the values
/// of the first, the second and the third pair of digits. Any other text is a gray.
pub proof fn law_shares_of_a_color(digits: Seq<char>)
    requires
        digits.len() == 6,
        forall|i: int| 0 <= i < 6 ==> text::is_hex_digit(#[trigger] digits[i]),
    ensures
        ({
            let (red, green, blue) = shares(digits);
            &&& 0 <= red < 256 && 0 <= green < 256 && 0 <= blue < 256
            &&& red / 16 == hex_value(digits[0]) && red % 16 == hex_value(digits[1])
            &&& green / 16 == hex_value(digits[2]) && green % 16 == hex_value(digits[3])
            &&& blue / 16 == hex_value(digits[4]) && blue % 16 == hex_value(digits[5])
            &&& shares("#"@ + digits) == shares(digits)
        }),
{
    reveal_strlit("#");
    assert(text::is_hex_digit(digits[0]) && text::is_hex_digit(digits[1]) && text::is_hex_digit(digits[2]));
    assert(text::is_hex_digit(digits[3]) && text::is_hex_digit(digits[4]) && text::is_hex_digit(digits[5]));
    assert(model::color_digits("#"@ + digits) =~= digits);
    assert(model::color_digits(digits) =~= digits);
}

/// A colour without six digits has the shares of a gray; and as digits it is a gray too.
pub proof fn law_other_texts_are_gray(color: Seq<char>)
    ensures
        model::color_digits(color).len() != 6 ==> shares(color) == (153int, 153int, 153int),
        model::color_digits(text::trimmed(color)).len() != 6 ==> plain_color(color) == "808080"@,
{
}

/// The digits of a colour are six small ones: its own, or those of a gray.
pub proof fn law_digits_of_a_color(color: Seq<char>)
    ensures
        plain_color(color).len() == 6,
        forall|i: int|
            0 <= i < 6 ==> text::is_hex_digit(#[trigger] plain_color(color)[i]) && !('A' <= plain_color(
                color,
            )[i] <= 'F'),
        is_hex_color(model::color_digits(text::trimmed(color))) ==> forall|i: int|
            0 <= i < 6 ==> hex_value(#[trigger] plain_color(color)[i]) == hex_value(
                model::color_digits(text::trimmed(color))[i],
            ),
{
    reveal_strlit("808080");
    let digits = model::color_digits(text::trimmed(color));
    if is_hex_color(digits) {
        assert forall|i: int| 0 <= i < 6 implies text::is_hex_digit(#[trigger] plain_color(color)[i]) && !(
        'A' <= plain_color(color)[i] <= 'F') && hex_value(plain_color(color)[i]) == hex_value(digits[i]) by {
            assert(text::is_hex_digit(digits[i]));
        }
    }
}

/// The signs before a colour are taken off, all of them and nothing else.
pub proof fn law_signs_are_taken_off(color: Seq<char>) -> (n: int)
    ensures
        0 <= n <= color.len(),
        without_signs(color) == color.skip(n),
        forall|i: int| 0 <= i < n ==> #[trigger] color[i] == '#',
        n < color.len() ==> color[n] != '#',
    decreases color.len(),
{
    if color.len() > 0 && color[0] == '#' {
        let rest = color.drop_first();
        let m = law_signs_are_taken_off(rest);
        assert(rest.skip(m) =~= color.skip(m + 1));
        assert forall|i: int| 0 <= i < m + 1 implies #[trigger] color[i] == '#' by {
            if i > 0 {
                assert(rest[i - 1] == color[i]);
            }
        }
        assert(m < rest.len() ==> rest[m] == color[m + 1]);
        m + 1
    } else {
        assert(color.skip(0) =~= color);
        0
    }
}

/// The styles belong to six colours, in this order, and one more to all others.
pub proof fn law_styles_of_colors(i: int, digits: Seq<char>)
    ensures
        ({
            let known = seq!["3366cc"@, "cc3333"@, "33aa55"@, "dd8833"@, "9966cc"@, "339999"@];
            &&& 0 <= i < 6 ==> style_of(known[i]) == "calendar-color-"@ + text::decimal((i + 1) as nat)
            &&& !known.contains(digits) ==> style_of(digits) == "calendar-color-7"@
        }),
{
    reveal_strlit("3366cc");
    reveal_strlit("cc3333");
    reveal_strlit("33aa55");
    reveal_strlit("dd8833");
    reveal_strlit("9966cc");
    reveal_strlit("339999");
    let known = seq!["3366cc"@, "cc3333"@, "33aa55"@, "dd8833"@, "9966cc"@, "339999"@];
    assert(known[0] == "3366cc"@ && known[1] == "cc3333"@ && known[2] == "33aa55"@ && known[3]
        == "dd8833"@ && known[4] == "9966cc"@ && known[5] == "339999"@);
    assert("3366cc"@[0] == '3' && "cc3333"@[0] == 'c' && "33aa55"@[2] == 'a' && "dd8833"@[0] == 'd'
        && "9966cc"@[0] == '9' && "339999"@[2] == '9' && "3366cc"@[2] == '6' && "33aa55"@[0] == '3' && "339999"@[0] == '3');
    reveal_strlit("calendar-color-");
    reveal_strlit("calendar-color-1");
    reveal_strlit("calendar-color-2");
    reveal_strlit("calendar-color-3");
    reveal_strlit("calendar-color-4");
    reveal_strlit("calendar-color-5");
    reveal_strlit("calendar-color-6");
    assert(text::decimal(1) =~= seq!['1'] && text::decimal(2) =~= seq!['2'] && text::decimal(3) =~= seq!['3']
        && text::decimal(4) =~= seq!['4'] && text::decimal(5) =~= seq!['5'] && text::decimal(6) =~= seq!['6']);
    assert("calendar-color-"@ + text::decimal(1) =~= "calendar-color-1"@);
    assert("calendar-color-"@ + text::decimal(2) =~= "calendar-color-2"@);
    assert("calendar-color-"@ + text::decimal(3) =~= "calendar-color-3"@);
    assert("calendar-color-"@ + text::decimal(4) =~= "calendar-color-4"@);
    assert("calendar-color-"@ + text::decimal(5) =~= "calendar-color-5"@);
    assert("calendar-color-"@ + text::decimal(6) =~= "calendar-color-6"@);
}

/// The colours to choose from, and what one of them is called: by the first of them that has its
/// digits, large or small.
pub proof fn law_colors_to_choose_from(i: int, value: Seq<char>)
    ensures
        PRESETS == 7,
        0 <= i < 7 ==> preset_of(i) == seq![
            ("Blue"@, "#62a0ea"@),
            ("Red"@, "#f66151"@),
            ("Green"@, "#57e389"@),
            ("Orange"@, "#ffbe6f"@),
            ("Purple"@, "#dc8add"@),
            ("Teal"@, "#5bc8c9"@),
            ("Gray"@, "#becedd"@),
        ][i],
        0 <= i < 7 && text::lower(value) == text::lower(preset_of(i).1) && (forall|k: int|
            0 <= k < i ==> text::lower(value) != text::lower(#[trigger] preset_of(k).1)) ==> description_of(
            value,
        ) == preset_of(i).0 + " calendar color"@,
        (forall|k: int| 0 <= k < 7 ==> text::lower(value) != text::lower(#[trigger] preset_of(k).1))
            ==> description_of(value) == "Custom calendar color"@,
{
    lemma_place_among(value, 0);
    if 0 <= i < 7 {
        let place = place_from(value, 0);
        assert(is_preset(value, i) <==> text::lower(preset_of(i).1) == text::lower(value));
        if place < i {
            assert(is_preset(value, place));
            assert(preset_of(place).1 == preset_of(place).1);
        }
    }
    if place_from(value, 0) < 7 {
        assert(preset_of(place_from(value, 0)).1 == preset_of(place_from(value, 0)).1);
    }
}

/// The place is that of the first colour with the digits.
proof fn lemma_place_among(value: Seq<char>, i: int)
    requires
        0 <= i <= PRESETS,
    ensures
        i <= place_from(value, i) <= PRESETS,
        place_from(value, i) < PRESETS ==> is_preset(value, place_from(value, i)),
        forall|k: int| i <= k < place_from(value, i) ==> !#[trigger] is_preset(value, k),
    decreases PRESETS - i,
{
    if i < PRESETS && !is_preset(value, i) {
        lemma_place_among(value, i + 1);
    }
}

} // verus!
