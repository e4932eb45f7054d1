//! Sanity checks for free-form values: hexadecimal or decimal, angle brackets, width. Settings
//! with options are not subject to them.

use vstd::arithmetic::power::pow;
use vstd::prelude::*;
use vstd::slice::slice_subrange;
use vstd::string::*;

use crate::nvram;
use crate::nvram::{BiosSetting, SettingView};
use crate::text;

verus! {

// ---------------------------------------------------------------------------
// Values
// ---------------------------------------------------------------------------

/// The setting is not set to what it was set to.
pub open spec fn value_changed(current: SettingView, original: SettingView) -> bool {
    current.active_option != original.active_option || current.value != original.value
}

/// What stands inside the angle brackets around `v`, if it has them.
pub open spec fn angle_value(v: Seq<char>) -> Option<Seq<char>> {
    if v.len() >= 2 && v[0] == '<' && v.last() == '>' {
        Some(v.subrange(1, v.len() - 1))
    } else {
        None
    }
}

/// `s` without the copies of `prefix` it starts with.
pub open spec fn strip_copies(s: Seq<char>, prefix: Seq<char>) -> Seq<char>
    decreases s.len(),
{
    if prefix.len() > 0 && prefix.is_prefix_of(s) {
        strip_copies(s.skip(prefix.len() as int), prefix)
    } else {
        s
    }
}

/// The number of bytes that a `Width` gives, in hexadecimal; none if it is zero or no number.
pub open spec fn width_bytes(width: Seq<char>) -> Option<int> {
    let digits = strip_copies(strip_copies(text::trim(width), "0x"@), "0X"@);
    match text::parsed_number(digits, 16, u32::MAX as int) {
        Some(v) if v > 0 => Some(v),
        _ => None,
    }
}

/// `c` is one of the letters that only hexadecimal numbers hold.
pub open spec fn hex_letter(c: char) -> bool {
    ('a' <= c && c <= 'f') || ('A' <= c && c <= 'F')
}

/// `t` starts with `0x`.
pub open spec fn has_hex_prefix(t: Seq<char>) -> bool {
    t.len() >= 2 && t[0] == '0' && (t[1] == 'x' || t[1] == 'X')
}

/// `t` ends in `h`.
pub open spec fn has_hex_suffix(t: Seq<char>) -> bool {
    t.len() >= 1 && (t.last() == 'h' || t.last() == 'H')
}

/// `s` looks like a hexadecimal number.
pub open spec fn hex_like(s: Seq<char>) -> bool {
    let t = text::trim(s);
    has_hex_prefix(t) || has_hex_suffix(t) || exists|i: int|
        0 <= i < t.len() && hex_letter(#[trigger] t[i])
}

/// `s` is made of decimal digits.
pub open spec fn decimal_like(s: Seq<char>) -> bool {
    let t = text::trim(s);
    t.len() > 0 && forall|i: int| 0 <= i < t.len() ==> '0' <= #[trigger] t[i] && t[i] <= '9'
}

/// The digits of a hexadecimal number that is marked in front or behind, or not at all.
pub open spec fn hex_core(t: Seq<char>) -> Seq<char> {
    if has_hex_prefix(t) {
        t.skip(2)
    } else if has_hex_suffix(t) {
        t.drop_last()
    } else {
        t
    }
}

/// `s` is a hexadecimal number.
pub open spec fn valid_hex(s: Seq<char>) -> bool {
    let core = hex_core(text::trim(s));
    core.len() > 0 && text::all_digits(core, 16)
}

/// The number that `s` writes, if it fits in 64 bits.
pub open spec fn token_number(s: Seq<char>, as_hex: bool) -> Option<int> {
    let t = text::trim(s);
    if t.len() == 0 {
        None
    } else if as_hex {
        text::parsed_number(hex_core(t), 16, u64::MAX as int)
    } else {
        text::parsed_number(t, 10, u64::MAX as int)
    }
}

/// The greatest number that fits in `bytes` bytes.
pub open spec fn width_max(bytes: int) -> int {
    pow(256, bytes as nat) - 1
}

/// What stands inside the angle brackets around `v`, or `v` if it has none, trimmed.
pub open spec fn token_of(v: Seq<char>) -> Seq<char> {
    match angle_value(v) {
        Some(inner) => text::trim(inner),
        None => text::trim(v),
    }
}

/// The value of a setting, trimmed; empty if it has none.
pub open spec fn raw_value(s: SettingView) -> Seq<char> {
    match s.value {
        Some(v) => text::trim(v),
        None => seq![],
    }
}

/// What is wrong with the value of a setting that was changed, if anything is.
pub open spec fn fault(current: SettingView, original: SettingView) -> Option<Seq<char>> {
    let question = text::trim(current.setup_question);
    let cur = raw_value(current);
    let orig = raw_value(original);
    if !value_changed(current, original) || current.options.len() > 0 || current.value is None {
        None
    } else if cur.len() == 0 {
        Some("Invalid value in '"@ + question + "': value cannot be empty."@)
    } else if (angle_value(orig) is Some) != (angle_value(cur) is Some) {
        Some(
            "Invalid format in '"@ + question + "': expected angle-bracket format like <...>."@,
        )
    } else if hex_like(token_of(orig)) && !valid_hex(token_of(cur)) {
        Some("Invalid value in '"@ + question + "': expected hexadecimal format."@)
    } else if decimal_like(token_of(orig)) && !hex_like(token_of(orig)) && !decimal_like(
        token_of(cur),
    ) {
        Some("Invalid value in '"@ + question + "': expected decimal digits."@)
    } else {
        match (width_bytes(current.width), token_number(token_of(cur), hex_like(token_of(orig)))) {
            (Some(bytes), Some(v)) if bytes <= 8 && v > width_max(bytes) => Some(
                out_of_range(question, text::trim(current.width), width_max(bytes)),
            ),
            _ => None,
        }
    }
}

/// The message for a value that does not fit its width.
pub open spec fn out_of_range(question: Seq<char>, width: Seq<char>, max: int) -> Seq<char> {
    "Value out of range in '"@ + question + "': max for Width="@ + width + " is 0x"@ + text::numeral(
        max as nat,
        16,
    ) + " ("@ + text::decimal(max as nat) + ")."@
}

// ---------------------------------------------------------------------------
// Checks
// ---------------------------------------------------------------------------

/// Whether two optional texts are the same.
fn same_value(a: &Option<String>, b: &Option<String>) -> (r: bool)
    ensures
        r == (nvram::optional_text(*a) == nvram::optional_text(*b)),
{
    match (a, b) {
        (Some(x), Some(y)) => text::text_eq(x.as_str(), y.as_str()),
        (None, None) => true,
        _ => false,
    }
}

/// Whether a setting is set to something else than it was.
pub fn setting_value_changed(current: &BiosSetting, original: &BiosSetting) -> (r: bool)
    ensures
        r == value_changed(current@, original@),
{
    let same_option: bool = match (current.active_option, original.active_option) {
        (Some(a), Some(b)) => a == b,
        (None, None) => true,
        _ => false,
    };
    !same_option || !same_value(&current.value, &original.value)
}

/// `<deadbeef>` gives `deadbeef`; a text without angle brackets around it gives nothing.
pub fn extract_angle_value(v: &str) -> (r: Option<&str>)
    ensures
        match r {
            Some(inner) => angle_value(v@) == Some(inner@),
            None => angle_value(v@) is None,
        },
{
    let n: usize = v.unicode_len();
    if n >= 2 && v.get_char(0) == '<' && v.get_char(n - 1) == '>' {
        Some(v.substring_char(1, n - 1))
    } else {
        None
    }
}

/// What stands inside the angle brackets around `v`, if it has them.
fn angle_chars<'a>(v: &'a [char]) -> (r: Option<&'a [char]>)
    ensures
        match r {
            Some(inner) => angle_value(v@) == Some(inner@),
            None => angle_value(v@) is None,
        },
{
    if v.len() >= 2 && v[0] == '<' && v[v.len() - 1] == '>' {
        Some(slice_subrange(v, 1, v.len() - 1))
    } else {
        None
    }
}

/// `s` without the copies of `prefix` it starts with.
fn strip_copies_chars<'a>(s: &'a [char], prefix: &[char]) -> (r: &'a [char])
    requires
        prefix@.len() > 0,
    ensures
        r@ == strip_copies(s@, prefix@),
{
    let mut rest: &[char] = s;
    while text::starts_with(rest, prefix)
        invariant
            prefix@.len() > 0,
            strip_copies(rest@, prefix@) == strip_copies(s@, prefix@),
        decreases rest@.len(),
    {
        let next: &[char] = slice_subrange(rest, prefix.len(), rest.len());
        proof {
            assert(next@ =~= rest@.skip(prefix@.len() as int));
        }
        rest = next;
    }
    rest
}

/// The number of bytes that a `Width` gives.
fn parse_width_bytes(width: &str) -> (r: Option<u32>)
    ensures
        match r {
            Some(v) => width_bytes(width@) == Some(v as int),
            None => width_bytes(width@) is None,
        },
{
    let chars: Vec<char> = text::to_chars(width);
    let lower: Vec<char> = text::to_chars("0x");
    let upper: Vec<char> = text::to_chars("0X");
    proof {
        reveal_strlit("0x");
        reveal_strlit("0X");
    }
    let digits: &[char] = strip_copies_chars(
        strip_copies_chars(text::trim_chars(&chars), &lower),
        &upper,
    );
    match text::parse_number(digits, 16, 0xffff_ffff) {
        Some(v) => {
            if v > 0 {
                Some(v as u32)
            } else {
                None
            }
        },
        None => None,
    }
}

/// Whether `t` starts with `0x`.
fn starts_hex(t: &[char]) -> (r: bool)
    ensures
        r == has_hex_prefix(t@),
{
    t.len() >= 2 && t[0] == '0' && (t[1] == 'x' || t[1] == 'X')
}

/// Whether `t` ends in `h`.
fn ends_hex(t: &[char]) -> (r: bool)
    ensures
        r == has_hex_suffix(t@),
{
    t.len() >= 1 && (t[t.len() - 1] == 'h' || t[t.len() - 1] == 'H')
}

/// Whether `s` looks like a hexadecimal number.
fn is_hex_like(s: &[char]) -> (r: bool)
    ensures
        r == hex_like(s@),
{
    let t: &[char] = text::trim_chars(s);
    if starts_hex(t) || ends_hex(t) {
        return true;
    }
    let mut i: usize = 0;
    while i < t.len()
        invariant
            i <= t.len(),
            t@ == text::trim(s@),
            !has_hex_prefix(t@),
            !has_hex_suffix(t@),
            forall|j: int| 0 <= j < i ==> !hex_letter(#[trigger] t@[j]),
        decreases t.len() - i,
    {
        let c: char = t[i];
        if ('a' <= c && c <= 'f') || ('A' <= c && c <= 'F') {
            assert(hex_letter(t@[i as int]));
            return true;
        }
        i += 1;
    }
    false
}

/// Whether `s` is made of decimal digits.
fn is_decimal_like(s: &[char]) -> (r: bool)
    ensures
        r == decimal_like(s@),
{
    let t: &[char] = text::trim_chars(s);
    let mut i: usize = 0;
    while i < t.len()
        invariant
            i <= t.len(),
            t@ == text::trim(s@),
            forall|j: int| 0 <= j < i ==> '0' <= #[trigger] t@[j] && t@[j] <= '9',
        decreases t.len() - i,
    {
        if !('0' <= t[i] && t[i] <= '9') {
            return false;
        }
        i += 1;
    }
    t.len() > 0
}

/// The digits of a hexadecimal number.
fn hex_core_chars<'a>(t: &'a [char]) -> (r: &'a [char])
    ensures
        r@ == hex_core(t@),
{
    if starts_hex(t) {
        let r: &[char] = slice_subrange(t, 2, t.len());
        assert(r@ =~= t@.skip(2));
        r
    } else if ends_hex(t) {
        let r: &[char] = slice_subrange(t, 0, t.len() - 1);
        assert(r@ =~= t@.drop_last());
        r
    } else {
        t
    }
}

/// Whether `s` is a hexadecimal number.
fn is_valid_hex_token(s: &[char]) -> (r: bool)
    ensures
        r == valid_hex(s@),
{
    let core: &[char] = hex_core_chars(text::trim_chars(s));
    let mut i: usize = 0;
    while i < core.len()
        invariant
            i <= core.len(),
            core@ == hex_core(text::trim(s@)),
            forall|j: int| 0 <= j < i ==> 0 <= text::digit_value(#[trigger] core@[j]) < 16,
        decreases core.len() - i,
    {
        if text::digit_of(core[i], 16).is_none() {
            assert(!text::all_digits(core@, 16));
            return false;
        }
        i += 1;
    }
    core.len() > 0
}

/// The number that `s` writes, if it fits in 64 bits.
fn parse_u64_token(s: &[char], as_hex: bool) -> (r: Option<u64>)
    ensures
        match r {
            Some(v) => token_number(s@, as_hex) == Some(v as int),
            None => token_number(s@, as_hex) is None,
        },
{
    let t: &[char] = text::trim_chars(s);
    if t.len() == 0 {
        return None;
    }
    if as_hex {
        text::parse_number(hex_core_chars(t), 16, u64::MAX)
    } else {
        text::parse_number(t, 10, u64::MAX)
    }
}

/// The greatest number that fits in `bytes` bytes.
fn max_for_width(bytes: u32) -> (r: u64)
    requires
        0 < bytes <= 8,
    ensures
        r == width_max(bytes as int),
{
    let mut max: u64 = 0;
    let mut i: u32 = 0;
    proof {
        reveal(pow);
    }
    while i < bytes
        invariant
            i <= bytes <= 8,
            max == width_max(i as int),
            i == 0 ==> max == 0,
            i == 1 ==> max == 0xff,
            i == 2 ==> max == 0xffff,
            i == 3 ==> max == 0xff_ffff,
            i == 4 ==> max == 0xffff_ffff,
            i == 5 ==> max == 0xff_ffff_ffff,
            i == 6 ==> max == 0xffff_ffff_ffff,
            i == 7 ==> max == 0xff_ffff_ffff_ffff,
        decreases bytes - i,
    {
        proof {
            reveal(pow);
            assert(pow(256, (i + 1) as nat) == 256 * pow(256, i as nat));
        }
        max = max * 256 + 255;
        i += 1;
    }
    max
}

/// What is wrong with the value of a setting, if anything is.
fn find_fault(current: &BiosSetting, original: &BiosSetting) -> (r: Option<String>)
    ensures
        match r {
            Some(m) => fault(current@, original@) == Some(m@),
            None => fault(current@, original@) is None,
        },
{
    if !setting_value_changed(current, original) || current.options.len() > 0 {
        return None;
    }
    let cur_chars: Vec<char> = match &current.value {
        Some(v) => text::to_chars(v.as_str()),
        None => return None,
    };
    let question: String = text::trim_text(current.setup_question.as_str());
    let cur: &[char] = text::trim_chars(&cur_chars);
    if cur.len() == 0 {
        return Some(
            "Invalid value in '".to_owned().concat(question.as_str()).concat(
                "': value cannot be empty.",
            ),
        );
    }
    let orig_chars: Vec<char> = match &original.value {
        Some(v) => text::to_chars(v.as_str()),
        None => Vec::new(),
    };
    let orig: &[char] = text::trim_chars(&orig_chars);
    assert(orig@ =~= raw_value(original@));
    let cur_inner: Option<&[char]> = angle_chars(cur);
    let orig_inner: Option<&[char]> = angle_chars(orig);
    if orig_inner.is_some() != cur_inner.is_some() {
        return Some(
            "Invalid format in '".to_owned().concat(question.as_str()).concat(
                "': expected angle-bracket format like <...>.",
            ),
        );
    }
    let cur_token: &[char] = match cur_inner {
        Some(inner) => text::trim_chars(inner),
        None => text::trim_chars(cur),
    };
    let orig_token: &[char] = match orig_inner {
        Some(inner) => text::trim_chars(inner),
        None => text::trim_chars(orig),
    };
    let expect_hex: bool = is_hex_like(orig_token);
    let expect_dec: bool = is_decimal_like(orig_token) && !expect_hex;
    if expect_hex && !is_valid_hex_token(cur_token) {
        return Some(
            "Invalid value in '".to_owned().concat(question.as_str()).concat(
                "': expected hexadecimal format.",
            ),
        );
    }
    if expect_dec && !is_decimal_like(cur_token) {
        return Some(
            "Invalid value in '".to_owned().concat(question.as_str()).concat(
                "': expected decimal digits.",
            ),
        );
    }
    if let Some(bytes) = parse_width_bytes(current.width.as_str()) {
        if bytes <= 8 {
            if let Some(v) = parse_u64_token(cur_token, expect_hex) {
                let max: u64 = max_for_width(bytes);
                if v > max {
                    let width: String = text::trim_text(current.width.as_str());
                    let hex: String = text::to_text(&text::numeral_chars(max, 16));
                    let dec: String = text::to_text(&text::numeral_chars(max, 10));
                    return Some(
                        "Value out of range in '".to_owned().concat(question.as_str()).concat(
                            "': max for Width=",
                        ).concat(width.as_str()).concat(" is 0x").concat(hex.as_str()).concat(
                            " (",
                        ).concat(dec.as_str()).concat(")."),
                    );
                }
            }
        }
    }
    None
}

/// The fault of the first setting that has one, among those that have an original.
pub open spec fn first_fault(settings: Seq<SettingView>, originals: Seq<SettingView>) -> Option<
    Seq<char>,
>
    decreases settings.len(),
{
    if settings.len() == 0 {
        None
    } else {
        match first_fault(settings.drop_last(), originals) {
            Some(m) => Some(m),
            None => if settings.len() <= originals.len() {
                fault(settings.last(), originals[settings.len() - 1])
            } else {
                None
            },
        }
    }
}

/// Checks every setting that has an original: the first fault, if there is one.
pub fn validate_all_settings(settings: &[BiosSetting], originals: &[BiosSetting]) -> (r: Result<
    (),
    String,
>)
    ensures
        match r {
            Ok(_) => first_fault(
                nvram::setting_views(settings@),
                nvram::setting_views(originals@),
            ) is None,
            Err(m) => first_fault(
                nvram::setting_views(settings@),
                nvram::setting_views(originals@),
            ) == Some(m@),
        },
{
    let ghost all = nvram::setting_views(settings@);
    let ghost before = nvram::setting_views(originals@);
    let mut i: usize = 0;
    while i < settings.len() && i < originals.len()
        invariant
            i <= settings.len(),
            i <= originals.len(),
            all == nvram::setting_views(settings@),
            before == nvram::setting_views(originals@),
            first_fault(all.take(i as int), before) is None,
        decreases settings.len() - i,
    {
        proof {
            assert(all.take(i + 1).drop_last() =~= all.take(i as int));
        }
        if let Some(m) = find_fault(&settings[i], &originals[i]) {
            proof {
                lemma_first_fault_stays(all, before, i + 1);
            }
            return Err(m);
        }
        i += 1;
    }
    proof {
        lemma_no_original_no_fault(all, before, i as int);
    }
    Ok(())
}

/// More settings do not change which fault is the first.
proof fn lemma_first_fault_stays(settings: Seq<SettingView>, originals: Seq<SettingView>, n: int)
    requires
        0 <= n <= settings.len(),
        first_fault(settings.take(n), originals) is Some,
    ensures
        first_fault(settings, originals) == first_fault(settings.take(n), originals),
    decreases settings.len(),
{
    if n == settings.len() {
        assert(settings.take(n) =~= settings);
    } else {
        assert(settings.drop_last().take(n) =~= settings.take(n));
        lemma_first_fault_stays(settings.drop_last(), originals, n);
    }
}

/// Settings without an original are not checked.
proof fn lemma_no_original_no_fault(settings: Seq<SettingView>, originals: Seq<SettingView>, n: int)
    requires
        0 <= n <= settings.len(),
        n == settings.len() || n >= originals.len(),
        first_fault(settings.take(n), originals) is None,
    ensures
        first_fault(settings, originals) is None,
    decreases settings.len(),
{
    if n == settings.len() {
        assert(settings.take(n) =~= settings);
    } else {
        assert(settings.drop_last().take(n) =~= settings.take(n));
        lemma_no_original_no_fault(settings.drop_last(), originals, n);
    }
}

// ---------------------------------------------------------------------------
// Laws
// ---------------------------------------------------------------------------

/// A setting that was not changed is never at fault.
pub proof fn law_unchanged_value_is_valid(current: SettingView, original: SettingView)
    requires
        !value_changed(current, original),
    ensures
        fault(current, original) is None,
{
}

/// A setting with options is never at fault.
pub proof fn law_options_are_valid(current: SettingView, original: SettingView)
    requires
        current.options.len() > 0,
    ensures
        fault(current, original) is None,
{
}

/// Angle brackets around a value stay: a changed value without a fault has them if and only if
/// the original has them.
pub proof fn law_valid_value_keeps_angle_brackets(current: SettingView, original: SettingView)
    requires
        value_changed(current, original),
        current.options.len() == 0,
        current.value is Some,
        fault(current, original) is None,
    ensures
        angle_value(raw_value(current)) is Some <==> angle_value(raw_value(original)) is Some,
{
}

/// A hexadecimal value stays hexadecimal, and a decimal value stays decimal.
pub proof fn law_valid_value_keeps_its_base(current: SettingView, original: SettingView)
    requires
        value_changed(current, original),
        current.options.len() == 0,
        current.value is Some,
        fault(current, original) is None,
    ensures
        hex_like(token_of(raw_value(original))) ==> valid_hex(token_of(raw_value(current))),
        decimal_like(token_of(raw_value(original))) && !hex_like(token_of(raw_value(original)))
            ==> decimal_like(token_of(raw_value(current))),
{
}

/// A changed value without a fault fits its width, if the width is known and at most eight bytes
/// and the value is a number that fits in eight bytes.
pub proof fn law_valid_value_fits_its_width(
    current: SettingView,
    original: SettingView,
    bytes: int,
    v: int,
)
    requires
        value_changed(current, original),
        current.options.len() == 0,
        current.value is Some,
        fault(current, original) is None,
        width_bytes(current.width) == Some(bytes),
        bytes <= 8,
        token_number(
            token_of(raw_value(current)),
            hex_like(token_of(raw_value(original))),
        ) == Some(v),
    ensures
        v <= width_max(bytes),
{
}

/// The settings are valid if and only if none is at fault, and otherwise the message is about the
/// first that is.
pub proof fn law_first_fault_is_the_first(settings: Seq<SettingView>, originals: Seq<SettingView>)
    ensures
        match first_fault(settings, originals) {
            None => forall|i: int|
                0 <= i < settings.len() && i < originals.len() ==> fault(
                    #[trigger] settings[i],
                    originals[i],
                ) is None,
            Some(m) => exists|i: int|
                {
                    &&& 0 <= i < settings.len() && i < originals.len()
                    &&& fault(#[trigger] settings[i], originals[i]) == Some(m)
                    &&& forall|j: int|
                        0 <= j < i ==> fault(#[trigger] settings[j], originals[j]) is None
                },
        },
    decreases settings.len(),
{
    if settings.len() > 0 {
        let rest = settings.drop_last();
        law_first_fault_is_the_first(rest, originals);
        match first_fault(rest, originals) {
            Some(m) => {
                let i = choose|i: int|
                    {
                        &&& 0 <= i < rest.len() && i < originals.len()
                        &&& fault(#[trigger] rest[i], originals[i]) == Some(m)
                        &&& forall|j: int|
                            0 <= j < i ==> fault(#[trigger] rest[j], originals[j]) is None
                    };
                assert(settings[i] == rest[i]);
                assert forall|j: int| 0 <= j < i implies fault(
                    #[trigger] settings[j],
                    originals[j],
                ) is None by {
                    assert(settings[j] == rest[j]);
                }
            },
            None => {
                let n = settings.len() - 1;
                assert forall|j: int| 0 <= j < n && j < originals.len() implies fault(
                    #[trigger] settings[j],
                    originals[j],
                ) is None by {
                    assert(settings[j] == rest[j]);
                }
                assert(settings[n] == settings.last());
            },
        }
    }
}

// ---------------------------------------------------------------------------
// Laws of numbers and marks
// ---------------------------------------------------------------------------

/// `t` is a hexadecimal number with the digits `d`: alone, behind `0x`, or in front of `h`.
pub open spec fn writes_hex(t: Seq<char>, d: Seq<char>) -> bool {
    &&& d.len() > 0
    &&& text::all_digits(d, 16)
    &&& t == d || t == seq!['0', 'x'] + d || t == seq!['0', 'X'] + d || t == d + seq!['h'] || t == d
        + seq!['H']
}

/// Digits neither start nor end in white space, and are no marks.
proof fn lemma_hex_digits(d: Seq<char>)
    requires
        d.len() > 0,
        text::all_digits(d, 16),
    ensures
        text::trim(d) == d,
        !has_hex_prefix(d),
        !has_hex_suffix(d),
        d[0] != '+',
        !text::white_space(d[0]),
        !text::white_space(d.last()),
{
    assert(0 <= text::digit_value(d[0]) < 16);
    assert(0 <= text::digit_value(d[d.len() - 1]) < 16);
    if d.len() >= 2 {
        assert(0 <= text::digit_value(d[1]) < 16);
    }
    text::lemma_trimmed(d);
}

/// What a marked number is made of.
proof fn lemma_writes_hex(t: Seq<char>, d: Seq<char>)
    requires
        writes_hex(t, d),
    ensures
        text::trim(t) == t,
        t.len() > 0,
        hex_core(t) == d,
{
    lemma_hex_digits(d);
    if t == seq!['0', 'x'] + d || t == seq!['0', 'X'] + d {
        assert(t.skip(2) =~= d);
        assert(t.last() == d.last());
    } else if t == d + seq!['h'] || t == d + seq!['H'] {
        assert(t.drop_last() =~= d);
        assert(t[0] == d[0]);
        if d.len() >= 2 {
            assert(t[1] == d[1]);
        }
    }
    text::lemma_trimmed(t);
}

/// A hexadecimal number is worth what its digits are worth, however it is marked and whatever white
/// space stands around it, unless it is too great for 64 bits.
pub proof fn law_marks_do_not_change_the_number(
    a: Seq<char>,
    t: Seq<char>,
    b: Seq<char>,
    d: Seq<char>,
)
    requires
        text::blank(a),
        text::blank(b),
        writes_hex(t, d),
    ensures
        token_number(a + t + b, true) == (if text::digits_value(d, 16) <= u64::MAX {
            Some(text::digits_value(d, 16))
        } else {
            None
        }),
        valid_hex(a + t + b),
{
    lemma_writes_hex(t, d);
    lemma_hex_digits(d);
    text::law_trim_ignores_blanks_around(a, t, b);
}

/// A text is a hexadecimal number only if it is made of digits and a mark.
pub proof fn law_only_digits_are_hexadecimal(s: Seq<char>)
    requires
        valid_hex(s),
    ensures
        exists|d: Seq<char>| #[trigger] writes_hex(text::trim(s), d),
{
    let t = text::trim(s);
    let d = hex_core(t);
    if has_hex_prefix(t) {
        assert(t =~= seq!['0', t[1]] + d);
    } else if has_hex_suffix(t) {
        assert(t =~= d + seq![t.last()]);
    }
    assert(writes_hex(t, d));
}

/// Decimal digits are worth what they write in base ten, with or without a plus in front.
pub proof fn law_decimal_digits_are_numbers(a: Seq<char>, d: Seq<char>, b: Seq<char>)
    requires
        text::blank(a),
        text::blank(b),
        d.len() > 0,
        text::all_digits(d, 10),
    ensures
        token_number(a + d + b, false) == (if text::digits_value(d, 10) <= u64::MAX {
            Some(text::digits_value(d, 10))
        } else {
            None
        }),
        token_number(a + (seq!['+'] + d) + b, false) == token_number(a + d + b, false),
        decimal_like(a + d + b),
        !hex_like(a + d + b),
{
    assert(text::all_digits(d, 16)) by {
        assert forall|i: int| 0 <= i < d.len() implies 0 <= text::digit_value(#[trigger] d[i]) < 16 by {
            assert(0 <= text::digit_value(d[i]) < 10);
        }
    }
    lemma_hex_digits(d);
    text::law_trim_ignores_blanks_around(a, d, b);
    let p = seq!['+'] + d;
    assert(p.last() == d.last());
    text::lemma_trimmed(p);
    text::law_trim_ignores_blanks_around(a, p, b);
    text::law_digits_are_numbers(d, 10, u64::MAX as int);
    assert forall|i: int| 0 <= i < d.len() implies '0' <= #[trigger] d[i] && d[i] <= '9'
        && !hex_letter(d[i]) by {
        assert(0 <= text::digit_value(d[i]) < 10);
    }
}

/// A text looks hexadecimal if and only if it starts with `0x`, ends in `h`, or holds a letter from
/// `a` to `f`, in either case.
pub proof fn law_hexadecimal_looks(t: Seq<char>)
    requires
        text::trim(t) == t,
    ensures
        hex_like(t) <==> {
            ||| seq!['0', 'x'].is_prefix_of(t)
            ||| seq!['0', 'X'].is_prefix_of(t)
            ||| seq!['h'].is_suffix_of(t)
            ||| seq!['H'].is_suffix_of(t)
            ||| exists|i: int|
                0 <= i < t.len() && 10 <= text::digit_value(#[trigger] t[i]) && text::digit_value(
                    t[i],
                ) < 16
        },
{
    if has_hex_prefix(t) {
        assert(t.take(2) =~= seq!['0', t[1]]);
    }
    if seq!['0', 'x'].is_prefix_of(t) {
        assert(t[0] == seq!['0', 'x'][0] && t[1] == seq!['0', 'x'][1]);
    }
    if seq!['0', 'X'].is_prefix_of(t) {
        assert(t[0] == seq!['0', 'X'][0] && t[1] == seq!['0', 'X'][1]);
    }
    if has_hex_suffix(t) {
        assert(t.skip(t.len() - 1) =~= seq![t.last()]);
    }
    if seq!['h'].is_suffix_of(t) {
        assert(t.last() == seq!['h'].last());
    }
    if seq!['H'].is_suffix_of(t) {
        assert(t.last() == seq!['H'].last());
    }
    if exists|i: int| 0 <= i < t.len() && hex_letter(#[trigger] t[i]) {
        let i = choose|i: int| 0 <= i < t.len() && hex_letter(#[trigger] t[i]);
        assert(10 <= text::digit_value(t[i]) < 16);
    }
    if exists|i: int|
        0 <= i < t.len() && 10 <= text::digit_value(#[trigger] t[i]) && text::digit_value(t[i])
            < 16 {
        let i = choose|i: int|
            0 <= i < t.len() && 10 <= text::digit_value(#[trigger] t[i]) && text::digit_value(t[i])
                < 16;
        assert(hex_letter(t[i]));
    }
}

/// A text looks decimal if and only if it is made of the digits from `0` to `9`.
pub proof fn law_decimal_looks(t: Seq<char>)
    requires
        text::trim(t) == t,
    ensures
        decimal_like(t) <==> t.len() > 0 && text::all_digits(t, 10),
{
    if decimal_like(t) {
        assert forall|i: int| 0 <= i < t.len() implies 0 <= text::digit_value(#[trigger] t[i]) < 10 by {
            assert('0' <= t[i] && t[i] <= '9');
        }
    }
    if text::all_digits(t, 10) {
        assert forall|i: int| 0 <= i < t.len() implies '0' <= #[trigger] t[i] && t[i] <= '9' by {
            assert(0 <= text::digit_value(t[i]) < 10);
        }
    }
}

/// Angle brackets around a text are told and taken off, and nothing else is taken for them.
pub proof fn law_angle_brackets_come_off(v: Seq<char>)
    ensures
        angle_value(seq!['<'] + v + seq!['>']) == Some(v),
        token_of(seq!['<'] + v + seq!['>']) == text::trim(v),
        v.len() > 0 && (v[0] != '<' || v.last() != '>') ==> angle_value(v) is None && token_of(v)
            == text::trim(v),
        v.len() < 2 ==> angle_value(v) is None,
{
    let w = seq!['<'] + v + seq!['>'];
    assert(w[0] == '<');
    assert(w.last() == '>');
    assert(w.subrange(1, w.len() - 1) =~= v);
}

/// A width of hexadecimal digits that are not all zero gives that many bytes, with or without `0x`
/// in front and whatever white space stands around it.
pub proof fn law_width_is_read(a: Seq<char>, d: Seq<char>, b: Seq<char>)
    requires
        text::blank(a),
        text::blank(b),
        d.len() > 0,
        text::all_digits(d, 16),
    ensures
        width_bytes(a + d + b) == (if 0 < text::digits_value(d, 16) <= u32::MAX {
            Some(text::digits_value(d, 16))
        } else {
            None
        }),
        width_bytes(a + (seq!['0', 'x'] + d) + b) == width_bytes(a + d + b),
        width_bytes(a + (seq!['0', 'X'] + d) + b) == width_bytes(a + d + b),
{
    reveal_strlit("0x");
    reveal_strlit("0X");
    lemma_hex_digits(d);
    text::law_trim_ignores_blanks_around(a, d, b);
    lemma_no_copies(d);
    text::law_digits_are_numbers(d, 16, u32::MAX as int);
    let lower = seq!['0', 'x'] + d;
    let upper = seq!['0', 'X'] + d;
    assert("0x"@ =~= seq!['0', 'x']);
    assert("0X"@ =~= seq!['0', 'X']);
    assert(lower.last() == d.last());
    assert(upper.last() == d.last());
    text::lemma_trimmed(lower);
    text::lemma_trimmed(upper);
    text::law_trim_ignores_blanks_around(a, lower, b);
    text::law_trim_ignores_blanks_around(a, upper, b);
    assert(lower.take(2) =~= seq!['0', 'x']);
    assert("0x"@.is_prefix_of(lower));
    assert(lower.skip(2) =~= d);
    assert(strip_copies(lower, "0x"@) == d);
    assert(upper.take(2) =~= seq!['0', 'X']);
    assert("0X"@.is_prefix_of(upper));
    assert(upper.skip(2) =~= d);
    if "0x"@.is_prefix_of(upper) {
        assert(upper[1] == "0x"@[1]);
    }
    assert(strip_copies(upper, "0x"@) == upper);
    assert(strip_copies(upper, "0X"@) == d);
}

proof fn lemma_no_copies(d: Seq<char>)
    requires
        d.len() > 0,
        text::all_digits(d, 16),
    ensures
        strip_copies(d, "0x"@) == d,
        strip_copies(d, "0X"@) == d,
{
    reveal_strlit("0x");
    reveal_strlit("0X");
    if "0x"@.is_prefix_of(d) {
        assert(d[1] == "0x"@[1]);
        assert(0 <= text::digit_value(d[1]) < 16);
    }
    if "0X"@.is_prefix_of(d) {
        assert(d[1] == "0X"@[1]);
        assert(0 <= text::digit_value(d[1]) < 16);
    }
}

/// Each byte more holds 256 times as many numbers.
pub proof fn law_each_byte_counts(bytes: int)
    requires
        bytes >= 0,
    ensures
        width_max(0) == 0,
        width_max(bytes + 1) + 1 == 256 * (width_max(bytes) + 1),
{
    reveal(pow);
    assert(pow(256, (bytes + 1) as nat) == 256 * pow(256, bytes as nat));
}

// ---------------------------------------------------------------------------
// Laws of faults
// ---------------------------------------------------------------------------

/// Which changed values are without fault: those that are not blank, keep their angle brackets,
/// stay hexadecimal if they were and decimal if they were, and fit their width as far as it is known.
pub proof fn law_which_values_are_valid(current: SettingView, original: SettingView)
    requires
        current.value is Some,
        current.value != original.value,
        current.options.len() == 0,
    ensures
        fault(current, original) is None <==> {
            let cur = raw_value(current);
            let orig = raw_value(original);
            &&& !text::blank(current.value->0)
            &&& (angle_value(cur) is Some <==> angle_value(orig) is Some)
            &&& hex_like(token_of(orig)) ==> valid_hex(token_of(cur))
            &&& decimal_like(token_of(orig)) && !hex_like(token_of(orig)) ==> decimal_like(
                token_of(cur),
            )
            &&& match (
                width_bytes(current.width),
                token_number(token_of(cur), hex_like(token_of(orig))),
            ) {
                (Some(bytes), Some(v)) => bytes <= 8 ==> v < pow(256, bytes as nat),
                _ => true,
            }
        },
{
    let v = current.value->0;
    text::law_blank_texts(v);
}

/// A changed hexadecimal value is at fault if and only if its digits are worth more than its width
/// holds, however it is marked: the width is given in hexadecimal digits too.
pub proof fn law_hexadecimal_values_have_to_fit(
    current: SettingView,
    original: SettingView,
    t: Seq<char>,
    d: Seq<char>,
    o: Seq<char>,
    w: Seq<char>,
    angle: bool,
)
    requires
        current.options.len() == 0,
        current.value != original.value,
        writes_hex(t, d),
        text::trim(o) == o,
        hex_like(o),
        current.value == Some(if angle {
            seq!['<'] + t + seq!['>']
        } else {
            t
        }),
        original.value == Some(if angle {
            seq!['<'] + o + seq!['>']
        } else {
            o
        }),
        !angle ==> o[0] != '<' || o.last() != '>',
        current.width == w,
        w.len() > 0,
        text::all_digits(w, 16),
        0 < text::digits_value(w, 16) <= 8,
        text::digits_value(d, 16) <= u64::MAX,
    ensures
        fault(current, original) is Some <==> text::digits_value(d, 16) >= pow(
            256,
            text::digits_value(w, 16) as nat,
        ),
{
    let none = Seq::<char>::empty();
    let cur = current.value->0;
    let orig = original.value->0;
    lemma_writes_hex(t, d);
    law_marks_do_not_change_the_number(none, t, none, d);
    assert(none + t + none =~= t);
    law_width_is_read(none, w, none);
    assert(none + w + none =~= w);
    law_angle_brackets_come_off(t);
    law_angle_brackets_come_off(o);
    assert(o.len() > 0) by {
        if o.len() == 0 {
            assert(!hex_like(o));
        }
    }
    lemma_hex_digits(d);
    assert(t[0] != '<') by {
        assert(t[0] == d[0] || t[0] == '0');
        assert(text::digit_value(d[0]) >= 0);
    }
    text::lemma_trim(o);
    text::lemma_trimmed(cur);
    text::lemma_trimmed(orig);
    assert(token_of(raw_value(current)) == t);
    assert(token_of(raw_value(original)) == o);
    assert(!text::blank(cur)) by {
        assert(!text::white_space(cur[0]));
    }
    law_which_values_are_valid(current, original);
    let bytes = text::digits_value(w, 16);
    let v = text::digits_value(d, 16);
    assert(token_number(t, true) == Some(v));
    if v < pow(256, bytes as nat) {
        assert(fault(current, original) is None);
    }
}

/// A fault names the setting.
pub proof fn law_fault_names_the_setting(current: SettingView, original: SettingView)
    ensures
        fault(current, original) matches Some(m) ==> text::contains(
            m,
            seq!['\''] + text::trim(current.setup_question) + seq!['\''],
        ),
{
    let q = text::trim(current.setup_question);
    let named = seq!['\''] + q + seq!['\''];
    reveal_strlit("Invalid value in '");
    reveal_strlit("Invalid format in '");
    reveal_strlit("Value out of range in '");
    reveal_strlit("': value cannot be empty.");
    reveal_strlit("': expected angle-bracket format like <...>.");
    reveal_strlit("': expected hexadecimal format.");
    reveal_strlit("': expected decimal digits.");
    reveal_strlit("': max for Width=");
    if let Some(m) = fault(current, original) {
        if text::occurs_at(m, named, 17) {
        } else if text::occurs_at(m, named, 18) {
        } else if text::occurs_at(m, named, 22) {
        } else {
            let n = named.len() as int;
            assert(m.subrange(17, 17 + n) =~= named || m.subrange(18, 18 + n) =~= named
                || m.subrange(22, 22 + n) =~= named);
        }
    }
}

/// Every mark in front of a width comes off, however often it is written.
pub proof fn law_marks_in_front_of_a_width(s: Seq<char>)
    ensures
        strip_copies(seq!['0', 'x'] + s, "0x"@) == strip_copies(s, "0x"@),
        strip_copies(seq!['0', 'X'] + s, "0X"@) == strip_copies(s, "0X"@),
        s.len() < 2 || s[0] != '0' || s[1] != 'x' ==> strip_copies(s, "0x"@) == s,
        s.len() < 2 || s[0] != '0' || s[1] != 'X' ==> strip_copies(s, "0X"@) == s,
{
    reveal_strlit("0x");
    reveal_strlit("0X");
    let a = seq!['0', 'x'] + s;
    let b = seq!['0', 'X'] + s;
    assert("0x"@ =~= seq!['0', 'x']);
    assert("0X"@ =~= seq!['0', 'X']);
    assert(a.take(2) =~= "0x"@);
    assert(a.skip(2) =~= s);
    assert(b.take(2) =~= "0X"@);
    assert(b.skip(2) =~= s);
    if "0x"@.is_prefix_of(s) {
        assert(s[0] == "0x"@[0] && s[1] == "0x"@[1]);
    }
    if "0X"@.is_prefix_of(s) {
        assert(s[0] == "0X"@[0] && s[1] == "0X"@[1]);
    }
}

/// What is said of a value that is empty, and of one that is too great for its width: the greatest
/// number that fits, in hexadecimal and decimal digits.
pub proof fn law_what_faults_say(current: SettingView, original: SettingView, bytes: int)
    requires
        current.value is Some,
        current.value != original.value,
        current.options.len() == 0,
    ensures
        text::blank(current.value->0) ==> fault(current, original) == Some(
            "Invalid value in '"@ + text::trim(current.setup_question)
                + "': value cannot be empty."@,
        ),
        ({
            let cur = raw_value(current);
            let orig = raw_value(original);
            let max = (pow(256, bytes as nat) - 1) as nat;
            &&& !text::blank(current.value->0)
            &&& (angle_value(cur) is Some <==> angle_value(orig) is Some)
            &&& hex_like(token_of(orig)) && valid_hex(token_of(cur))
            &&& width_bytes(current.width) == Some(bytes) && bytes <= 8
            &&& token_number(token_of(cur), true) matches Some(v) && v >= pow(256, bytes as nat)
        }) ==> fault(current, original) == Some(
            "Value out of range in '"@ + text::trim(current.setup_question) + "': max for Width="@
                + text::trim(current.width) + " is 0x"@ + text::numeral(
                (pow(256, bytes as nat) - 1) as nat,
                16,
            ) + " ("@ + text::decimal((pow(256, bytes as nat) - 1) as nat) + ")."@,
        ),
{
    text::law_blank_texts(current.value->0);
}

} // verus!
