use vstd::prelude::*;

verus! {

/// Whether `c` is an ASCII hexadecimal digit, in either case.
pub open spec fn is_hex_digit(c: char) -> bool {
    ('0' <= c && c <= '9') || ('a' <= c && c <= 'f') || ('A' <= c && c <= 'F')
}

/// The value of a hexadecimal digit.
pub open spec fn hex_value(c: char) -> int {
    if '0' <= c && c <= '9' {
        c as int - '0' as int
    } else if 'a' <= c && c <= 'f' {
        c as int - 'a' as int + 10
    } else {
        c as int - 'A' as int + 10
    }
}

/// The lower-case hexadecimal digit for a value below 16.
pub open spec fn hex_char(n: int) -> char {
    if n < 10 {
        ((n + '0' as int) as u8) as char
    } else {
        ((n - 10 + 'a' as int) as u8) as char
    }
}

/// The six hex digits of an rgb field, without the optional leading `#`.
pub open spec fn rgb_digits(s: Seq<char>) -> Seq<char> {
    if s.len() == 7 {
        s.drop_first()
    } else {
        s
    }
}

/// An rgb field: six hex digits, optionally preceded by one `#`.
pub open spec fn valid_rgb(s: Seq<char>) -> bool {
    &&& (s.len() == 6 || (s.len() == 7 && s[0] == '#'))
    &&& forall|i: int| 0 <= i < 6 ==> is_hex_digit(#[trigger] rgb_digits(s)[i])
}

/// Channel `idx` (0 red, 1 green, 2 blue) of a valid rgb field.
pub open spec fn channel_of(s: Seq<char>, idx: int) -> int {
    hex_value(rgb_digits(s)[2 * idx]) * 16 + hex_value(rgb_digits(s)[2 * idx + 1])
}

/// Whether `s` is a non-empty string of decimal digits.
pub open spec fn all_decimal(s: Seq<char>) -> bool {
    &&& s.len() > 0
    &&& forall|i: int| 0 <= i < s.len() ==> '0' <= #[trigger] s[i] && s[i] <= '9'
}

/// The value of a string of decimal digits.
pub open spec fn decimal_value(s: Seq<char>) -> nat
    decreases s.len(),
{
    if s.len() == 0 {
        0
    } else {
        decimal_value(s.drop_last()) * 10 + (s.last() as int - '0' as int) as nat
    }
}

/// The digits of a level field, after its optional leading `+`.
pub open spec fn level_digits(s: Seq<char>) -> Seq<char> {
    if s.len() > 0 && s[0] == '+' {
        s.drop_first()
    } else {
        s
    }
}

/// What a string of decimal digits reads as, where it is a number from 0 to 255.
pub open spec fn digits_level(s: Seq<char>) -> Option<u8> {
    if all_decimal(s) && decimal_value(s) <= 255 {
        Some(decimal_value(s) as u8)
    } else {
        None
    }
}

/// What a level field (`w` or `pos`) parses to: an optional `+` and then a decimal
/// number from 0 to 255, as the standard parser of `u8` reads it.
pub open spec fn level_of(s: Seq<char>) -> Option<u8> {
    digits_level(level_digits(s))
}

/// Why a submitted form was refused.
#[derive(Clone, Copy, Debug, PartialEq, Eq, Structural)]
pub enum FormError {
    /// The rgb field is not six hex digits with an optional leading `#`.
    InvalidColor,
    /// A level field is not a decimal number from 0 to 255.
    InvalidLevel,
}

/// A submitted rgbw setpoint: a colour as hex text and a white level.
#[derive(Debug)]
pub struct Rgbw {
    pub rgb: String,
    pub w: u8,
}

/// A submitted shade setpoint.
#[derive(Clone, Copy, Debug, PartialEq, Eq, Structural)]
pub struct Shcnt {
    pub pos: u8,
}

/// The value of a hexadecimal digit, or `None` for any other character.
pub fn hex_digit_value(c: char) -> (r: Option<u8>)
    ensures
        match r {
            Some(v) => is_hex_digit(c) && v as int == hex_value(c),
            None => !is_hex_digit(c),
        },
{
    if '0' <= c && c <= '9' {
        Some(((c as u32) - ('0' as u32)) as u8)
    } else if 'a' <= c && c <= 'f' {
        Some(((c as u32) - ('a' as u32) + 10) as u8)
    } else if 'A' <= c && c <= 'F' {
        Some(((c as u32) - ('A' as u32) + 10) as u8)
    } else {
        None
    }
}

/// Decides whether `s` is a well-formed rgb field.
pub fn is_valid_rgb(s: &str) -> (r: bool)
    ensures
        r == valid_rgb(s@),
{
    let n = s.unicode_len();
    let start: usize = if n == 7 && s.get_char(0) == '#' {
        1
    } else if n == 6 {
        0
    } else {
        assert(!valid_rgb(s@));
        return false;
    };
    let ghost digits = rgb_digits(s@);
    assert(digits == s@.subrange(start as int, n as int));
    let mut i: usize = 0;
    while i < 6
        invariant
            n == s@.len(),
            start + 6 == n,
            digits == s@.subrange(start as int, n as int),
            digits == rgb_digits(s@),
            i <= 6,
            forall|j: int| 0 <= j < i ==> is_hex_digit(#[trigger] digits[j]),
        decreases 6 - i,
    {
        if hex_digit_value(s.get_char(start + i)).is_none() {
            assert(!is_hex_digit(digits[i as int]));
            return false;
        }
        i = i + 1;
    }
    true
}

/// Parses a level field: an optional `+`, then a decimal number from 0 to 255.
pub fn parse_level(s: &str) -> (r: Option<u8>)
    ensures
        r == level_of(s@),
{
    let n = s.unicode_len();
    let start: usize = if n > 0 && s.get_char(0) == '+' {
        1
    } else {
        0
    };
    let digits = s.substring_char(start, n);
    assert(digits@ =~= level_digits(s@));
    parse_digits(digits)
}

fn parse_digits(s: &str) -> (r: Option<u8>)
    ensures
        r == digits_level(s@),
{
    let n = s.unicode_len();
    if n == 0 {
        return None;
    }
    let mut value: u32 = 0;
    let mut i: usize = 0;
    while i < n
        invariant
            n == s@.len(),
            i <= n,
            forall|j: int| 0 <= j < i ==> '0' <= #[trigger] s@[j] && s@[j] <= '9',
            value as nat == decimal_value(s@.subrange(0, i as int)),
            value <= 255,
        decreases n - i,
    {
        let c = s.get_char(i);
        if c < '0' || c > '9' {
            assert(!all_decimal(s@));
            return None;
        }
        let d = (c as u32) - ('0' as u32);
        assert(s@.subrange(0, i + 1).drop_last() == s@.subrange(0, i as int));
        value = value * 10 + d;
        i = i + 1;
        if value > 255 {
            proof {
                if all_decimal(s@) {
                    lemma_decimal_prefix_bound(s@, i as int);
                }
            }
            return None;
        }
    }
    assert(s@.subrange(0, n as int) == s@);
    Some(value as u8)
}

/// The value of a digit string is at least the value of any of its prefixes.
proof fn lemma_decimal_prefix_bound(s: Seq<char>, i: int)
    requires
        0 <= i <= s.len(),
        forall|j: int| 0 <= j < s.len() ==> '0' <= #[trigger] s[j] && s[j] <= '9',
    ensures
        decimal_value(s) >= decimal_value(s.subrange(0, i)),
    decreases s.len() - i,
{
    if i < s.len() {
        lemma_decimal_prefix_bound(s, i + 1);
        assert(s.subrange(0, i + 1).drop_last() == s.subrange(0, i));
    } else {
        assert(s.subrange(0, i) == s);
    }
}

/// Parses the fields of an rgbw form.
pub fn parse_rgbw_form(rgb: &str, w: &str) -> (r: Result<Rgbw, FormError>)
    ensures
        match r {
            Ok(v) => valid_rgb(rgb@) && level_of(w@) == Some(v.w) && v.rgb@ == rgb@,
            Err(e) => (e == FormError::InvalidColor && !valid_rgb(rgb@)) || (e
                == FormError::InvalidLevel && valid_rgb(rgb@) && level_of(w@) is None),
        },
{
    if !is_valid_rgb(rgb) {
        return Err(FormError::InvalidColor);
    }
    match parse_level(w) {
        Some(level) => Ok(Rgbw { rgb: rgb.to_string(), w: level }),
        None => Err(FormError::InvalidLevel),
    }
}

/// Parses the field of a shade form.
pub fn parse_shcnt_form(pos: &str) -> (r: Result<Shcnt, FormError>)
    ensures
        match r {
            Ok(v) => level_of(pos@) == Some(v.pos),
            Err(e) => e == FormError::InvalidLevel && level_of(pos@) is None,
        },
{
    match parse_level(pos) {
        Some(level) => Ok(Shcnt { pos: level }),
        None => Err(FormError::InvalidLevel),
    }
}

impl Rgbw {
    /// Red channel of the colour.
    pub fn r(&self) -> (r: u8)
        requires
            valid_rgb(self.rgb@),
        ensures
            r as int == channel_of(self.rgb@, 0),
    {
        self.channel(0)
    }

    /// Green channel of the colour.
    pub fn g(&self) -> (r: u8)
        requires
            valid_rgb(self.rgb@),
        ensures
            r as int == channel_of(self.rgb@, 1),
    {
        self.channel(1)
    }

    /// Blue channel of the colour.
    pub fn b(&self) -> (r: u8)
        requires
            valid_rgb(self.rgb@),
        ensures
            r as int == channel_of(self.rgb@, 2),
    {
        self.channel(2)
    }

    /// Channel `idx` of the colour: 0 red, 1 green, 2 blue.
    pub fn channel(&self, idx: usize) -> (r: u8)
        requires
            valid_rgb(self.rgb@),
            idx < 3,
        ensures
            r as int == channel_of(self.rgb@, idx as int),
    {
        let s = self.rgb.as_str();
        let start: usize = if s.unicode_len() == 7 {
            1
        } else {
            0
        };
        let ghost digits = rgb_digits(s@);
        assert(digits[2 * idx as int] == s@[start + 2 * idx]);
        assert(digits[2 * idx + 1] == s@[start + 2 * idx + 1]);
        let hi = hex_digit_value(s.get_char(start + 2 * idx));
        let lo = hex_digit_value(s.get_char(start + 2 * idx + 1));
        match (hi, lo) {
            (Some(h), Some(l)) => h * 16 + l,
            _ => {
                proof {
                    assert(is_hex_digit(digits[2 * idx as int]));
                    assert(is_hex_digit(digits[2 * idx + 1]));
                }
                0
            },
        }
    }
}

} // verus!
