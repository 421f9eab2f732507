use vstd::prelude::*;

use crate::forms::{channel_of, hex_value, rgb_digits, valid_rgb, Rgbw, Shcnt};
use crate::text::same_text;

verus! {

/// A scalar CBOR item as the gateway reads it: integers and text are kept, anything
/// else is only known to be something else.
#[derive(Debug)]
pub enum CborItem {
    Integer(i128),
    Text(String),
    Other,
}

/// A decoded CBOR payload: a map with its entries in wire order, or a lone item.
#[derive(Debug)]
pub enum CborValue {
    Entries(Vec<(CborItem, CborItem)>),
    Item(CborItem),
}

/// The content of a CoAP response, by its content format.
#[derive(Debug)]
pub enum Content {
    Cbor(CborValue),
    Other,
}

/// A field that a device reply must carry.
#[derive(Clone, Copy, Debug, PartialEq, Eq, Structural)]
pub enum Param {
    R,
    G,
    B,
    W,
    Pos,
}

/// Why a device reply could not be read.
#[derive(Debug)]
pub enum Error {
    /// The CoAP exchange failed; the message says how.
    InvalidResponse(String),
    MissingContentType,
    UnexpectedContentType,
    /// The payload is not a map, or a value is not an integer from 0 to 255.
    UnexpectedCborElement,
    MissingParameter(Param),
}

/// The CoAP duration field of an rgbw setpoint, in milliseconds.
pub const TRANSITION_MS: i128 = 3000;

/// Whether a map key is the text `key`.
pub open spec fn key_is(k: CborItem, key: Seq<char>) -> bool {
    match k {
        CborItem::Text(s) => s@ == key,
        _ => false,
    }
}

/// The value of the first entry of `m` whose key is the text `key`.
pub open spec fn lookup_in(m: Seq<(CborItem, CborItem)>, key: Seq<char>) -> Option<CborItem>
    decreases m.len(),
{
    if m.len() == 0 {
        None
    } else if key_is(m[0].0, key) {
        Some(m[0].1)
    } else {
        lookup_in(m.drop_first(), key)
    }
}

/// The byte carried under `key`, or why there is none.
pub open spec fn byte_param(m: Seq<(CborItem, CborItem)>, key: Seq<char>, p: Param) -> Result<
    u8,
    Error,
> {
    match lookup_in(m, key) {
        None => Err(Error::MissingParameter(p)),
        Some(CborItem::Integer(v)) => if 0 <= v <= 255 {
            Ok(v as u8)
        } else {
            Err(Error::UnexpectedCborElement)
        },
        Some(_) => Err(Error::UnexpectedCborElement),
    }
}

/// The lower-case hexadecimal digits, by value.
pub open spec fn hex_digits() -> Seq<char> {
    seq!['0', '1', '2', '3', '4', '5', '6', '7', '8', '9', 'a', 'b', 'c', 'd', 'e', 'f']
}

/// Two lower-case hex digits for each of three bytes.
pub open spec fn hex_text(r: u8, g: u8, b: u8) -> Seq<char> {
    seq![
        hex_digits()[(r / 16) as int],
        hex_digits()[(r % 16) as int],
        hex_digits()[(g / 16) as int],
        hex_digits()[(g % 16) as int],
        hex_digits()[(b / 16) as int],
        hex_digits()[(b % 16) as int],
    ]
}

/// What an rgbw reply reads as: the colour as six lower-case hex digits and the white
/// level, or the first problem met, checking `r`, `g`, `b`, then `w`.
pub open spec fn rgbw_reading(m: Seq<(CborItem, CborItem)>) -> Result<(Seq<char>, u8), Error> {
    match byte_param(m, "r"@, Param::R) {
        Err(e) => Err(e),
        Ok(r) => match byte_param(m, "g"@, Param::G) {
            Err(e) => Err(e),
            Ok(g) => match byte_param(m, "b"@, Param::B) {
                Err(e) => Err(e),
                Ok(b) => match byte_param(m, "w"@, Param::W) {
                    Err(e) => Err(e),
                    Ok(w) => Ok((hex_text(r, g, b), w)),
                },
            },
        },
    }
}

/// What a shade reply reads as: its position, carried under `r`.
pub open spec fn shcnt_reading(m: Seq<(CborItem, CborItem)>) -> Result<u8, Error> {
    byte_param(m, "r"@, Param::Pos)
}

/// Whether entry `e` maps the text `key` to the integer `v`.
pub open spec fn entry_is(e: (CborItem, CborItem), key: Seq<char>, v: int) -> bool {
    key_is(e.0, key) && e.1 == CborItem::Integer(v as i128)
}

/// The rgbw setpoint map `{r, g, b, w, d: 3000}` for colour `rgb` and white level `w`.
pub open spec fn is_rgbw_payload(p: Seq<(CborItem, CborItem)>, rgb: Seq<char>, w: u8) -> bool {
    &&& p.len() == 5
    &&& entry_is(p[0], "r"@, channel_of(rgb, 0))
    &&& entry_is(p[1], "g"@, channel_of(rgb, 1))
    &&& entry_is(p[2], "b"@, channel_of(rgb, 2))
    &&& entry_is(p[3], "w"@, w as int)
    &&& entry_is(p[4], "d"@, TRANSITION_MS as int)
}

/// Takes the CBOR map out of a CoAP response, or says why there is none.
pub fn extract_cbor_map_from_coap_response(response: Result<Option<Content>, String>) -> (r: Result<
    Vec<(CborItem, CborItem)>,
    Error,
>)
    ensures
        r == reply_entries(response),
{
    match response {
        Err(m) => Err(Error::InvalidResponse(m)),
        Ok(None) => Err(Error::MissingContentType),
        Ok(Some(Content::Other)) => Err(Error::UnexpectedContentType),
        Ok(Some(Content::Cbor(CborValue::Item(_)))) => Err(Error::UnexpectedCborElement),
        Ok(Some(Content::Cbor(CborValue::Entries(v)))) => Ok(v),
    }
}

/// The map that a CoAP response carries, or why it carries none.
pub open spec fn reply_entries(response: Result<Option<Content>, String>) -> Result<
    Vec<(CborItem, CborItem)>,
    Error,
> {
    match response {
        Err(m) => Err(Error::InvalidResponse(m)),
        Ok(None) => Err(Error::MissingContentType),
        Ok(Some(Content::Other)) => Err(Error::UnexpectedContentType),
        Ok(Some(Content::Cbor(CborValue::Item(_)))) => Err(Error::UnexpectedCborElement),
        Ok(Some(Content::Cbor(CborValue::Entries(v)))) => Ok(v),
    }
}

/// Reads the current state of an rgbw device from its CoAP response.
pub fn read_rgbw(response: Result<Option<Content>, String>) -> (r: Result<Rgbw, Error>)
    ensures
        match reply_entries(response) {
            Err(e) => r == Err::<Rgbw, Error>(e),
            Ok(m) => match r {
                Ok(v) => rgbw_reading(m@) == Ok::<(Seq<char>, u8), Error>((v.rgb@, v.w)),
                Err(e) => rgbw_reading(m@) == Err::<(Seq<char>, u8), Error>(e),
            },
        },
{
    match extract_cbor_map_from_coap_response(response) {
        Ok(m) => decode_rgbw(&m),
        Err(e) => Err(e),
    }
}

/// Reads the current position of a shade device from its CoAP response.
pub fn read_shcnt(response: Result<Option<Content>, String>) -> (r: Result<Shcnt, Error>)
    ensures
        match reply_entries(response) {
            Err(e) => r == Err::<Shcnt, Error>(e),
            Ok(m) => match r {
                Ok(v) => shcnt_reading(m@) == Ok::<u8, Error>(v.pos),
                Err(e) => shcnt_reading(m@) == Err::<u8, Error>(e),
            },
        },
{
    match extract_cbor_map_from_coap_response(response) {
        Ok(m) => decode_shcnt(&m),
        Err(e) => Err(e),
    }
}

/// How an error message names a missing field.
pub open spec fn param_name(p: Param) -> Seq<char> {
    match p {
        Param::R => "r"@,
        Param::G => "g"@,
        Param::B => "b"@,
        Param::W => "\"w\""@,
        Param::Pos => "\"pos\""@,
    }
}

/// The human-readable message for a reply error.
pub open spec fn error_text(e: Error) -> Seq<char> {
    match e {
        Error::InvalidResponse(m) => "Invalid response: "@ + m@,
        Error::MissingContentType => "Missing content type"@,
        Error::UnexpectedContentType => "Unexpected content type"@,
        Error::UnexpectedCborElement => "Unexpected CBOR element"@,
        Error::MissingParameter(p) => "Missing value for parameter "@ + param_name(p),
    }
}

impl Error {
    /// The human-readable message for this error.
    pub fn message(&self) -> (r: String)
        ensures
            r@ == error_text(*self),
    {
        match self {
            Error::InvalidResponse(m) => {
                let mut s = String::from_str("Invalid response: ");
                s.append(m.as_str());
                s
            },
            Error::MissingContentType => String::from_str("Missing content type"),
            Error::UnexpectedContentType => String::from_str("Unexpected content type"),
            Error::UnexpectedCborElement => String::from_str("Unexpected CBOR element"),
            Error::MissingParameter(p) => {
                let mut s = String::from_str("Missing value for parameter ");
                let key = match p {
                    Param::R => "r",
                    Param::G => "g",
                    Param::B => "b",
                    Param::W => "\"w\"",
                    Param::Pos => "\"pos\"",
                };
                s.append(key);
                s
            },
        }
    }
}

/// The value of the first entry whose key is the text `key`.
pub fn cbor_map_get<'a>(map: &'a Vec<(CborItem, CborItem)>, key: &str) -> (r: Option<&'a CborItem>)
    ensures
        match r {
            Some(v) => lookup_in(map@, key@) == Some(*v),
            None => lookup_in(map@, key@) is None,
        },
{
    let mut i: usize = 0;
    assert(map@.subrange(0, map@.len() as int) =~= map@);
    while i < map.len()
        invariant
            i <= map@.len(),
            lookup_in(map@, key@) == lookup_in(map@.subrange(i as int, map@.len() as int), key@),
        decreases map@.len() - i,
    {
        let ghost rest = map@.subrange(i as int, map@.len() as int);
        assert(rest[0] == map@[i as int]);
        assert(rest.drop_first() =~= map@.subrange(i + 1, map@.len() as int));
        let entry = &map[i];
        if let CborItem::Text(k) = &entry.0 {
            if same_text(k.as_str(), key) {
                return Some(&entry.1);
            }
        }
        i = i + 1;
    }
    assert(map@.subrange(i as int, map@.len() as int).len() == 0);
    None
}

fn byte_field(map: &Vec<(CborItem, CborItem)>, key: &str, p: Param) -> (r: Result<u8, Error>)
    ensures
        r == byte_param(map@, key@, p),
{
    match cbor_map_get(map, key) {
        None => Err(Error::MissingParameter(p)),
        Some(CborItem::Integer(v)) => {
            if 0 <= *v && *v <= 255 {
                Ok(*v as u8)
            } else {
                Err(Error::UnexpectedCborElement)
            }
        },
        Some(_) => Err(Error::UnexpectedCborElement),
    }
}

fn hex_digit_text(n: u8) -> (r: &'static str)
    requires
        n < 16,
    ensures
        r@ == seq![hex_digits()[n as int]],
{
    proof {
        reveal_strlit("0");
        reveal_strlit("1");
        reveal_strlit("2");
        reveal_strlit("3");
        reveal_strlit("4");
        reveal_strlit("5");
        reveal_strlit("6");
        reveal_strlit("7");
        reveal_strlit("8");
        reveal_strlit("9");
        reveal_strlit("a");
        reveal_strlit("b");
        reveal_strlit("c");
        reveal_strlit("d");
        reveal_strlit("e");
        reveal_strlit("f");
    }
    let r = if n == 0 {
        "0"
    } else if n == 1 {
        "1"
    } else if n == 2 {
        "2"
    } else if n == 3 {
        "3"
    } else if n == 4 {
        "4"
    } else if n == 5 {
        "5"
    } else if n == 6 {
        "6"
    } else if n == 7 {
        "7"
    } else if n == 8 {
        "8"
    } else if n == 9 {
        "9"
    } else if n == 10 {
        "a"
    } else if n == 11 {
        "b"
    } else if n == 12 {
        "c"
    } else if n == 13 {
        "d"
    } else if n == 14 {
        "e"
    } else {
        "f"
    };
    assert(r@ =~= seq![hex_digits()[n as int]]);
    r
}

fn push_hex_byte(s: &mut String, b: u8)
    ensures
        final(s)@ == old(s)@ + seq![hex_digits()[(b / 16) as int], hex_digits()[(b % 16) as int]],
{
    s.append(hex_digit_text(b / 16));
    s.append(hex_digit_text(b % 16));
    assert(final(s)@ =~= old(s)@ + seq![hex_digits()[(b / 16) as int], hex_digits()[(b % 16) as int]]);
}

/// Reads an rgbw reply: the colour as six lower-case hex digits, and the white level.
pub fn decode_rgbw(map: &Vec<(CborItem, CborItem)>) -> (r: Result<Rgbw, Error>)
    ensures
        match r {
            Ok(v) => rgbw_reading(map@) == Ok::<(Seq<char>, u8), Error>((v.rgb@, v.w)),
            Err(e) => rgbw_reading(map@) == Err::<(Seq<char>, u8), Error>(e),
        },
{
    let r = match byte_field(map, "r", Param::R) {
        Ok(v) => v,
        Err(e) => return Err(e),
    };
    let g = match byte_field(map, "g", Param::G) {
        Ok(v) => v,
        Err(e) => return Err(e),
    };
    let b = match byte_field(map, "b", Param::B) {
        Ok(v) => v,
        Err(e) => return Err(e),
    };
    let w = match byte_field(map, "w", Param::W) {
        Ok(v) => v,
        Err(e) => return Err(e),
    };
    let mut rgb = String::new();
    push_hex_byte(&mut rgb, r);
    push_hex_byte(&mut rgb, g);
    push_hex_byte(&mut rgb, b);
    assert(rgb@ =~= hex_text(r, g, b));
    Ok(Rgbw { rgb, w })
}

/// Reads a shade reply: the current position.
pub fn decode_shcnt(map: &Vec<(CborItem, CborItem)>) -> (r: Result<Shcnt, Error>)
    ensures
        match r {
            Ok(v) => shcnt_reading(map@) == Ok::<u8, Error>(v.pos),
            Err(e) => shcnt_reading(map@) == Err::<u8, Error>(e),
        },
{
    match byte_field(map, "r", Param::Pos) {
        Ok(pos) => Ok(Shcnt { pos }),
        Err(e) => Err(e),
    }
}

fn text_entry(key: &str, v: i128) -> (r: (CborItem, CborItem))
    ensures
        entry_is(r, key@, v as int),
{
    (CborItem::Text(key.to_string()), CborItem::Integer(v))
}

/// The CBOR map that sets an rgbw device to the submitted colour and white level.
pub fn rgbw_payload(f: &Rgbw) -> (r: Vec<(CborItem, CborItem)>)
    requires
        valid_rgb(f.rgb@),
    ensures
        is_rgbw_payload(r@, f.rgb@, f.w),
{
    let mut r: Vec<(CborItem, CborItem)> = Vec::new();
    r.push(text_entry("r", f.r() as i128));
    r.push(text_entry("g", f.g() as i128));
    r.push(text_entry("b", f.b() as i128));
    r.push(text_entry("w", f.w as i128));
    r.push(text_entry("d", TRANSITION_MS));
    r
}

/// The CBOR map `{val: pos}` that sets a shade device to the submitted position.
pub fn shcnt_payload(f: &Shcnt) -> (r: Vec<(CborItem, CborItem)>)
    ensures
        r@.len() == 1,
        entry_is(r@[0], "val"@, f.pos as int),
{
    let mut r: Vec<(CborItem, CborItem)> = Vec::new();
    r.push(text_entry("val", f.pos as i128));
    r
}

/// Each lower-case hex digit has the value of its position.
pub proof fn lemma_hex_digit_value(n: int)
    requires
        0 <= n < 16,
    ensures
        hex_value(hex_digits()[n]) == n,
        crate::forms::is_hex_digit(hex_digits()[n]),
{
    let d = hex_digits();
    assert(d[0] == '0' && d[1] == '1' && d[2] == '2' && d[3] == '3');
    assert(d[4] == '4' && d[5] == '5' && d[6] == '6' && d[7] == '7');
    assert(d[8] == '8' && d[9] == '9' && d[10] == 'a' && d[11] == 'b');
    assert(d[12] == 'c' && d[13] == 'd' && d[14] == 'e' && d[15] == 'f');
}

/// Decoding the setpoint map of an rgbw form reads back the white level and the same
/// colour, as six lower-case hex digits each of the value of the submitted digit.
pub proof fn lemma_rgbw_round_trip(p: Seq<(CborItem, CborItem)>, rgb: Seq<char>, w: u8)
    requires
        valid_rgb(rgb),
        is_rgbw_payload(p, rgb, w),
    ensures
        rgbw_reading(p) == Ok::<(Seq<char>, u8), Error>(
            (
                hex_text(
                    channel_of(rgb, 0) as u8,
                    channel_of(rgb, 1) as u8,
                    channel_of(rgb, 2) as u8,
                ),
                w,
            ),
        ),
        forall|i: int|
            0 <= i < 6 ==> hex_value(
                #[trigger] hex_text(
                    channel_of(rgb, 0) as u8,
                    channel_of(rgb, 1) as u8,
                    channel_of(rgb, 2) as u8,
                )[i],
            ) == hex_value(rgb_digits(rgb)[i]),
{
    reveal_strlit("r");
    reveal_strlit("g");
    reveal_strlit("b");
    reveal_strlit("w");
    reveal_strlit("d");
    reveal_with_fuel(lookup_in, 5);
    let digits = rgb_digits(rgb);
    assert forall|i: int| 0 <= i < 6 implies 0 <= hex_value(#[trigger] digits[i]) < 16 by {
        assert(crate::forms::is_hex_digit(digits[i]));
    }
    assert(p.drop_first()[0] == p[1]);
    assert(p.drop_first().drop_first()[0] == p[2]);
    assert(p.drop_first().drop_first().drop_first()[0] == p[3]);
    assert("r"@[0] != "g"@[0] && "r"@[0] != "b"@[0] && "r"@[0] != "w"@[0]);
    assert("g"@[0] != "b"@[0] && "g"@[0] != "w"@[0] && "b"@[0] != "w"@[0]);
    assert("r"@ != "g"@ && "r"@ != "b"@ && "r"@ != "w"@);
    assert("g"@ != "b"@ && "g"@ != "w"@ && "b"@ != "w"@);
    assert(lookup_in(p, "r"@) == Some(CborItem::Integer(channel_of(rgb, 0) as i128)));
    assert(lookup_in(p, "g"@) == Some(CborItem::Integer(channel_of(rgb, 1) as i128)));
    assert(lookup_in(p, "b"@) == Some(CborItem::Integer(channel_of(rgb, 2) as i128)));
    assert(lookup_in(p, "w"@) == Some(CborItem::Integer(w as i128)));
    let t = hex_text(channel_of(rgb, 0) as u8, channel_of(rgb, 1) as u8, channel_of(rgb, 2) as u8);
    assert forall|i: int| 0 <= i < 6 implies hex_value(#[trigger] t[i]) == hex_value(digits[i]) by {
        let c = i / 2;
        let hi = hex_value(digits[2 * c]);
        let lo = hex_value(digits[2 * c + 1]);
        assert(0 <= hi < 16 && 0 <= lo < 16);
        let ch = (hi * 16 + lo) as u8;
        assert(ch / 16 == hi && ch % 16 == lo);
        lemma_hex_digit_value(hi);
        lemma_hex_digit_value(lo);
    }
}

} // verus!
