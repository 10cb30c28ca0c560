//! The typed property-value parser.
//!
//! A property arrives as a declared type tag (absent means `string`) and a
//! raw textual value. The tag alone selects the variant; the value's syntax
//! never does. An unsupported tag is its own error, distinct from a
//! malformed value for a supported tag.

use vstd::prelude::*;
use crate::error::Error;
use crate::text::{all_dec_digits, chars_of, hex_digit_val, hex_digit_val_exec, is_dec_digit,
    is_hex_digit, parse_dec_span, parse_u32_dec, str_eq};

verus! {

/// A color with 8-bit alpha, red, green and blue channels.
#[derive(Clone, Copy, PartialEq, Eq, Structural, Debug)]
pub struct Color {
    pub alpha: u8,
    pub red: u8,
    pub green: u8,
    pub blue: u8,
}

/// A typed property value. Exactly one variant is active, selected by the
/// declared type tag.
pub enum PropertyValue {
    /// `type="bool"`.
    BoolValue(bool),
    /// `type="float"`: the validated literal text of a 64-bit float, kept
    /// verbatim; callers parse it into their float type.
    FloatValue(String),
    /// `type="int"`: a base-10 signed 32-bit integer.
    IntValue(i32),
    /// `type="color"`.
    ColorValue(Color),
    /// `type="string"` (or no tag): the value verbatim.
    StringValue(String),
    /// `type="file"`: a relative path, kept verbatim.
    FileValue(String),
    /// `type="object"`: a 32-bit object id; 0 means no referenced object.
    ObjectValue(u32),
}

/// The number a signed base-10 literal denotes, within the 32-bit signed
/// range: an optional sign, then digits.
pub open spec fn parse_i32_spec(s: Seq<char>) -> Option<i32> {
    if s.len() > 0 && s[0] == '-' {
        match parse_u32_dec(s.drop_first()) {
            Option::Some(x) => if x <= 0x80000000u32 {
                Option::Some((-(x as int)) as i32)
            } else {
                Option::None
            },
            Option::None => Option::None,
        }
    } else {
        let d = if s.len() > 0 && s[0] == '+' {
            s.drop_first()
        } else {
            s
        };
        match parse_u32_dec(d) {
            Option::Some(x) => if x <= 0x7fffffffu32 {
                Option::Some(x as i32)
            } else {
                Option::None
            },
            Option::None => Option::None,
        }
    }
}

/// The number an unsigned base-10 literal denotes: an optional plus sign,
/// then digits.
pub open spec fn parse_u32_spec(s: Seq<char>) -> Option<u32> {
    let d = if s.len() > 0 && s[0] == '+' {
        s.drop_first()
    } else {
        s
    };
    parse_u32_dec(d)
}

/// Only the exact literals `true` and `false` denote a boolean
/// (case-sensitive).
pub open spec fn parse_bool_spec(s: Seq<char>) -> Option<bool> {
    if s == "true"@ {
        Option::Some(true)
    } else if s == "false"@ {
        Option::Some(false)
    } else {
        Option::None
    }
}

/// The byte two hexadecimal digits denote.
pub open spec fn hex_byte(h: char, l: char) -> u8 {
    (hex_digit_val(h) * 16 + hex_digit_val(l)) as u8
}

/// The color a hex literal denotes: `AARRGGBB` or `RRGGBB`, with an
/// optional leading `#`; a missing alpha is fully opaque.
pub open spec fn parse_color_spec(s: Seq<char>) -> Option<Color> {
    let t = if s.len() > 0 && s[0] == '#' {
        s.drop_first()
    } else {
        s
    };
    if t.len() == 8 && is_hex_digit(t[0]) && is_hex_digit(t[1]) && is_hex_digit(t[2])
        && is_hex_digit(t[3]) && is_hex_digit(t[4]) && is_hex_digit(t[5]) && is_hex_digit(t[6])
        && is_hex_digit(t[7]) {
        Option::Some(
            Color {
                alpha: hex_byte(t[0], t[1]),
                red: hex_byte(t[2], t[3]),
                green: hex_byte(t[4], t[5]),
                blue: hex_byte(t[6], t[7]),
            },
        )
    } else if t.len() == 6 && is_hex_digit(t[0]) && is_hex_digit(t[1]) && is_hex_digit(t[2])
        && is_hex_digit(t[3]) && is_hex_digit(t[4]) && is_hex_digit(t[5]) {
        Option::Some(
            Color {
                alpha: 255,
                red: hex_byte(t[0], t[1]),
                green: hex_byte(t[2], t[3]),
                blue: hex_byte(t[4], t[5]),
            },
        )
    } else {
        Option::None
    }
}

/// The digits of an exponent: an optional sign, then at least one digit.
pub open spec fn exponent_digits(t: Seq<char>) -> bool {
    if t.len() > 0 && (t[0] == '+' || t[0] == '-') {
        t.len() > 1 && all_dec_digits(t.drop_first())
    } else {
        t.len() > 0 && all_dec_digits(t)
    }
}

/// A mantissa: digits, or digits around one decimal point with at least one
/// digit on some side.
pub open spec fn mantissa(t: Seq<char>) -> bool {
    (t.len() > 0 && all_dec_digits(t)) || (exists|i: int|
        0 <= i < t.len() && t[i] == '.' && all_dec_digits(#[trigger] t.take(i)) && all_dec_digits(
            t.skip(i + 1),
        ) && t.len() > 1)
}

/// A float body: a mantissa, optionally followed by `e` or `E` and an
/// exponent.
pub open spec fn float_body(t: Seq<char>) -> bool {
    mantissa(t) || (exists|j: int|
        0 <= j < t.len() && (t[j] == 'e' || t[j] == 'E') && mantissa(#[trigger] t.take(j))
            && exponent_digits(t.skip(j + 1)))
}

/// A standard decimal or exponent float literal, with an optional leading
/// sign.
pub open spec fn is_float_literal(s: Seq<char>) -> bool {
    float_body(
        if s.len() > 0 && (s[0] == '+' || s[0] == '-') {
            s.drop_first()
        } else {
            s
        },
    )
}

proof fn lemma_mantissa_chars(t: Seq<char>)
    requires
        mantissa(t),
    ensures
        forall|x: int| 0 <= x < t.len() ==> is_dec_digit(#[trigger] t[x]) || t[x] == '.',
{
    if t.len() > 0 && all_dec_digits(t) {
    } else {
        let i = choose|i: int|
            0 <= i < t.len() && t[i] == '.' && all_dec_digits(#[trigger] t.take(i))
                && all_dec_digits(t.skip(i + 1)) && t.len() > 1;
        assert forall|x: int| 0 <= x < t.len() implies is_dec_digit(#[trigger] t[x]) || t[x]
            == '.' by {
            if x < i {
                assert(t.take(i)[x] == t[x]);
                assert(is_dec_digit(t.take(i)[x]));
            } else if x > i {
                assert(t.skip(i + 1)[x - i - 1] == t[x]);
                assert(is_dec_digit(t.skip(i + 1)[x - i - 1]));
            }
        }
    }
}

/// The first index in `[from, to)` whose character is not a decimal digit,
/// or `to`.
fn scan_digits(v: &Vec<char>, from: usize, to: usize) -> (r: usize)
    requires
        from <= to <= v@.len(),
    ensures
        from <= r <= to,
        forall|i: int| from <= i < r ==> is_dec_digit(#[trigger] v@[i]),
        r < to ==> !is_dec_digit(v@[r as int]),
{
    let mut i: usize = from;
    while i < to
        invariant
            from <= i <= to <= v@.len(),
            forall|t: int| from <= t < i ==> is_dec_digit(#[trigger] v@[t]),
        decreases to - i,
    {
        let c = v[i];
        let u = c as u32;
        if !(('0' as u32) <= u && u <= ('9' as u32)) {
            return i;
        }
        i = i + 1;
    }
    i
}

fn mantissa_exec(v: &Vec<char>, from: usize, to: usize) -> (r: bool)
    requires
        from <= to <= v@.len(),
    ensures
        r == mantissa(v@.subrange(from as int, to as int)),
{
    let ghost t = v@.subrange(from as int, to as int);
    let q = scan_digits(v, from, to);
    proof {
        assert forall|x: int| 0 <= x < q - from implies is_dec_digit(#[trigger] t[x]) by {
            assert(t[x] == v@[from + x]);
        }
    }
    if q == to {
        if q > from {
            proof {
                assert(all_dec_digits(t));
            }
            return true;
        }
        proof {
            assert(t.len() == 0);
        }
        return false;
    }
    proof {
        assert(t[q - from] == v@[q as int]);
        assert(!is_dec_digit(t[q - from]));
    }
    if v[q] != '.' {
        proof {
            assert(t[q - from] != '.');
            if mantissa(t) {
                lemma_mantissa_chars(t);
                assert(is_dec_digit(t[q - from]) || t[q - from] == '.');
                assert(false);
            }
        }
        return false;
    }
    let q2 = scan_digits(v, q + 1, to);
    proof {
        assert(t[q - from] == '.');
    }
    if q2 < to {
        proof {
            assert(t[q2 - from] == v@[q2 as int]);
            assert(!is_dec_digit(t[q2 - from]));
            if mantissa(t) {
                if t.len() > 0 && all_dec_digits(t) {
                    assert(is_dec_digit(t[q - from]));
                    assert(false);
                } else {
                    let i = choose|i: int|
                        0 <= i < t.len() && t[i] == '.' && all_dec_digits(#[trigger] t.take(i))
                            && all_dec_digits(t.skip(i + 1)) && t.len() > 1;
                    if i < q - from {
                        assert(t[i] == v@[from + i]);
                        assert(is_dec_digit(v@[from + i]));
                        assert(false);
                    } else if i > q - from {
                        assert(t.take(i)[q - from] == t[q - from]);
                        assert(is_dec_digit(t.take(i)[q - from]));
                        assert(false);
                    } else {
                        assert(t.skip(i + 1)[q2 - from - i - 1] == t[q2 - from]);
                        assert(is_dec_digit(t.skip(i + 1)[q2 - from - i - 1]));
                        assert(false);
                    }
                }
            }
        }
        return false;
    }
    let r = to - from > 1;
    proof {
        if r {
            let i = q - from;
            assert forall|x: int| 0 <= x < t.take(i).len() implies is_dec_digit(
                #[trigger] t.take(i)[x],
            ) by {
                assert(t.take(i)[x] == t[x]);
            }
            assert forall|x: int| 0 <= x < t.skip(i + 1).len() implies is_dec_digit(
                #[trigger] t.skip(i + 1)[x],
            ) by {
                assert(t.skip(i + 1)[x] == t[i + 1 + x]);
                assert(t[i + 1 + x] == v@[q + 1 + x]);
            }
            assert(0 <= i < t.len() && t[i] == '.' && all_dec_digits(t.take(i)) && all_dec_digits(
                t.skip(i + 1),
            ) && t.len() > 1);
            assert(mantissa(t));
        } else {
            assert(t.len() == 1);
            if mantissa(t) {
                if t.len() > 0 && all_dec_digits(t) {
                    assert(is_dec_digit(t[0]));
                    assert(false);
                } else {
                    let i = choose|i: int|
                        0 <= i < t.len() && t[i] == '.' && all_dec_digits(#[trigger] t.take(i))
                            && all_dec_digits(t.skip(i + 1)) && t.len() > 1;
                    assert(false);
                }
            }
        }
    }
    r
}

fn exponent_digits_exec(v: &Vec<char>, from: usize, to: usize) -> (r: bool)
    requires
        from <= to <= v@.len(),
    ensures
        r == exponent_digits(v@.subrange(from as int, to as int)),
{
    let ghost t = v@.subrange(from as int, to as int);
    if from == to {
        return false;
    }
    let c = v[from];
    proof {
        assert(t[0] == v@[from as int]);
    }
    if c == '+' || c == '-' {
        if from + 1 == to {
            return false;
        }
        proof {
            assert(t.drop_first() =~= v@.subrange(from as int + 1, to as int));
        }
        let q = scan_digits(v, from + 1, to);
        proof {
            let d = t.drop_first();
            if q == to {
                assert forall|x: int| 0 <= x < d.len() implies is_dec_digit(#[trigger] d[x]) by {
                    assert(d[x] == v@[from + 1 + x]);
                }
            } else {
                assert(d[q - from - 1] == v@[q as int]);
                assert(!is_dec_digit(d[q - from - 1]));
            }
        }
        q == to
    } else {
        let q = scan_digits(v, from, to);
        proof {
            if q == to {
                assert forall|x: int| 0 <= x < t.len() implies is_dec_digit(#[trigger] t[x]) by {
                    assert(t[x] == v@[from + x]);
                }
            } else {
                assert(t[q - from] == v@[q as int]);
                assert(!is_dec_digit(t[q - from]));
            }
        }
        q == to
    }
}

/// The first index in `[from, to)` holding `e` or `E`, or `to`.
fn scan_exponent_char(v: &Vec<char>, from: usize, to: usize) -> (r: usize)
    requires
        from <= to <= v@.len(),
    ensures
        from <= r <= to,
        forall|i: int| from <= i < r ==> !((#[trigger] v@[i]) == 'e' || v@[i] == 'E'),
        r < to ==> (v@[r as int] == 'e' || v@[r as int] == 'E'),
{
    let mut i: usize = from;
    while i < to
        invariant
            from <= i <= to <= v@.len(),
            forall|t: int| from <= t < i ==> !((#[trigger] v@[t]) == 'e' || v@[t] == 'E'),
        decreases to - i,
    {
        let c = v[i];
        if c == 'e' || c == 'E' {
            return i;
        }
        i = i + 1;
    }
    i
}

fn float_body_exec(v: &Vec<char>, from: usize, to: usize) -> (r: bool)
    requires
        from <= to <= v@.len(),
    ensures
        r == float_body(v@.subrange(from as int, to as int)),
{
    let ghost t = v@.subrange(from as int, to as int);
    let p = scan_exponent_char(v, from, to);
    if p == to {
        let m = mantissa_exec(v, from, to);
        proof {
            if !m && float_body(t) {
                let j = choose|j: int|
                    0 <= j < t.len() && (t[j] == 'e' || t[j] == 'E') && mantissa(
                        #[trigger] t.take(j),
                    ) && exponent_digits(t.skip(j + 1));
                assert(t[j] == v@[from + j]);
                assert(false);
            }
        }
        return m;
    }
    let m = mantissa_exec(v, from, p);
    let ed = exponent_digits_exec(v, p + 1, to);
    proof {
        assert(t.take(p - from) =~= v@.subrange(from as int, p as int));
        assert(t.skip(p - from + 1) =~= v@.subrange(p as int + 1, to as int));
        assert(t[p - from] == v@[p as int]);
    }
    if m && ed {
        proof {
            let j = p - from;
            assert(0 <= j < t.len() && (t[j] == 'e' || t[j] == 'E') && mantissa(t.take(j))
                && exponent_digits(t.skip(j + 1)));
            assert(float_body(t));
        }
        return true;
    }
    proof {
        if float_body(t) {
            if mantissa(t) {
                lemma_mantissa_chars(t);
                assert(is_dec_digit(t[p - from]) || t[p - from] == '.');
                assert(false);
            } else {
                let j = choose|j: int|
                    0 <= j < t.len() && (t[j] == 'e' || t[j] == 'E') && mantissa(
                        #[trigger] t.take(j),
                    ) && exponent_digits(t.skip(j + 1));
                if j < p - from {
                    assert(t[j] == v@[from + j]);
                    assert(false);
                } else if j > p - from {
                    lemma_mantissa_chars(t.take(j));
                    assert(t.take(j)[p - from] == t[p - from]);
                    assert(is_dec_digit(t[p - from]) || t[p - from] == '.');
                    assert(false);
                } else {
                    assert(false);
                }
            }
        }
    }
    false
}

/// Whether the text is a float literal: an optional sign, then a decimal
/// or exponent form.
pub fn is_float_literal_exec(v: &Vec<char>) -> (r: bool)
    ensures
        r == is_float_literal(v@),
{
    let n = v.len();
    if n > 0 && (v[0] == '+' || v[0] == '-') {
        proof {
            assert(v@.drop_first() =~= v@.subrange(1, n as int));
        }
        float_body_exec(v, 1, n)
    } else {
        proof {
            assert(v@.subrange(0, n as int) =~= v@);
        }
        float_body_exec(v, 0, n)
    }
}

/// Reads a signed base-10 32-bit integer.
pub fn parse_i32_exec(v: &Vec<char>) -> (r: Option<i32>)
    ensures
        r == parse_i32_spec(v@),
{
    let n = v.len();
    if n == 0 {
        return None;
    }
    let c = v[0];
    if c == '-' {
        proof {
            assert(v@.drop_first() =~= v@.subrange(1, n as int));
        }
        match parse_dec_span(v, 1, n) {
            Option::None => None,
            Option::Some(x) => {
                if x > 0x80000000u32 {
                    None
                } else if x == 0x80000000u32 {
                    Some(i32::MIN)
                } else {
                    Some(-(x as i32))
                }
            },
        }
    } else if c == '+' {
        proof {
            assert(v@.drop_first() =~= v@.subrange(1, n as int));
        }
        match parse_dec_span(v, 1, n) {
            Option::None => None,
            Option::Some(x) => {
                if x > 0x7fffffffu32 {
                    None
                } else {
                    Some(x as i32)
                }
            },
        }
    } else {
        proof {
            assert(v@.subrange(0, n as int) =~= v@);
        }
        match parse_dec_span(v, 0, n) {
            Option::None => None,
            Option::Some(x) => {
                if x > 0x7fffffffu32 {
                    None
                } else {
                    Some(x as i32)
                }
            },
        }
    }
}

/// Reads an unsigned base-10 32-bit integer.
pub fn parse_u32_exec(v: &Vec<char>) -> (r: Option<u32>)
    ensures
        r == parse_u32_spec(v@),
{
    let n = v.len();
    if n > 0 && v[0] == '+' {
        proof {
            assert(v@.drop_first() =~= v@.subrange(1, n as int));
        }
        parse_dec_span(v, 1, n)
    } else {
        proof {
            assert(v@.subrange(0, n as int) =~= v@);
        }
        parse_dec_span(v, 0, n)
    }
}

/// The byte denoted by the two hexadecimal digits at `i` and `i + 1`.
fn hex_pair(v: &Vec<char>, i: usize) -> (r: Option<u8>)
    requires
        i + 1 < v@.len(),
    ensures
        match r {
            Option::Some(b) => is_hex_digit(v@[i as int]) && is_hex_digit(v@[i as int + 1]) && b
                == hex_byte(v@[i as int], v@[i as int + 1]),
            Option::None => !(is_hex_digit(v@[i as int]) && is_hex_digit(v@[i as int + 1])),
        },
{
    let n = v.len();
    proof {
        assert(i + 1 < n);
    }
    let h = match hex_digit_val_exec(v[i]) {
        Option::Some(x) => x,
        Option::None => {
            return None;
        },
    };
    let l = match hex_digit_val_exec(v[i + 1]) {
        Option::Some(x) => x,
        Option::None => {
            return None;
        },
    };
    Some(h * 16 + l)
}

/// Reads a hex color literal.
pub fn parse_color_exec(v: &Vec<char>) -> (r: Option<Color>)
    ensures
        r == parse_color_spec(v@),
{
    let n = v.len();
    let off: usize = if n > 0 && v[0] == '#' {
        1
    } else {
        0
    };
    let ghost t = if off == 1 {
        v@.drop_first()
    } else {
        v@
    };
    proof {
        assert(t =~= v@.subrange(off as int, n as int));
        assert(forall|x: int| 0 <= x < t.len() ==> #[trigger] t[x] == v@[off + x]);
    }
    let m = n - off;
    if m == 8 {
        let a = match hex_pair(v, off) {
            Option::Some(b) => b,
            Option::None => {
                return None;
            },
        };
        let red = match hex_pair(v, off + 2) {
            Option::Some(b) => b,
            Option::None => {
                return None;
            },
        };
        let green = match hex_pair(v, off + 4) {
            Option::Some(b) => b,
            Option::None => {
                return None;
            },
        };
        let blue = match hex_pair(v, off + 6) {
            Option::Some(b) => b,
            Option::None => {
                return None;
            },
        };
        Some(Color { alpha: a, red, green, blue })
    } else if m == 6 {
        let red = match hex_pair(v, off) {
            Option::Some(b) => b,
            Option::None => {
                return None;
            },
        };
        let green = match hex_pair(v, off + 2) {
            Option::Some(b) => b,
            Option::None => {
                return None;
            },
        };
        let blue = match hex_pair(v, off + 4) {
            Option::Some(b) => b,
            Option::None => {
                return None;
            },
        };
        Some(Color { alpha: 255, red, green, blue })
    } else {
        None
    }
}

/// The declared tag, with an absent tag meaning `string`.
pub open spec fn tag_or_default(t: Option<Seq<char>>) -> Seq<char> {
    match t {
        Option::None => "string"@,
        Option::Some(s) => s,
    }
}

/// Decodes one property: the declared tag selects the variant, and the raw
/// value must match that tag's grammar. A malformed value is an
/// `InvalidPropertyValue` carrying the offending text; an unsupported tag
/// is an `UnknownPropertyType` carrying the tag.
pub fn decode_property_value(type_tag: &Option<String>, value: &str) -> (r: Result<
    PropertyValue,
    Error,
>)
    ensures
        ({
            let tag = tag_or_default(type_tag.deep_view());
            if tag == "string"@ {
                r matches Ok(PropertyValue::StringValue(s)) && s@ == value@
            } else if tag == "int"@ {
                match parse_i32_spec(value@) {
                    Option::Some(x) => r matches Ok(PropertyValue::IntValue(y)) && y == x,
                    Option::None => r matches Err(e) && e matches Error::InvalidPropertyValue {
                        description,
                    } && description@ == value@,
                }
            } else if tag == "float"@ {
                if is_float_literal(value@) {
                    r matches Ok(PropertyValue::FloatValue(s)) && s@ == value@
                } else {
                    r matches Err(e) && e matches Error::InvalidPropertyValue { description }
                        && description@ == value@
                }
            } else if tag == "bool"@ {
                match parse_bool_spec(value@) {
                    Option::Some(b) => r matches Ok(PropertyValue::BoolValue(c)) && c == b,
                    Option::None => r matches Err(e) && e matches Error::InvalidPropertyValue {
                        description,
                    } && description@ == value@,
                }
            } else if tag == "color"@ {
                match parse_color_spec(value@) {
                    Option::Some(c) => r matches Ok(PropertyValue::ColorValue(d)) && d == c,
                    Option::None => r matches Err(e) && e matches Error::InvalidPropertyValue {
                        description,
                    } && description@ == value@,
                }
            } else if tag == "file"@ {
                r matches Ok(PropertyValue::FileValue(s)) && s@ == value@
            } else if tag == "object"@ {
                match parse_u32_spec(value@) {
                    Option::Some(x) => r matches Ok(PropertyValue::ObjectValue(y)) && y == x,
                    Option::None => r matches Err(e) && e matches Error::InvalidPropertyValue {
                        description,
                    } && description@ == value@,
                }
            } else {
                r matches Err(e) && e matches Error::UnknownPropertyType { name } && name@ == tag
            }
        }),
{
    let tag: &str = match type_tag {
        Option::None => "string",
        Option::Some(t) => t.as_str(),
    };
    if str_eq(tag, "string") {
        Ok(PropertyValue::StringValue(value.to_owned()))
    } else if str_eq(tag, "int") {
        let v = chars_of(value);
        match parse_i32_exec(&v) {
            Option::Some(x) => Ok(PropertyValue::IntValue(x)),
            Option::None => Err(Error::InvalidPropertyValue { description: value.to_owned() }),
        }
    } else if str_eq(tag, "float") {
        let v = chars_of(value);
        if is_float_literal_exec(&v) {
            Ok(PropertyValue::FloatValue(value.to_owned()))
        } else {
            Err(Error::InvalidPropertyValue { description: value.to_owned() })
        }
    } else if str_eq(tag, "bool") {
        if str_eq(value, "true") {
            Ok(PropertyValue::BoolValue(true))
        } else if str_eq(value, "false") {
            Ok(PropertyValue::BoolValue(false))
        } else {
            Err(Error::InvalidPropertyValue { description: value.to_owned() })
        }
    } else if str_eq(tag, "color") {
        let v = chars_of(value);
        match parse_color_exec(&v) {
            Option::Some(c) => Ok(PropertyValue::ColorValue(c)),
            Option::None => Err(Error::InvalidPropertyValue { description: value.to_owned() }),
        }
    } else if str_eq(tag, "file") {
        Ok(PropertyValue::FileValue(value.to_owned()))
    } else if str_eq(tag, "object") {
        let v = chars_of(value);
        match parse_u32_exec(&v) {
            Option::Some(x) => Ok(PropertyValue::ObjectValue(x)),
            Option::None => Err(Error::InvalidPropertyValue { description: value.to_owned() }),
        }
    } else {
        Err(Error::UnknownPropertyType { name: tag.to_owned() })
    }
}

} // verus!
