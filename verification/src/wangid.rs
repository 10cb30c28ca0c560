//! The WangId decoder: a compact bit-packed autotiling identifier.

use vstd::prelude::*;
use crate::error::Error;
use crate::text::{chars_of, hex_digit_val, hex_digit_val_exec, is_hex_digit};

verus! {

/// An autotiling descriptor: exactly eight terrain-color indices (nibble
/// values, 0–15), one per compass position, always present together.
#[derive(Clone, Copy, PartialEq, Eq, Debug)]
pub struct WangId(pub [u8; 8]);

/// The slot values a WangId string denotes: exactly 8 hexadecimal digits,
/// one nibble per slot, in positional order. Anything else denotes nothing.
pub open spec fn wang_id_spec(s: Seq<char>) -> Option<Seq<u8>> {
    if s.len() == 8 && (forall|i: int| 0 <= i < 8 ==> is_hex_digit(#[trigger] s[i])) {
        Option::Some(Seq::new(8, |i: int| hex_digit_val(s[i]) as u8))
    } else {
        Option::None
    }
}

/// Decodes a WangId string. A string that is not exactly 8 hexadecimal
/// digits is a single error carrying the full original string.
pub fn decode_wang_id(raw: &str) -> (r: Result<WangId, Error>)
    ensures
        match wang_id_spec(raw@) {
            Option::Some(slots) => r matches Ok(w) && w.0@ == slots,
            Option::None => r matches Err(e) && e matches Error::InvalidWangIdEncoding {
                read_string,
            } && read_string@ == raw@,
        },
{
    let v = chars_of(raw);
    if v.len() != 8 {
        return Err(Error::InvalidWangIdEncoding { read_string: raw.to_owned() });
    }
    let mut slots: Vec<u8> = Vec::new();
    let mut i: usize = 0;
    while i < 8
        invariant
            v@ == raw@,
            v@.len() == 8,
            i <= 8,
            slots@.len() == i,
            forall|t: int| 0 <= t < i ==> is_hex_digit(#[trigger] v@[t]) && slots@[t] as int
                == hex_digit_val(v@[t]),
        decreases 8 - i,
    {
        match hex_digit_val_exec(v[i]) {
            Option::Some(x) => {
                slots.push(x);
            },
            Option::None => {
                return Err(Error::InvalidWangIdEncoding { read_string: raw.to_owned() });
            },
        }
        i = i + 1;
    }
    let w = WangId([slots[0], slots[1], slots[2], slots[3], slots[4], slots[5], slots[6], slots[7]]);
    proof {
        let expected = wang_id_spec(raw@).unwrap();
        assert(w.0@ =~= expected);
    }
    Ok(w)
}

} // verus!
