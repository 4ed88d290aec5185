//! Conversion between textual `0`/`1` strings and bit sequences.
//!
//! Encoding fails fast on any character outside `{0, 1}`; nothing is ever
//! silently coerced to a default bit.  Decoding emits the bits in reverse
//! positional order — last bit first — which is the documented rendering
//! order for displayed search results.

use crate::errors::InvalidSymbolError;
use vstd::prelude::*;
use vstd::string::StrSliceExecFns;
use vstd::string::StringExecFns;

verus! {

/// Encodes a textual bit string: `'0'` becomes `false`, `'1'` becomes
/// `true`, and any other character anywhere in the string makes the whole
/// encoding fail.
pub fn bool_vec_from_str(value: &str) -> (r: Result<Vec<bool>, InvalidSymbolError>)
    ensures
        match r {
            Ok(v) => v@.len() == value@.len() && (forall|i: int|
                0 <= i < value@.len() ==> (value@[i] == '0' || value@[i] == '1')) && (forall|i: int|
                0 <= i < v@.len() ==> v@[i] == (value@[i] == '1')),
            Err(_) => exists|i: int| 0 <= i < value@.len() && value@[i] != '0' && value@[i] != '1',
        },
{
    let n = value.unicode_len();
    let mut v: Vec<bool> = Vec::new();
    let mut i: usize = 0;
    while i < n
        invariant
            i <= n,
            n == value@.len(),
            v@.len() == i,
            forall|j: int| 0 <= j < i ==> (value@[j] == '0' || value@[j] == '1'),
            forall|j: int| 0 <= j < i ==> v@[j] == (value@[j] == '1'),
        decreases n - i,
    {
        let c = value.get_char(i);
        if c == '0' {
            v.push(false);
        } else if c == '1' {
            v.push(true);
        } else {
            return Err(InvalidSymbolError);
        }
        i += 1;
    }
    Ok(v)
}

/// Decodes a bit sequence back to text, emitting the bits in reverse
/// positional order: the character at position `i` renders the bit at
/// position `len - 1 - i`.
pub fn str_from_bool_slice(value: &[bool]) -> (r: String)
    ensures
        r@.len() == value@.len(),
        forall|i: int|
            0 <= i < r@.len() ==> r@[i] == (if value@[value@.len() - 1 - i] {
                '1'
            } else {
                '0'
            }),
{
    proof {
        reveal_strlit("1");
        reveal_strlit("0");
    }
    let n = value.len();
    let mut r = String::new();
    let mut i: usize = 0;
    while i < n
        invariant
            i <= n,
            n == value@.len(),
            r@.len() == i,
            forall|j: int|
                0 <= j < i ==> r@[j] == (if value@[n - 1 - j] {
                    '1'
                } else {
                    '0'
                }),
        decreases n - i,
    {
        proof {
            reveal_strlit("1");
            reveal_strlit("0");
        }
        let bit = value[n - 1 - i];
        if bit {
            r.append("1");
        } else {
            r.append("0");
        }
        i += 1;
    }
    r
}

} // verus!
