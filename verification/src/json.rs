//! The JSON text that `serde_json` writes, compactly, for strings, pairs
//! of strings and maps of strings: the bytes that some names and keys of
//! this library are digests of.
use vstd::prelude::*;

verus! {

/// The lowercase hexadecimal digit of `d`, below 16, as a byte.
pub open spec fn hex_digit_byte(d: nat) -> u8 {
    if d < 10 {
        (48 + d) as u8
    } else {
        (87 + d) as u8
    }
}

/// One character of a JSON string: a quote, a backslash and the control
/// characters are escaped (`\b`, `\t`, `\n`, `\f`, `\r`, else `\u00` and
/// two lowercase hexadecimal digits); every other character is its UTF-8
/// bytes.
pub open spec fn json_char(c: char) -> Seq<u8> {
    let n = c as u32;
    if n == 34 {
        seq![92u8, 34u8]
    } else if n == 92 {
        seq![92u8, 92u8]
    } else if n == 8 {
        seq![92u8, 98u8]
    } else if n == 9 {
        seq![92u8, 116u8]
    } else if n == 10 {
        seq![92u8, 110u8]
    } else if n == 12 {
        seq![92u8, 102u8]
    } else if n == 13 {
        seq![92u8, 114u8]
    } else if n < 32 {
        seq![92u8, 117u8, 48u8, 48u8, hex_digit_byte((n / 16) as nat), hex_digit_byte((n % 16) as nat)]
    } else {
        vstd::utf8::encode_utf8(seq![c])
    }
}

/// The characters of a string, each as in a JSON string.
pub open spec fn json_chars(s: Seq<char>) -> Seq<u8>
    decreases s.len(),
{
    if s.len() == 0 {
        Seq::empty()
    } else {
        json_chars(s.drop_last()) + json_char(s.last())
    }
}

/// A JSON string: its characters between double quotes.
pub open spec fn json_string(s: Seq<char>) -> Seq<u8> {
    seq![34u8] + json_chars(s) + seq![34u8]
}

/// A pair of strings as a JSON array: `["a","b"]`.
pub open spec fn json_pair(a: Seq<char>, b: Seq<char>) -> Seq<u8> {
    seq![91u8] + json_string(a) + seq![44u8] + json_string(b) + seq![93u8]
}

/// The entries of a JSON object, in order: each key, a colon and its
/// value, separated by commas.
pub open spec fn json_entries(pairs: Seq<(Seq<char>, Seq<char>)>) -> Seq<u8>
    decreases pairs.len(),
{
    if pairs.len() == 0 {
        Seq::empty()
    } else {
        let entry = json_string(pairs.last().0) + seq![58u8] + json_string(pairs.last().1);
        if pairs.len() == 1 {
            entry
        } else {
            json_entries(pairs.drop_last()) + seq![44u8] + entry
        }
    }
}

/// A map of strings as a JSON object, its entries in the given order.
pub open spec fn json_object(pairs: Seq<(Seq<char>, Seq<char>)>) -> Seq<u8> {
    seq![123u8] + json_entries(pairs) + seq![125u8]
}

/// A string and a map of strings as a JSON array: `["a",{...}]`.
pub open spec fn json_text_and_object(text: Seq<char>, pairs: Seq<(Seq<char>, Seq<char>)>) -> Seq<u8> {
    seq![91u8] + json_string(text) + seq![44u8] + json_object(pairs) + seq![93u8]
}

} // verus!
