//! The outer shape of a JSON text, read off its bytes.
//!
//! A decoder that builds a map keeps one value for each key, so it cannot
//! tell a text that gives a key twice from one that gives it once. The scan
//! below counts the members that the text itself writes into its outermost
//! object, whatever their keys are.

use vstd::prelude::*;
use vstd::utf8::encode_utf8;

verus! {

/// The byte `"`.
pub const QUOTE: u8 = 0x22;

/// The byte `\`.
pub const BACKSLASH: u8 = 0x5c;

/// The byte `:`.
pub const COLON: u8 = 0x3a;

/// The byte `{`.
pub const OPEN_BRACE: u8 = 0x7b;

/// The byte `}`.
pub const CLOSE_BRACE: u8 = 0x7d;

/// The byte `[`.
pub const OPEN_BRACKET: u8 = 0x5b;

/// The byte `]`.
pub const CLOSE_BRACKET: u8 = 0x5d;

/// Where a scan stands after some bytes of a text.
pub struct Scan {
    /// How many objects and arrays are open.
    pub depth: nat,
    /// The scan is inside a string.
    pub in_string: bool,
    /// The scan is inside a string, right behind a backslash.
    pub escaped: bool,
    /// How many colons stood directly inside the outermost object.
    pub members: nat,
}

/// A scan that has read nothing.
pub open spec fn scan_start() -> Scan {
    Scan { depth: 0, in_string: false, escaped: false, members: 0 }
}

/// The scan after one more byte.
///
/// Inside a string only a quote that no backslash precedes counts: it ends
/// the string. Outside of strings a quote begins one, a brace or bracket
/// opens or closes a level, and a colon at the first level counts as a
/// member. A byte above the ASCII range belongs to a character of several
/// bytes and is none of these.
pub open spec fn scan_step(scan: Scan, byte: u8) -> Scan {
    if scan.in_string {
        if scan.escaped {
            Scan { escaped: false, ..scan }
        } else if byte == BACKSLASH {
            Scan { escaped: true, ..scan }
        } else if byte == QUOTE {
            Scan { in_string: false, ..scan }
        } else {
            scan
        }
    } else if byte == QUOTE {
        Scan { in_string: true, ..scan }
    } else if byte == OPEN_BRACE || byte == OPEN_BRACKET {
        Scan { depth: scan.depth + 1, ..scan }
    } else if byte == CLOSE_BRACE || byte == CLOSE_BRACKET {
        Scan { depth: if scan.depth > 0 { (scan.depth - 1) as nat } else { 0 }, ..scan }
    } else if byte == COLON && scan.depth == 1 {
        Scan { members: scan.members + 1, ..scan }
    } else {
        scan
    }
}

/// The scan after all the bytes of a list, first to last.
pub open spec fn scan_of(bytes: Seq<u8>) -> Scan
    decreases bytes.len(),
{
    if bytes.len() == 0 {
        scan_start()
    } else {
        scan_step(scan_of(bytes.drop_last()), bytes.last())
    }
}

/// How many members a text writes into its outermost object: the colons that
/// stand directly inside it, outside of every string.
pub open spec fn top_level_members(text: Seq<char>) -> nat {
    scan_of(encode_utf8(text)).members
}

/// Counts the members that a text writes into its outermost object.
pub fn count_members(text: &str) -> (members: usize)
    ensures
        members == top_level_members(text@),
{
    let bytes = text.as_bytes();
    let mut depth: usize = 0;
    let mut in_string = false;
    let mut escaped = false;
    let mut members: usize = 0;
    let mut i: usize = 0;
    while i < bytes.len()
        invariant
            i <= bytes@.len(),
            bytes@ == encode_utf8(text@),
            depth <= i,
            members <= i,
            scan_of(bytes@.subrange(0, i as int)) == (Scan {
                depth: depth as nat,
                in_string,
                escaped,
                members: members as nat,
            }),
        decreases bytes@.len() - i,
    {
        let byte = bytes[i];
        proof {
            let longer = bytes@.subrange(0, i + 1);
            assert(longer.drop_last() =~= bytes@.subrange(0, i as int));
            assert(longer.last() == byte);
        }
        if in_string {
            if escaped {
                escaped = false;
            } else if byte == BACKSLASH {
                escaped = true;
            } else if byte == QUOTE {
                in_string = false;
            }
        } else if byte == QUOTE {
            in_string = true;
        } else if byte == OPEN_BRACE || byte == OPEN_BRACKET {
            depth = depth + 1;
        } else if byte == CLOSE_BRACE || byte == CLOSE_BRACKET {
            if depth > 0 {
                depth = depth - 1;
            }
        } else if byte == COLON && depth == 1 {
            members = members + 1;
        }
        i += 1;
    }
    assert(bytes@.subrange(0, i as int) =~= bytes@);
    members
}

} // verus!
