//! Wire codec for chat frames.
//!
//! Outbound: a record is serialized as the JSON object
//! `{"user":...,"text":...,"ts":...}` with the two strings escaped. Inbound:
//! an untrusted text frame parses into `{user, text}` when it is a single
//! JSON object holding string members `"user"` and `"text"` exactly once
//! each; other members with primitive values are ignored; anything else is
//! structurally invalid and rejected. The full wire shape (with `"ts"`) can
//! be parsed back as well.

use vstd::prelude::*;

use crate::message::ChatMessage;
use crate::message::InboundMessage;
use crate::message::MsgView;

verus! {

// ---------------------------------------------------------------- characters

/// JSON whitespace.
pub open spec fn is_ws(b: u8) -> bool {
    b == 0x20 || b == 0x09 || b == 0x0a || b == 0x0d
}

/// ASCII decimal digit.
pub open spec fn is_digit(b: u8) -> bool {
    0x30 <= b && b <= 0x39
}

/// ASCII hexadecimal digit.
pub open spec fn is_hex(b: u8) -> bool {
    ||| is_digit(b)
    ||| (0x41 <= b && b <= 0x46)
    ||| (0x61 <= b && b <= 0x66)
}

/// Value of a hexadecimal digit.
pub open spec fn hex_val(b: u8) -> int {
    if is_digit(b) {
        b - 0x30
    } else if 0x41 <= b && b <= 0x46 {
        b - 0x41 + 10
    } else {
        b - 0x61 + 10
    }
}

/// Lower-case hexadecimal digit for a value below 16.
pub open spec fn hex_digit(n: int) -> u8 {
    if n < 10 {
        (0x30 + n) as u8
    } else {
        (0x57 + n) as u8
    }
}

/// UTF-8 encoding of a scalar value below 0x10000.
pub open spec fn utf8_enc(c: int) -> Seq<u8> {
    if c < 0x80 {
        seq![c as u8]
    } else if c < 0x800 {
        seq![(0xc0 + c / 64) as u8, (0x80 + c % 64) as u8]
    } else {
        seq![(0xe0 + c / 4096) as u8, (0x80 + (c / 64) % 64) as u8, (0x80 + c % 64) as u8]
    }
}

/// First index in `[i, s.len()]` past any JSON whitespace.
pub open spec fn sp_ws(s: Seq<u8>, i: int) -> int
    decreases s.len() - i,
{
    if 0 <= i < s.len() && is_ws(s[i]) {
        sp_ws(s, i + 1)
    } else {
        i
    }
}

// ------------------------------------------------------------------- strings

/// The byte a simple escape `\x` denotes.
pub open spec fn unescape_byte(e: u8) -> u8 {
    if e == 0x62 {
        0x08
    } else if e == 0x74 {
        0x09
    } else if e == 0x6e {
        0x0a
    } else if e == 0x66 {
        0x0c
    } else if e == 0x72 {
        0x0d
    } else {
        e
    }
}

/// The escapes `\" \\ \/ \b \t \n \f \r`.
pub open spec fn is_simple_escape(e: u8) -> bool {
    e == 0x22 || e == 0x5c || e == 0x2f || e == 0x62 || e == 0x74 || e == 0x6e || e == 0x66
        || e == 0x72
}

/// Parses a JSON string body starting right after the opening quote:
/// the decoded bytes and the index just past the closing quote. Control
/// bytes must be escaped; `\uXXXX` outside the surrogate range becomes
/// UTF-8.
pub open spec fn sp_string_body(s: Seq<u8>, i: int) -> Option<(Seq<u8>, int)>
    decreases s.len() - i,
{
    if !(0 <= i < s.len()) {
        None
    } else if s[i] == 0x22 {
        Some((Seq::empty(), i + 1))
    } else if s[i] == 0x5c {
        if i + 2 <= s.len() && is_simple_escape(s[i + 1]) {
            match sp_string_body(s, i + 2) {
                None => None,
                Some(p) => Some((seq![unescape_byte(s[i + 1])] + p.0, p.1)),
            }
        } else if i + 6 <= s.len() && s[i + 1] == 0x75 && is_hex(s[i + 2]) && is_hex(s[i + 3])
            && is_hex(s[i + 4]) && is_hex(s[i + 5]) {
            let c = hex_val(s[i + 2]) * 4096 + hex_val(s[i + 3]) * 256 + hex_val(s[i + 4]) * 16
                + hex_val(s[i + 5]);
            if 0xd800 <= c <= 0xdfff {
                None
            } else {
                match sp_string_body(s, i + 6) {
                    None => None,
                    Some(p) => Some((utf8_enc(c) + p.0, p.1)),
                }
            }
        } else {
            None
        }
    } else if s[i] < 0x20 {
        None
    } else {
        match sp_string_body(s, i + 1) {
            None => None,
            Some(p) => Some((seq![s[i]] + p.0, p.1)),
        }
    }
}

// ------------------------------------------------------------------- numbers

/// First index in `[i, s.len()]` holding no decimal digit.
pub open spec fn sp_digits_end(s: Seq<u8>, i: int) -> int
    decreases s.len() - i,
{
    if 0 <= i < s.len() && is_digit(s[i]) {
        sp_digits_end(s, i + 1)
    } else {
        i
    }
}

/// End of a JSON number's exponent part at `i` (or `i` when there is none).
pub open spec fn sp_exp_end(s: Seq<u8>, i: int) -> Option<int> {
    if 0 <= i < s.len() && (s[i] == 0x65 || s[i] == 0x45) {
        let p = if i + 1 < s.len() && (s[i + 1] == 0x2b || s[i + 1] == 0x2d) {
            i + 2
        } else {
            i + 1
        };
        if 0 <= p < s.len() && is_digit(s[p]) {
            Some(sp_digits_end(s, p))
        } else {
            None
        }
    } else {
        Some(i)
    }
}

/// End of a full JSON number starting at `i`: optional minus, an integer
/// part without leading zeros, optional fraction and exponent.
pub open spec fn sp_number_end(s: Seq<u8>, i: int) -> Option<int> {
    let p1 = if 0 <= i < s.len() && s[i] == 0x2d {
        i + 1
    } else {
        i
    };
    if !(0 <= p1 < s.len() && is_digit(s[p1])) {
        None
    } else {
        let p2 = if s[p1] == 0x30 {
            p1 + 1
        } else {
            sp_digits_end(s, p1)
        };
        if p2 < s.len() && s[p2] == 0x2e {
            if p2 + 1 < s.len() && is_digit(s[p2 + 1]) {
                sp_exp_end(s, sp_digits_end(s, p2 + 1))
            } else {
                None
            }
        } else {
            sp_exp_end(s, p2)
        }
    }
}

/// Value of the decimal digits `s[lo..hi]`.
pub open spec fn digits_val(s: Seq<u8>, lo: int, hi: int) -> int
    decreases hi - lo,
{
    if lo >= hi {
        0
    } else {
        digits_val(s, lo, hi - 1) * 10 + (s[hi - 1] - 0x30)
    }
}

/// A strict JSON integer at `i`: optional minus then digits without leading
/// zeros, not continued by a fraction or exponent. Yields the mathematical
/// value and the end index.
pub open spec fn sp_int(s: Seq<u8>, i: int) -> Option<(int, int)> {
    let neg = 0 <= i < s.len() && s[i] == 0x2d;
    let p1 = if neg {
        i + 1
    } else {
        i
    };
    if !(0 <= p1 < s.len() && is_digit(s[p1])) {
        None
    } else {
        let p2 = if s[p1] == 0x30 {
            p1 + 1
        } else {
            sp_digits_end(s, p1)
        };
        if p2 < s.len() && (s[p2] == 0x2e || s[p2] == 0x65 || s[p2] == 0x45) {
            None
        } else {
            let v = digits_val(s, p1, p2);
            Some((if neg { -v } else { v }, p2))
        }
    }
}

// -------------------------------------------------------------- other values

/// End of a primitive JSON value at `i`: a string, a number, `true`,
/// `false` or `null`. Members of inbound objects other than `"user"` and
/// `"text"` are skipped through this; a nested object or array is not
/// accepted.
pub open spec fn sp_skip_prim(s: Seq<u8>, i: int) -> Option<int> {
    if !(0 <= i < s.len()) {
        None
    } else if s[i] == 0x22 {
        match sp_string_body(s, i + 1) {
            None => None,
            Some(p) => Some(p.1),
        }
    } else if s[i] == 0x2d || is_digit(s[i]) {
        sp_number_end(s, i)
    } else if i + 4 <= s.len() && s[i] == 0x74 && s[i + 1] == 0x72 && s[i + 2] == 0x75 && s[i + 3]
        == 0x65 {
        Some(i + 4)
    } else if i + 5 <= s.len() && s[i] == 0x66 && s[i + 1] == 0x61 && s[i + 2] == 0x6c && s[i + 3]
        == 0x73 && s[i + 4] == 0x65 {
        Some(i + 5)
    } else if i + 4 <= s.len() && s[i] == 0x6e && s[i + 1] == 0x75 && s[i + 2] == 0x6c && s[i + 3]
        == 0x6c {
        Some(i + 4)
    } else {
        None
    }
}

// ------------------------------------------------------------------- objects

/// The bytes of `"user"`.
pub open spec fn user_key() -> Seq<u8> {
    seq![0x75u8, 0x73, 0x65, 0x72]
}

/// The bytes of `"text"`.
pub open spec fn text_key() -> Seq<u8> {
    seq![0x74u8, 0x65, 0x78, 0x74]
}

/// The bytes of `"ts"`.
pub open spec fn ts_key() -> Seq<u8> {
    seq![0x74u8, 0x73]
}

/// Parses the members of an inbound object from the first key at `i`,
/// with `u` and `t` the member values seen so far: `"user"` and `"text"`
/// must appear exactly once each as strings, other members hold primitive
/// values. Yields both values and the index past the closing brace.
pub open spec fn sp_inb_members(
    s: Seq<u8>,
    i: int,
    u: Option<Seq<u8>>,
    t: Option<Seq<u8>>,
) -> Option<(Seq<u8>, Seq<u8>, int)>
    decreases s.len() - i,
{
    if !(0 <= i < s.len() && s[i] == 0x22) {
        None
    } else {
        match sp_string_body(s, i + 1) {
            None => None,
            Some(kp) => {
                let j0 = sp_ws(s, kp.1);
                if !(0 <= j0 < s.len() && s[j0] == 0x3a) {
                    None
                } else {
                    let j1 = sp_ws(s, j0 + 1);
                    let step: Option<(Option<Seq<u8>>, Option<Seq<u8>>, int)> = if kp.0
                        == user_key() {
                        if u is Some {
                            None
                        } else if 0 <= j1 < s.len() && s[j1] == 0x22 {
                            match sp_string_body(s, j1 + 1) {
                                None => None,
                                Some(vp) => Some((Some(vp.0), t, vp.1)),
                            }
                        } else {
                            None
                        }
                    } else if kp.0 == text_key() {
                        if t is Some {
                            None
                        } else if 0 <= j1 < s.len() && s[j1] == 0x22 {
                            match sp_string_body(s, j1 + 1) {
                                None => None,
                                Some(vp) => Some((u, Some(vp.0), vp.1)),
                            }
                        } else {
                            None
                        }
                    } else {
                        match sp_skip_prim(s, j1) {
                            None => None,
                            Some(e) => Some((u, t, e)),
                        }
                    };
                    match step {
                        None => None,
                        Some(st) => {
                            let j2 = sp_ws(s, st.2);
                            if 0 <= j2 < s.len() && s[j2] == 0x2c {
                                let j3 = sp_ws(s, j2 + 1);
                                if i < j3 && j3 <= s.len() {
                                    sp_inb_members(s, j3, st.0, st.1)
                                } else {
                                    None
                                }
                            } else if 0 <= j2 < s.len() && s[j2] == 0x7d {
                                match (st.0, st.1) {
                                    (Some(uu), Some(tt)) => Some((uu, tt, j2 + 1)),
                                    _ => None,
                                }
                            } else {
                                None
                            }
                        },
                    }
                }
            },
        }
    }
}

/// Like `sp_inb_members`, for the full wire shape: additionally requires a
/// `"ts"` member holding a strict integer, exactly once.
pub open spec fn sp_wire_members(
    s: Seq<u8>,
    i: int,
    u: Option<Seq<u8>>,
    t: Option<Seq<u8>>,
    n: Option<int>,
) -> Option<(Seq<u8>, Seq<u8>, int, int)>
    decreases s.len() - i,
{
    if !(0 <= i < s.len() && s[i] == 0x22) {
        None
    } else {
        match sp_string_body(s, i + 1) {
            None => None,
            Some(kp) => {
                let j0 = sp_ws(s, kp.1);
                if !(0 <= j0 < s.len() && s[j0] == 0x3a) {
                    None
                } else {
                    let j1 = sp_ws(s, j0 + 1);
                    let step: Option<(Option<Seq<u8>>, Option<Seq<u8>>, Option<int>, int)> = if kp.0
                        == user_key() {
                        if u is Some {
                            None
                        } else if 0 <= j1 < s.len() && s[j1] == 0x22 {
                            match sp_string_body(s, j1 + 1) {
                                None => None,
                                Some(vp) => Some((Some(vp.0), t, n, vp.1)),
                            }
                        } else {
                            None
                        }
                    } else if kp.0 == text_key() {
                        if t is Some {
                            None
                        } else if 0 <= j1 < s.len() && s[j1] == 0x22 {
                            match sp_string_body(s, j1 + 1) {
                                None => None,
                                Some(vp) => Some((u, Some(vp.0), n, vp.1)),
                            }
                        } else {
                            None
                        }
                    } else if kp.0 == ts_key() {
                        if n is Some {
                            None
                        } else {
                            match sp_int(s, j1) {
                                None => None,
                                Some(vp) => Some((u, t, Some(vp.0), vp.1)),
                            }
                        }
                    } else {
                        match sp_skip_prim(s, j1) {
                            None => None,
                            Some(e) => Some((u, t, n, e)),
                        }
                    };
                    match step {
                        None => None,
                        Some(st) => {
                            let j2 = sp_ws(s, st.3);
                            if 0 <= j2 < s.len() && s[j2] == 0x2c {
                                let j3 = sp_ws(s, j2 + 1);
                                if i < j3 && j3 <= s.len() {
                                    sp_wire_members(s, j3, st.0, st.1, st.2)
                                } else {
                                    None
                                }
                            } else if 0 <= j2 < s.len() && s[j2] == 0x7d {
                                match (st.0, st.1, st.2) {
                                    (Some(uu), Some(tt), Some(nn)) => Some((uu, tt, nn, j2 + 1)),
                                    _ => None,
                                }
                            } else {
                                None
                            }
                        },
                    }
                }
            },
        }
    }
}

/// What an inbound text frame denotes: `Some((user, text))` exactly when the
/// frame is one JSON object of the inbound shape, else `None`.
pub open spec fn parse_inbound_spec(s: Seq<u8>) -> Option<(Seq<u8>, Seq<u8>)> {
    let i0 = sp_ws(s, 0);
    if !(0 <= i0 < s.len() && s[i0] == 0x7b) {
        None
    } else {
        let i1 = sp_ws(s, i0 + 1);
        match sp_inb_members(s, i1, None, None) {
            None => None,
            Some(m) => if sp_ws(s, m.2) == s.len() {
                Some((m.0, m.1))
            } else {
                None
            },
        }
    }
}

/// What a full wire frame denotes, timestamp included (as an unbounded
/// integer; the executable parser additionally requires it to fit `i64`).
pub open spec fn parse_wire_spec(s: Seq<u8>) -> Option<MsgView> {
    let i0 = sp_ws(s, 0);
    if !(0 <= i0 < s.len() && s[i0] == 0x7b) {
        None
    } else {
        let i1 = sp_ws(s, i0 + 1);
        match sp_wire_members(s, i1, None, None, None) {
            None => None,
            Some(m) => if sp_ws(s, m.3) == s.len() {
                Some(MsgView { user: m.0, text: m.1, ts: m.2 })
            } else {
                None
            },
        }
    }
}

// ------------------------------------------------------------------ encoding

/// How one byte of a string member is written: `"` and `\` and the short
/// control escapes by their two-byte escape, other control bytes as
/// `\u00XX`, everything else verbatim.
pub open spec fn escape_byte(b: u8) -> Seq<u8> {
    if b == 0x22 {
        seq![0x5cu8, 0x22]
    } else if b == 0x5c {
        seq![0x5cu8, 0x5c]
    } else if b == 0x08 {
        seq![0x5cu8, 0x62]
    } else if b == 0x09 {
        seq![0x5cu8, 0x74]
    } else if b == 0x0a {
        seq![0x5cu8, 0x6e]
    } else if b == 0x0c {
        seq![0x5cu8, 0x66]
    } else if b == 0x0d {
        seq![0x5cu8, 0x72]
    } else if b < 0x20 {
        seq![0x5cu8, 0x75, 0x30, 0x30, hex_digit(b as int / 16), hex_digit(b as int % 16)]
    } else {
        seq![b]
    }
}

/// A whole string member, escaped.
pub open spec fn escape_bytes(s: Seq<u8>) -> Seq<u8>
    decreases s.len(),
{
    if s.len() == 0 {
        Seq::empty()
    } else {
        escape_byte(s[0]) + escape_bytes(s.skip(1))
    }
}

/// Decimal digits of `n >= 0`, most significant first.
pub open spec fn digits_of(n: int) -> Seq<u8>
    decreases n,
{
    if n < 10 {
        seq![(0x30 + n) as u8]
    } else {
        digits_of(n / 10) + seq![(0x30 + n % 10) as u8]
    }
}

/// Decimal writing of an integer, minus sign included.
pub open spec fn int_bytes(n: int) -> Seq<u8> {
    if n < 0 {
        seq![0x2du8] + digits_of(-n)
    } else {
        digits_of(n)
    }
}

/// The serialized wire frame of a record:
/// `{"user":"..","text":"..","ts":..}`.
pub open spec fn wire_bytes(v: MsgView) -> Seq<u8> {
    seq![0x7bu8, 0x22, 0x75, 0x73, 0x65, 0x72, 0x22, 0x3a, 0x22] + escape_bytes(v.user)
        + seq![0x22u8, 0x2c, 0x22, 0x74, 0x65, 0x78, 0x74, 0x22, 0x3a, 0x22] + escape_bytes(v.text)
        + seq![0x22u8, 0x2c, 0x22, 0x74, 0x73, 0x22, 0x3a] + int_bytes(v.ts) + seq![0x7du8]
}

// ---------------------------------------------------------- executable: text

/// The value of an optional byte vector.
pub open spec fn opt_val(o: Option<Vec<u8>>) -> Option<Seq<u8>> {
    match o {
        Option::None => None,
        Option::Some(v) => Some(v@),
    }
}

/// First index at or past `i` past any JSON whitespace.
fn ws_exec(s: &Vec<u8>, i: usize) -> (r: usize)
    requires
        i <= s@.len(),
    ensures
        r == sp_ws(s@, i as int),
        i <= r <= s@.len(),
    decreases s@.len() - i,
{
    if i < s.len() && (s[i] == 0x20 || s[i] == 0x09 || s[i] == 0x0a || s[i] == 0x0d) {
        ws_exec(s, i + 1)
    } else {
        i
    }
}

/// Whether a byte is a decimal digit.
fn is_digit_exec(b: u8) -> (r: bool)
    ensures
        r == is_digit(b),
{
    0x30 <= b && b <= 0x39
}

/// Whether a byte is a hexadecimal digit.
fn is_hex_exec(b: u8) -> (r: bool)
    ensures
        r == is_hex(b),
{
    (0x30 <= b && b <= 0x39) || (0x41 <= b && b <= 0x46) || (0x61 <= b && b <= 0x66)
}

/// Value of a hexadecimal digit.
fn hex_val_exec(b: u8) -> (r: u8)
    requires
        is_hex(b),
    ensures
        r == hex_val(b),
        r < 16,
{
    if 0x30 <= b && b <= 0x39 {
        b - 0x30
    } else if 0x41 <= b && b <= 0x46 {
        b - 0x41 + 10
    } else {
        b - 0x61 + 10
    }
}

/// Whether a byte is one of the simple escapes.
fn is_simple_escape_exec(e: u8) -> (r: bool)
    ensures
        r == is_simple_escape(e),
{
    e == 0x22 || e == 0x5c || e == 0x2f || e == 0x62 || e == 0x74 || e == 0x6e || e == 0x66
        || e == 0x72
}

/// The byte a simple escape denotes.
fn unescape_exec(e: u8) -> (r: u8)
    ensures
        r == unescape_byte(e),
{
    if e == 0x62 {
        0x08
    } else if e == 0x74 {
        0x09
    } else if e == 0x6e {
        0x0a
    } else if e == 0x66 {
        0x0c
    } else if e == 0x72 {
        0x0d
    } else {
        e
    }
}

/// Parses a JSON string body from just after the opening quote: the decoded
/// bytes and the index past the closing quote.
fn parse_string_body(s: &Vec<u8>, i: usize) -> (r: Option<(Vec<u8>, usize)>)
    requires
        i <= s@.len(),
    ensures
        match r {
            Option::Some(p) => sp_string_body(s@, i as int) == Some((p.0@, p.1 as int)) && i < p.1
                <= s@.len(),
            Option::None => sp_string_body(s@, i as int) is None,
        },
    decreases s@.len() - i,
{
    if i >= s.len() {
        return None;
    }
    let b = s[i];
    if b == 0x22 {
        let v: Vec<u8> = Vec::new();
        proof {
            assert(v@ =~= Seq::<u8>::empty());
        }
        return Some((v, i + 1));
    }
    if b == 0x5c {
        if s.len() - i >= 2 && is_simple_escape_exec(s[i + 1]) {
            match parse_string_body(s, i + 2) {
                Option::None => None,
                Option::Some(p) => {
                    let mut rest = p.0;
                    let j = p.1;
                    let ghost r0 = rest@;
                    rest.insert(0, unescape_exec(s[i + 1]));
                    proof {
                        assert(rest@ =~= seq![unescape_byte(s@[i + 1])] + r0);
                    }
                    Some((rest, j))
                },
            }
        } else if s.len() - i >= 6 && s[i + 1] == 0x75 && is_hex_exec(s[i + 2]) && is_hex_exec(
            s[i + 3],
        ) && is_hex_exec(s[i + 4]) && is_hex_exec(s[i + 5]) {
            let c: u32 = (hex_val_exec(s[i + 2]) as u32) * 4096 + (hex_val_exec(s[i + 3]) as u32)
                * 256 + (hex_val_exec(s[i + 4]) as u32) * 16 + (hex_val_exec(s[i + 5]) as u32);
            if 0xd800 <= c && c <= 0xdfff {
                None
            } else {
                match parse_string_body(s, i + 6) {
                    Option::None => None,
                    Option::Some(p) => {
                        let mut rest = p.0;
                        let j = p.1;
                        let ghost r0 = rest@;
                        if c < 0x80 {
                            rest.insert(0, c as u8);
                        } else if c < 0x800 {
                            rest.insert(0, (0x80 + c % 64) as u8);
                            rest.insert(0, (0xc0 + c / 64) as u8);
                        } else {
                            rest.insert(0, (0x80 + c % 64) as u8);
                            rest.insert(0, (0x80 + (c / 64) % 64) as u8);
                            rest.insert(0, (0xe0 + c / 4096) as u8);
                        }
                        proof {
                            assert(rest@ =~= utf8_enc(c as int) + r0);
                        }
                        Some((rest, j))
                    },
                }
            }
        } else {
            None
        }
    } else if b < 0x20 {
        None
    } else {
        match parse_string_body(s, i + 1) {
            Option::None => None,
            Option::Some(p) => {
                let mut rest = p.0;
                let j = p.1;
                let ghost r0 = rest@;
                rest.insert(0, b);
                proof {
                    assert(rest@ =~= seq![s@[i as int]] + r0);
                }
                Some((rest, j))
            },
        }
    }
}

// ------------------------------------------------------- executable: numbers

/// First index at or past `i` holding no digit; everything before it in
/// `[i, r)` is a digit.
fn digits_end_exec(s: &Vec<u8>, i: usize) -> (r: usize)
    requires
        i <= s@.len(),
    ensures
        r == sp_digits_end(s@, i as int),
        i <= r <= s@.len(),
        forall|k: int| i <= k < r ==> is_digit(#[trigger] s@[k]),
        (i < s@.len() && is_digit(s@[i as int])) ==> r > i,
    decreases s@.len() - i,
{
    if i < s.len() && is_digit_exec(s[i]) {
        digits_end_exec(s, i + 1)
    } else {
        i
    }
}

/// Digit strings denote non-negative values.
proof fn lemma_digits_val_nonneg(s: Seq<u8>, lo: int, hi: int)
    requires
        forall|k: int| lo <= k < hi ==> is_digit(#[trigger] s[k]),
    ensures
        digits_val(s, lo, hi) >= 0,
    decreases hi - lo,
{
    if lo < hi {
        lemma_digits_val_nonneg(s, lo, hi - 1);
    }
}

/// Reading more digits never shrinks the value.
proof fn lemma_digits_val_mono(s: Seq<u8>, lo: int, mid: int, hi: int)
    requires
        lo <= mid <= hi,
        forall|k: int| lo <= k < hi ==> is_digit(#[trigger] s[k]),
    ensures
        digits_val(s, lo, hi) >= digits_val(s, lo, mid),
    decreases hi - mid,
{
    if mid < hi {
        lemma_digits_val_mono(s, lo, mid, hi - 1);
        lemma_digits_val_nonneg(s, lo, hi - 1);
    }
}

/// End of a number's exponent part.
fn exp_end_exec(s: &Vec<u8>, i: usize) -> (r: Option<usize>)
    requires
        i <= s@.len(),
    ensures
        match r {
            Option::Some(j) => sp_exp_end(s@, i as int) == Some(j as int) && i <= j <= s@.len(),
            Option::None => sp_exp_end(s@, i as int) is None,
        },
{
    if i < s.len() && (s[i] == 0x65 || s[i] == 0x45) {
        let p: usize = if i + 1 < s.len() && (s[i + 1] == 0x2b || s[i + 1] == 0x2d) {
            i + 2
        } else {
            i + 1
        };
        if p < s.len() && is_digit_exec(s[p]) {
            Some(digits_end_exec(s, p))
        } else {
            None
        }
    } else {
        Some(i)
    }
}

/// End of a full JSON number starting at `i`.
fn number_end_exec(s: &Vec<u8>, i: usize) -> (r: Option<usize>)
    requires
        i <= s@.len(),
    ensures
        match r {
            Option::Some(j) => sp_number_end(s@, i as int) == Some(j as int) && i < j <= s@.len(),
            Option::None => sp_number_end(s@, i as int) is None,
        },
{
    let p1: usize = if i < s.len() && s[i] == 0x2d {
        i + 1
    } else {
        i
    };
    if !(p1 < s.len() && is_digit_exec(s[p1])) {
        return None;
    }
    let p2: usize = if s[p1] == 0x30 {
        p1 + 1
    } else {
        digits_end_exec(s, p1)
    };
    if p2 < s.len() && s[p2] == 0x2e {
        if p2 + 1 < s.len() && is_digit_exec(s[p2 + 1]) {
            exp_end_exec(s, digits_end_exec(s, p2 + 1))
        } else {
            None
        }
    } else {
        exp_end_exec(s, p2)
    }
}

/// Parses a strict JSON integer into an `i64`; `None` both for malformed
/// input and for a well-formed integer outside the `i64` range.
fn parse_int_exec(s: &Vec<u8>, i: usize) -> (r: Option<(i64, usize)>)
    requires
        i <= s@.len(),
    ensures
        match r {
            Option::Some(p) => sp_int(s@, i as int) == Some((p.0 as int, p.1 as int)) && i < p.1
                <= s@.len(),
            Option::None => sp_int(s@, i as int) is None || (sp_int(s@, i as int) is Some && !(
            i64::MIN <= sp_int(s@, i as int).unwrap().0 <= i64::MAX)),
        },
{
    let neg = i < s.len() && s[i] == 0x2d;
    let p1: usize = if neg {
        i + 1
    } else {
        i
    };
    if !(p1 < s.len() && is_digit_exec(s[p1])) {
        return None;
    }
    let p2: usize = if s[p1] == 0x30 {
        p1 + 1
    } else {
        digits_end_exec(s, p1)
    };
    proof {
        if s@[p1 as int] == 0x30 {
            assert(forall|k: int| p1 <= k < p2 ==> is_digit(#[trigger] s@[k]));
        }
    }
    if p2 < s.len() && (s[p2] == 0x2e || s[p2] == 0x65 || s[p2] == 0x45) {
        return None;
    }
    proof {
        let gv = digits_val(s@, p1 as int, p2 as int);
        assert(sp_int(s@, i as int) == Some(
            ((if neg {
                -gv
            } else {
                gv
            }), p2 as int),
        ));
    }
    let mut acc: u128 = 0;
    let mut idx: usize = p1;
    while idx < p2
        invariant
            i <= p1 < p2 <= s@.len(),
            p1 <= idx <= p2,
            forall|k: int| p1 <= k < p2 ==> is_digit(#[trigger] s@[k]),
            acc == digits_val(s@, p1 as int, idx as int),
            acc <= 0x8000000000000000u128,
            sp_int(s@, i as int) == Some(
                ((if neg {
                    -digits_val(s@, p1 as int, p2 as int)
                } else {
                    digits_val(s@, p1 as int, p2 as int)
                }), p2 as int),
            ),
        decreases p2 - idx,
    {
        acc = acc * 10 + ((s[idx] - 0x30) as u128);
        idx = idx + 1;
        if acc > 0x8000000000000000u128 {
            proof {
                lemma_digits_val_mono(s@, p1 as int, idx as int, p2 as int);
            }
            return None;
        }
    }
    let j = p2;
    if neg {
        let v: i64 = if acc == 0x8000000000000000u128 {
            i64::MIN
        } else {
            -(acc as i64)
        };
        Some((v, j))
    } else {
        if acc > 0x7fffffffffffffffu128 {
            return None;
        }
        Some((acc as i64, j))
    }
}

// -------------------------------------------------- executable: other values

/// End of a primitive JSON value at `i`.
fn skip_prim_exec(s: &Vec<u8>, i: usize) -> (r: Option<usize>)
    requires
        i <= s@.len(),
    ensures
        match r {
            Option::Some(j) => sp_skip_prim(s@, i as int) == Some(j as int) && i < j <= s@.len(),
            Option::None => sp_skip_prim(s@, i as int) is None,
        },
{
    if i >= s.len() {
        return None;
    }
    let b = s[i];
    if b == 0x22 {
        match parse_string_body(s, i + 1) {
            Option::None => None,
            Option::Some(p) => Some(p.1),
        }
    } else if b == 0x2d || is_digit_exec(b) {
        number_end_exec(s, i)
    } else if s.len() - i >= 4 && b == 0x74 && s[i + 1] == 0x72 && s[i + 2] == 0x75 && s[i + 3]
        == 0x65 {
        Some(i + 4)
    } else if s.len() - i >= 5 && b == 0x66 && s[i + 1] == 0x61 && s[i + 2] == 0x6c && s[i + 3]
        == 0x73 && s[i + 4] == 0x65 {
        Some(i + 5)
    } else if s.len() - i >= 4 && b == 0x6e && s[i + 1] == 0x75 && s[i + 2] == 0x6c && s[i + 3]
        == 0x6c {
        Some(i + 4)
    } else {
        None
    }
}

/// Whether `k` is the member name `"user"`.
fn is_user_key(k: &Vec<u8>) -> (r: bool)
    ensures
        r == (k@ == user_key()),
{
    if k.len() == 4 && k[0] == 0x75 && k[1] == 0x73 && k[2] == 0x65 && k[3] == 0x72 {
        proof {
            assert(k@ =~= user_key());
        }
        true
    } else {
        proof {
            assert(k@ != user_key()) by {
                if k@ == user_key() {
                    assert(k@.len() == 4);
                    assert(k@[0] == 0x75 && k@[1] == 0x73 && k@[2] == 0x65 && k@[3] == 0x72);
                }
            }
        }
        false
    }
}

/// Whether `k` is the member name `"text"`.
fn is_text_key(k: &Vec<u8>) -> (r: bool)
    ensures
        r == (k@ == text_key()),
{
    if k.len() == 4 && k[0] == 0x74 && k[1] == 0x65 && k[2] == 0x78 && k[3] == 0x74 {
        proof {
            assert(k@ =~= text_key());
        }
        true
    } else {
        proof {
            assert(k@ != text_key()) by {
                if k@ == text_key() {
                    assert(k@.len() == 4);
                    assert(k@[0] == 0x74 && k@[1] == 0x65 && k@[2] == 0x78 && k@[3] == 0x74);
                }
            }
        }
        false
    }
}

/// Whether `k` is the member name `"ts"`.
fn is_ts_key(k: &Vec<u8>) -> (r: bool)
    ensures
        r == (k@ == ts_key()),
{
    if k.len() == 2 && k[0] == 0x74 && k[1] == 0x73 {
        proof {
            assert(k@ =~= ts_key());
        }
        true
    } else {
        proof {
            assert(k@ != ts_key()) by {
                if k@ == ts_key() {
                    assert(k@.len() == 2);
                    assert(k@[0] == 0x74 && k@[1] == 0x73);
                }
            }
        }
        false
    }
}

/// The value of an optional timestamp.
pub open spec fn opt_int(o: Option<i64>) -> Option<int> {
    match o {
        Option::None => None,
        Option::Some(v) => Some(v as int),
    }
}

/// Whatever `"ts"` value the member scan is already carrying is the one the
/// whole object yields, when it yields anything: a duplicate member is
/// refused, so the carried value can never be replaced.
proof fn lemma_wire_members_ts(s: Seq<u8>, i: int, u: Option<Seq<u8>>, t: Option<Seq<u8>>, x: int)
    ensures
        sp_wire_members(s, i, u, t, Some(x)) matches Some(m) ==> m.2 == x,
    decreases s.len() - i,
{
    if 0 <= i < s.len() && s[i] == 0x22 {
        match sp_string_body(s, i + 1) {
            None => {},
            Some(kp) => {
                let j0 = sp_ws(s, kp.1);
                if 0 <= j0 < s.len() && s[j0] == 0x3a {
                    let j1 = sp_ws(s, j0 + 1);
                    let step: Option<(Option<Seq<u8>>, Option<Seq<u8>>, Option<int>, int)> = if kp.0
                        == user_key() {
                        if u is Some {
                            None
                        } else if 0 <= j1 < s.len() && s[j1] == 0x22 {
                            match sp_string_body(s, j1 + 1) {
                                None => None,
                                Some(vp) => Some((Some(vp.0), t, Some(x), vp.1)),
                            }
                        } else {
                            None
                        }
                    } else if kp.0 == text_key() {
                        if t is Some {
                            None
                        } else if 0 <= j1 < s.len() && s[j1] == 0x22 {
                            match sp_string_body(s, j1 + 1) {
                                None => None,
                                Some(vp) => Some((u, Some(vp.0), Some(x), vp.1)),
                            }
                        } else {
                            None
                        }
                    } else if kp.0 == ts_key() {
                        None
                    } else {
                        match sp_skip_prim(s, j1) {
                            None => None,
                            Some(e) => Some((u, t, Some(x), e)),
                        }
                    };
                    match step {
                        None => {},
                        Some(st) => {
                            let j2 = sp_ws(s, st.3);
                            if 0 <= j2 < s.len() && s[j2] == 0x2c {
                                let j3 = sp_ws(s, j2 + 1);
                                if i < j3 && j3 <= s.len() {
                                    lemma_wire_members_ts(s, j3, st.0, st.1, x);
                                }
                            }
                        },
                    }
                }
            },
        }
    }
}

/// Parses the members of an inbound object (see `sp_inb_members`).
fn inb_members(s: &Vec<u8>, i: usize, u: Option<Vec<u8>>, t: Option<Vec<u8>>) -> (r: Option<
    (Vec<u8>, Vec<u8>, usize),
>)
    requires
        i <= s@.len(),
    ensures
        match r {
            Option::Some(p) => sp_inb_members(s@, i as int, opt_val(u), opt_val(t)) == Some(
                (p.0@, p.1@, p.2 as int),
            ) && p.2 <= s@.len(),
            Option::None => sp_inb_members(s@, i as int, opt_val(u), opt_val(t)) is None,
        },
    decreases s@.len() - i,
{
    if !(i < s.len() && s[i] == 0x22) {
        return None;
    }
    let kp = match parse_string_body(s, i + 1) {
        Option::None => {
            return None;
        },
        Option::Some(kp) => kp,
    };
    let key = kp.0;
    let j0 = ws_exec(s, kp.1);
    if !(j0 < s.len() && s[j0] == 0x3a) {
        return None;
    }
    let j1 = ws_exec(s, j0 + 1);
    let step: (Option<Vec<u8>>, Option<Vec<u8>>, usize) = if is_user_key(&key) {
        if u.is_some() {
            return None;
        }
        if !(j1 < s.len() && s[j1] == 0x22) {
            return None;
        }
        match parse_string_body(s, j1 + 1) {
            Option::None => {
                return None;
            },
            Option::Some(vp) => (Some(vp.0), t, vp.1),
        }
    } else if is_text_key(&key) {
        if t.is_some() {
            return None;
        }
        if !(j1 < s.len() && s[j1] == 0x22) {
            return None;
        }
        match parse_string_body(s, j1 + 1) {
            Option::None => {
                return None;
            },
            Option::Some(vp) => (u, Some(vp.0), vp.1),
        }
    } else {
        match skip_prim_exec(s, j1) {
            Option::None => {
                return None;
            },
            Option::Some(e) => (u, t, e),
        }
    };
    let u2 = step.0;
    let t2 = step.1;
    let pos = step.2;
    let j2 = ws_exec(s, pos);
    if j2 < s.len() && s[j2] == 0x2c {
        let j3 = ws_exec(s, j2 + 1);
        inb_members(s, j3, u2, t2)
    } else if j2 < s.len() && s[j2] == 0x7d {
        match (u2, t2) {
            (Option::Some(uu), Option::Some(tt)) => Some((uu, tt, j2 + 1)),
            _ => None,
        }
    } else {
        None
    }
}

/// Parses the members of a full wire object (see `sp_wire_members`).
fn wire_members(
    s: &Vec<u8>,
    i: usize,
    u: Option<Vec<u8>>,
    t: Option<Vec<u8>>,
    n: Option<i64>,
) -> (r: Option<(Vec<u8>, Vec<u8>, i64, usize)>)
    requires
        i <= s@.len(),
    ensures
        match r {
            Option::Some(p) => sp_wire_members(s@, i as int, opt_val(u), opt_val(t), opt_int(n))
                == Some((p.0@, p.1@, p.2 as int, p.3 as int)) && p.3 <= s@.len(),
            Option::None => sp_wire_members(s@, i as int, opt_val(u), opt_val(t), opt_int(n))
                is None || (sp_wire_members(s@, i as int, opt_val(u), opt_val(t), opt_int(n))
                matches Some(m) && !(i64::MIN <= m.2 <= i64::MAX)),
        },
    decreases s@.len() - i,
{
    if !(i < s.len() && s[i] == 0x22) {
        return None;
    }
    let kp = match parse_string_body(s, i + 1) {
        Option::None => {
            return None;
        },
        Option::Some(kp) => kp,
    };
    let key = kp.0;
    let j0 = ws_exec(s, kp.1);
    if !(j0 < s.len() && s[j0] == 0x3a) {
        return None;
    }
    let j1 = ws_exec(s, j0 + 1);
    let step: (Option<Vec<u8>>, Option<Vec<u8>>, Option<i64>, usize) = if is_user_key(&key) {
        if u.is_some() {
            return None;
        }
        if !(j1 < s.len() && s[j1] == 0x22) {
            return None;
        }
        match parse_string_body(s, j1 + 1) {
            Option::None => {
                return None;
            },
            Option::Some(vp) => (Some(vp.0), t, n, vp.1),
        }
    } else if is_text_key(&key) {
        if t.is_some() {
            return None;
        }
        if !(j1 < s.len() && s[j1] == 0x22) {
            return None;
        }
        match parse_string_body(s, j1 + 1) {
            Option::None => {
                return None;
            },
            Option::Some(vp) => (u, Some(vp.0), n, vp.1),
        }
    } else if is_ts_key(&key) {
        if n.is_some() {
            return None;
        }
        match parse_int_exec(s, j1) {
            Option::None => {
                proof {
                    let sv = sp_int(s@, j1 as int);
                    if sv is Some {
                        let big = sv.unwrap().0;
                        let e = sv.unwrap().1;
                        let j2s = sp_ws(s@, e);
                        if 0 <= j2s < s@.len() && s@[j2s] == 0x2c {
                            let j3s = sp_ws(s@, j2s + 1);
                            if i < j3s && j3s <= s@.len() {
                                lemma_wire_members_ts(s@, j3s, opt_val(u), opt_val(t), big);
                            }
                        }
                    }
                }
                return None;
            },
            Option::Some(vp) => (u, t, Some(vp.0), vp.1),
        }
    } else {
        match skip_prim_exec(s, j1) {
            Option::None => {
                return None;
            },
            Option::Some(e) => (u, t, n, e),
        }
    };
    let u2 = step.0;
    let t2 = step.1;
    let n2 = step.2;
    let pos = step.3;
    let j2 = ws_exec(s, pos);
    if j2 < s.len() && s[j2] == 0x2c {
        let j3 = ws_exec(s, j2 + 1);
        wire_members(s, j3, u2, t2, n2)
    } else if j2 < s.len() && s[j2] == 0x7d {
        match (u2, t2, n2) {
            (Option::Some(uu), Option::Some(tt), Option::Some(nn)) => Some((uu, tt, nn, j2 + 1)),
            _ => None,
        }
    } else {
        None
    }
}

/// Parses an untrusted inbound text frame. `Some` exactly when the frame is
/// one JSON object holding string members `"user"` and `"text"` once each
/// (other members may hold primitive values); `None` for everything else —
/// the caller drops such a frame silently.
pub fn parse_inbound(s: &Vec<u8>) -> (r: Option<InboundMessage>)
    ensures
        match r {
            Option::Some(m) => parse_inbound_spec(s@) == Some((m.user@, m.text@)),
            Option::None => parse_inbound_spec(s@) is None,
        },
{
    let i0 = ws_exec(s, 0);
    if !(i0 < s.len() && s[i0] == 0x7b) {
        return None;
    }
    let i1 = ws_exec(s, i0 + 1);
    match inb_members(s, i1, None, None) {
        Option::None => None,
        Option::Some(m) => {
            let e = ws_exec(s, m.2);
            if e == s.len() {
                Some(InboundMessage { user: m.0, text: m.1 })
            } else {
                None
            }
        },
    }
}

/// Parses a full wire frame back into a record; `None` when the frame is
/// structurally invalid or its timestamp does not fit `i64`.
pub fn parse_wire(s: &Vec<u8>) -> (r: Option<ChatMessage>)
    ensures
        match r {
            Option::Some(m) => parse_wire_spec(s@) == Some(m@),
            Option::None => parse_wire_spec(s@) is None || (parse_wire_spec(s@) matches Some(v)
                && !(i64::MIN <= v.ts <= i64::MAX)),
        },
{
    let i0 = ws_exec(s, 0);
    if !(i0 < s.len() && s[i0] == 0x7b) {
        return None;
    }
    let i1 = ws_exec(s, i0 + 1);
    match wire_members(s, i1, None, None, None) {
        Option::None => None,
        Option::Some(m) => {
            let e = ws_exec(s, m.3);
            if e == s.len() {
                Some(ChatMessage { user: m.0, text: m.1, ts: m.2 })
            } else {
                None
            }
        },
    }
}

// ---------------------------------------------------- executable: encoding

/// Lower-case hexadecimal digit.
fn hex_digit_exec(n: u8) -> (r: u8)
    requires
        n < 16,
    ensures
        r == hex_digit(n as int),
{
    if n < 10 {
        0x30 + n
    } else {
        0x57 + n
    }
}

/// Writes the escaped form of one string byte.
fn push_escape_byte(out: &mut Vec<u8>, b: u8)
    ensures
        final(out)@ == old(out)@ + escape_byte(b),
{
    let ghost o0 = out@;
    if b == 0x22 {
        out.push(0x5c);
        out.push(0x22);
    } else if b == 0x5c {
        out.push(0x5c);
        out.push(0x5c);
    } else if b == 0x08 {
        out.push(0x5c);
        out.push(0x62);
    } else if b == 0x09 {
        out.push(0x5c);
        out.push(0x74);
    } else if b == 0x0a {
        out.push(0x5c);
        out.push(0x6e);
    } else if b == 0x0c {
        out.push(0x5c);
        out.push(0x66);
    } else if b == 0x0d {
        out.push(0x5c);
        out.push(0x72);
    } else if b < 0x20 {
        out.push(0x5c);
        out.push(0x75);
        out.push(0x30);
        out.push(0x30);
        out.push(hex_digit_exec(b / 16));
        out.push(hex_digit_exec(b % 16));
    } else {
        out.push(b);
    }
    proof {
        assert(out@ =~= o0 + escape_byte(b));
    }
}

/// Writes the escaped form of `s[i..]`.
fn push_escaped(out: &mut Vec<u8>, s: &Vec<u8>, i: usize)
    requires
        i <= s@.len(),
    ensures
        final(out)@ == old(out)@ + escape_bytes(s@.skip(i as int)),
    decreases s@.len() - i,
{
    if i == s.len() {
        proof {
            assert(s@.skip(i as int) =~= Seq::<u8>::empty());
            assert(out@ =~= out@ + escape_bytes(s@.skip(i as int)));
        }
        return ;
    }
    let ghost o0 = out@;
    push_escape_byte(out, s[i]);
    push_escaped(out, s, i + 1);
    proof {
        assert(s@.skip(i as int).skip(1) =~= s@.skip(i + 1));
        assert(s@.skip(i as int)[0] == s@[i as int]);
        assert(escape_bytes(s@.skip(i as int)) == escape_byte(s@[i as int]) + escape_bytes(
            s@.skip(i + 1),
        ));
        assert(out@ =~= o0 + escape_bytes(s@.skip(i as int)));
    }
}

/// Writes the decimal digits of `n`.
fn push_digits(out: &mut Vec<u8>, n: u64)
    ensures
        final(out)@ == old(out)@ + digits_of(n as int),
    decreases n,
{
    let ghost o0 = out@;
    if n < 10 {
        out.push(0x30 + (n as u8));
        proof {
            assert(out@ =~= o0 + digits_of(n as int));
        }
    } else {
        push_digits(out, n / 10);
        out.push(0x30 + ((n % 10) as u8));
        proof {
            assert(out@ =~= o0 + digits_of(n as int));
        }
    }
}

/// Serializes a record as its wire frame
/// `{"user":"..","text":"..","ts":..}`.
#[verifier::rlimit(100)]
pub fn encode_message(m: &ChatMessage) -> (r: Vec<u8>)
    ensures
        r@ == wire_bytes(m@),
{
    let mut out: Vec<u8> = Vec::new();
    out.push(0x7b);
    out.push(0x22);
    out.push(0x75);
    out.push(0x73);
    out.push(0x65);
    out.push(0x72);
    out.push(0x22);
    out.push(0x3a);
    out.push(0x22);
    let ghost after_open = out@;
    proof {
        assert(after_open =~= seq![0x7bu8, 0x22, 0x75, 0x73, 0x65, 0x72, 0x22, 0x3a, 0x22]);
    }
    push_escaped(&mut out, &m.user, 0);
    proof {
        assert(m.user@.skip(0) =~= m.user@);
    }
    out.push(0x22);
    out.push(0x2c);
    out.push(0x22);
    out.push(0x74);
    out.push(0x65);
    out.push(0x78);
    out.push(0x74);
    out.push(0x22);
    out.push(0x3a);
    out.push(0x22);
    push_escaped(&mut out, &m.text, 0);
    proof {
        assert(m.text@.skip(0) =~= m.text@);
    }
    out.push(0x22);
    out.push(0x2c);
    out.push(0x22);
    out.push(0x74);
    out.push(0x73);
    out.push(0x22);
    out.push(0x3a);
    if m.ts >= 0 {
        push_digits(&mut out, m.ts as u64);
    } else {
        out.push(0x2d);
        let mag: u64 = if m.ts == i64::MIN {
            0x8000000000000000u64
        } else {
            (-m.ts) as u64
        };
        proof {
            assert(mag as int == -(m.ts as int));
        }
        push_digits(&mut out, mag);
    }
    out.push(0x7d);
    proof {
        assert(out@ =~= wire_bytes(m@));
    }
    out
}

// ---------------------------------------------------------- round-trip laws

/// Writing a value below 16 as a hexadecimal digit reads back as itself.
proof fn lemma_hex_digit_val(x: int)
    requires
        0 <= x < 16,
    ensures
        is_hex(hex_digit(x)),
        hex_val(hex_digit(x)) == x,
{
}

/// An escaped string followed by a closing quote parses back to exactly the
/// original bytes, ending just past the quote.
proof fn lemma_escaped_parses(s: Seq<u8>, i: int, u: Seq<u8>)
    requires
        0 <= i,
        i + escape_bytes(u).len() < s.len(),
        s.subrange(i, i + escape_bytes(u).len()) == escape_bytes(u),
        s[i + escape_bytes(u).len()] == 0x22,
    ensures
        sp_string_body(s, i) == Some((u, i + escape_bytes(u).len() + 1)),
    decreases u.len(),
{
    let e = escape_bytes(u);
    if u.len() == 0 {
        assert(e.len() == 0);
        assert(s[i] == 0x22);
    } else {
        let b = u[0];
        let eb = escape_byte(b);
        let rest = escape_bytes(u.skip(1));
        assert(e == eb + rest);
        assert forall|k: int| 0 <= k < eb.len() implies s[i + k] == eb[k] by {
            assert(s.subrange(i, i + e.len())[k] == s[i + k]);
            assert(e[k] == eb[k]);
        }
        let i2 = i + eb.len();
        assert(s.subrange(i2, i2 + rest.len()) =~= rest) by {
            assert forall|k: int| 0 <= k < rest.len() implies s.subrange(
                i2,
                i2 + rest.len(),
            )[k] == rest[k] by {
                assert(s.subrange(i, i + e.len())[eb.len() + k] == s[i2 + k]);
                assert(e[eb.len() + k] == rest[k]);
            }
        }
        lemma_escaped_parses(s, i2, u.skip(1));
        assert(seq![b] + u.skip(1) =~= u);
        if b == 0x22 || b == 0x5c || b == 0x08 || b == 0x09 || b == 0x0a || b == 0x0c || b
            == 0x0d {
            assert(s[i] == 0x5c);
            assert(is_simple_escape(s[i + 1]));
            assert(unescape_byte(s[i + 1]) == b);
            assert(seq![unescape_byte(s[i + 1])] + u.skip(1) =~= u);
        } else if b < 0x20 {
            assert(s[i] == 0x5c && s[i + 1] == 0x75 && s[i + 2] == 0x30 && s[i + 3] == 0x30);
            assert(s[i + 4] == hex_digit(b as int / 16) && s[i + 5] == hex_digit(b as int % 16));
            lemma_hex_digit_val(b as int / 16);
            lemma_hex_digit_val(b as int % 16);
            assert(!is_simple_escape(0x75));
            let c = hex_val(s[i + 2]) * 4096 + hex_val(s[i + 3]) * 256 + hex_val(s[i + 4]) * 16
                + hex_val(s[i + 5]);
            assert(c == b as int);
            assert(utf8_enc(c) =~= seq![b]);
            assert(utf8_enc(c) + u.skip(1) =~= u);
        } else {
            assert(s[i] == b);
            assert(b != 0x22 && b != 0x5c && b >= 0x20);
            assert(seq![s[i]] + u.skip(1) =~= u);
        }
    }
}

/// Every byte of a decimal writing is a digit, and the first is `0` only
/// for the value zero.
proof fn lemma_digits_of_shape(n: int)
    requires
        n >= 0,
    ensures
        digits_of(n).len() >= 1,
        forall|k: int| 0 <= k < digits_of(n).len() ==> is_digit(#[trigger] digits_of(n)[k]),
        n >= 1 ==> digits_of(n)[0] != 0x30,
        n >= 10 ==> digits_of(n).len() >= 2,
    decreases n,
{
    if n >= 10 {
        lemma_digits_of_shape(n / 10);
    }
}

/// A digit run bounded on the right by a non-digit (or the end) is exactly
/// what the digit scan finds.
proof fn lemma_digits_end_at(s: Seq<u8>, lo: int, hi: int)
    requires
        0 <= lo <= hi <= s.len(),
        forall|k: int| lo <= k < hi ==> is_digit(#[trigger] s[k]),
        hi == s.len() || !is_digit(s[hi]),
    ensures
        sp_digits_end(s, lo) == hi,
    decreases hi - lo,
{
    if lo < hi {
        lemma_digits_end_at(s, lo + 1, hi);
    }
}

/// The decimal writing of `n` evaluates back to `n`.
proof fn lemma_digits_parse(s: Seq<u8>, lo: int, n: int)
    requires
        n >= 0,
        0 <= lo,
        lo + digits_of(n).len() <= s.len(),
        s.subrange(lo, lo + digits_of(n).len()) == digits_of(n),
    ensures
        digits_val(s, lo, lo + digits_of(n).len()) == n,
    decreases n,
{
    let d = digits_of(n);
    let hi = lo + d.len();
    assert forall|k: int| 0 <= k < d.len() implies s[lo + k] == d[k] by {
        assert(s.subrange(lo, hi)[k] == s[lo + k]);
    }
    if n < 10 {
        assert(d == seq![(0x30 + n) as u8]);
        assert(s[lo + 0] == d[0]);
        assert(s[hi - 1] == (0x30 + n) as u8);
        assert(digits_val(s, lo, hi) == digits_val(s, lo, lo) * 10 + (s[hi - 1] - 0x30));
        assert(digits_val(s, lo, lo) == 0);
    } else {
        let p = digits_of(n / 10);
        assert(d == p + seq![(0x30 + n % 10) as u8]);
        assert(s.subrange(lo, lo + p.len()) =~= p) by {
            assert forall|k: int| 0 <= k < p.len() implies s.subrange(lo, lo + p.len())[k] == p[k]
                by {
                assert(s.subrange(lo, lo + p.len())[k] == s[lo + k]);
                assert(d[k] == p[k]);
            }
        }
        lemma_digits_parse(s, lo, n / 10);
        assert(s[lo + (d.len() - 1)] == d[d.len() - 1]);
        assert(s[hi - 1] == d[d.len() - 1]);
        assert(d[d.len() - 1] == (0x30 + n % 10) as u8);
        assert(digits_val(s, lo, hi) == digits_val(s, lo, hi - 1) * 10 + (s[hi - 1] - 0x30));
    }
}

/// A decimal integer written by the encoder, followed by a closing brace,
/// parses back to exactly its value.
proof fn lemma_int_parses(s: Seq<u8>, i: int, n: int)
    requires
        0 <= i,
        i + int_bytes(n).len() < s.len(),
        s.subrange(i, i + int_bytes(n).len()) == int_bytes(n),
        s[i + int_bytes(n).len()] == 0x7d,
    ensures
        sp_int(s, i) == Some((n, i + int_bytes(n).len())),
{
    let e = int_bytes(n);
    assert forall|k: int| 0 <= k < e.len() implies s[i + k] == e[k] by {
        assert(s.subrange(i, i + e.len())[k] == s[i + k]);
    }
    let m = if n < 0 {
        -n
    } else {
        n
    };
    let d = digits_of(m);
    let p1 = if n < 0 {
        i + 1
    } else {
        i
    };
    lemma_digits_of_shape(m);
    if n < 0 {
        assert(e == seq![0x2du8] + d);
        assert(e[0] == 0x2d);
        assert(s[i + 0] == e[0]);
        assert(s[i] == 0x2d);
    } else {
        assert(e == d);
        assert(s[i + 0] == e[0]);
        assert(is_digit(d[0]));
        assert(s[i] != 0x2d);
    }
    assert(s.subrange(p1, p1 + d.len()) =~= d) by {
        assert forall|k: int| 0 <= k < d.len() implies s.subrange(p1, p1 + d.len())[k] == d[k] by {
            assert(s.subrange(p1, p1 + d.len())[k] == s[p1 + k]);
            assert(e[p1 - i + k] == d[k]);
        }
    }
    let p2 = p1 + d.len();
    assert forall|k: int| p1 <= k < p2 implies is_digit(#[trigger] s[k]) by {
        assert(s.subrange(p1, p2)[k - p1] == s[k]);
        assert(is_digit(digits_of(m)[k - p1]));
    }
    assert(s[p2] == 0x7d);
    assert(!is_digit(s[p2]));
    lemma_digits_end_at(s, p1, p2);
    lemma_digits_parse(s, p1, m);
    if m >= 1 {
        assert(s[p1] == d[0]);
        assert(s[p1] != 0x30);
    } else {
        assert(d == seq![0x30u8]);
        assert(s[p1] == 0x30);
        assert(p2 == p1 + 1);
    }
    assert(s[p2] != 0x2e && s[p2] != 0x65 && s[p2] != 0x45);
}

/// Escaping changes nothing in a string without quotes, backslashes or
/// control bytes.
proof fn lemma_escape_plain(u: Seq<u8>)
    requires
        forall|k: int|
            0 <= k < u.len() ==> 0x20 <= #[trigger] u[k] && u[k] != 0x22 && u[k] != 0x5c,
    ensures
        escape_bytes(u) == u,
    decreases u.len(),
{
    if u.len() > 0 {
        assert(u.skip(1).len() == u.len() - 1);
        assert(forall|k: int| 0 <= k < u.skip(1).len() ==> #[trigger] u.skip(1)[k] == u[k + 1]);
        lemma_escape_plain(u.skip(1));
        assert(escape_byte(u[0]) == seq![u[0]]);
        assert(seq![u[0]] + u.skip(1) =~= u);
    }
}

/// The `"ts"` member with an encoded integer, followed by the closing
/// brace, finishes the member scan with that timestamp.
#[verifier::rlimit(100)]
proof fn lemma_rt_ts_member(s: Seq<u8>, r: int, uu: Seq<u8>, tt: Seq<u8>, n: int)
    requires
        0 <= r,
        r + 8 + int_bytes(n).len() == s.len(),
        s[r + 2] == 0x22 && s[r + 3] == 0x74 && s[r + 4] == 0x73 && s[r + 5] == 0x22 && s[r + 6]
            == 0x3a,
        s.subrange(r + 7, r + 7 + int_bytes(n).len()) == int_bytes(n),
        s[r + 7 + int_bytes(n).len()] == 0x7d,
    ensures
        sp_wire_members(s, r + 2, Some(uu), Some(tt), None) == Some(
            (uu, tt, n, s.len() as int),
        ),
{
    let nd = int_bytes(n).len() as int;
    assert(escape_bytes(ts_key()) == ts_key()) by {
        lemma_escape_plain(ts_key());
    }
    assert(s.subrange(r + 3, r + 5) =~= ts_key());
    lemma_escaped_parses(s, r + 3, ts_key());
    lemma_int_parses(s, r + 7, n);
    assert(ts_key() != user_key() && ts_key() != text_key()) by {
        assert(user_key().len() == 4 && text_key().len() == 4 && ts_key().len() == 2);
    }
    assert(sp_string_body(s, r + 3) == Some((ts_key(), r + 6)));
    assert(sp_ws(s, r + 6) == r + 6);
    assert(sp_ws(s, r + 7) == r + 7);
    assert(sp_int(s, r + 7) == Some((n, r + 7 + nd)));
    assert(sp_ws(s, r + 7 + nd) == r + 7 + nd);
}

/// The `"text"` member hands the scan on, with the text filled in, at the
/// position just past its trailing comma.
#[verifier::rlimit(100)]
proof fn lemma_rt_text_member(s: Seq<u8>, q: int, uu: Seq<u8>, tt: Seq<u8>)
    requires
        0 <= q,
        q + 12 + escape_bytes(tt).len() < s.len(),
        s[q + 2] == 0x22 && s[q + 3] == 0x74 && s[q + 4] == 0x65 && s[q + 5] == 0x78 && s[q + 6]
            == 0x74 && s[q + 7] == 0x22 && s[q + 8] == 0x3a && s[q + 9] == 0x22,
        s.subrange(q + 10, q + 10 + escape_bytes(tt).len()) == escape_bytes(tt),
        s[q + 10 + escape_bytes(tt).len()] == 0x22,
        s[q + 11 + escape_bytes(tt).len()] == 0x2c,
        s[q + 12 + escape_bytes(tt).len()] == 0x22,
    ensures
        sp_wire_members(s, q + 2, Some(uu), None, None) == sp_wire_members(
            s,
            q + 12 + escape_bytes(tt).len(),
            Some(uu),
            Some(tt),
            None,
        ),
{
    let nt = escape_bytes(tt).len() as int;
    let r = q + 10 + nt;
    assert(escape_bytes(text_key()) == text_key()) by {
        lemma_escape_plain(text_key());
    }
    assert(s.subrange(q + 3, q + 7) =~= text_key());
    lemma_escaped_parses(s, q + 3, text_key());
    lemma_escaped_parses(s, q + 10, tt);
    assert(text_key() != user_key()) by {
        assert(text_key()[0] == 0x74 && user_key()[0] == 0x75);
    }
    assert(sp_string_body(s, q + 3) == Some((text_key(), q + 8)));
    assert(sp_ws(s, q + 8) == q + 8);
    assert(sp_ws(s, q + 9) == q + 9);
    assert(sp_string_body(s, q + 10) == Some((tt, r + 1)));
    assert(sp_ws(s, r + 1) == r + 1);
    assert(sp_ws(s, r + 2) == r + 2);
}

/// The `"user"` member, first in the frame, hands the scan on with the
/// user filled in.
#[verifier::rlimit(100)]
proof fn lemma_rt_user_member(s: Seq<u8>, uu: Seq<u8>)
    requires
        11 + (escape_bytes(uu).len() as int) < s.len(),
        s[1] == 0x22 && s[2] == 0x75 && s[3] == 0x73 && s[4] == 0x65 && s[5] == 0x72 && s[6]
            == 0x22 && s[7] == 0x3a && s[8] == 0x22,
        s.subrange(9, 9 + (escape_bytes(uu).len() as int)) == escape_bytes(uu),
        s[9 + (escape_bytes(uu).len() as int)] == 0x22,
        s[10 + (escape_bytes(uu).len() as int)] == 0x2c,
        s[11 + (escape_bytes(uu).len() as int)] == 0x22,
    ensures
        sp_wire_members(s, 1, None, None, None) == sp_wire_members(
            s,
            11 + (escape_bytes(uu).len() as int),
            Some(uu),
            None,
            None,
        ),
{
    let nu = escape_bytes(uu).len() as int;
    let p = 9 + nu;
    assert(escape_bytes(user_key()) == user_key()) by {
        lemma_escape_plain(user_key());
    }
    assert(s.subrange(2, 6) =~= user_key());
    lemma_escaped_parses(s, 2, user_key());
    lemma_escaped_parses(s, 9, uu);
    assert(sp_string_body(s, 2) == Some((user_key(), 7int)));
    assert(sp_ws(s, 7) == 7);
    assert(sp_ws(s, 8) == 8);
    assert(sp_string_body(s, 9) == Some((uu, p + 1)));
    assert(sp_ws(s, p + 1) == p + 1);
    assert(sp_ws(s, p + 2) == p + 2);
}

/// Round trip: the wire frame written for any record parses back to
/// exactly that record.
#[verifier::rlimit(100)]
pub proof fn lemma_wire_round_trip(v: MsgView)
    ensures
        parse_wire_spec(wire_bytes(v)) == Some(v),
{
    let s = wire_bytes(v);
    let eu = escape_bytes(v.user);
    let nu = eu.len() as int;
    let et = escape_bytes(v.text);
    let nt = et.len() as int;
    let db = int_bytes(v.ts);
    let nd = db.len() as int;
    let q = 9 + nu;
    let r = q + 10 + nt;
    let lit_open = seq![0x7bu8, 0x22, 0x75, 0x73, 0x65, 0x72, 0x22, 0x3a, 0x22];
    let lit_mid = seq![0x22u8, 0x2c, 0x22, 0x74, 0x65, 0x78, 0x74, 0x22, 0x3a, 0x22];
    let lit_ts = seq![0x22u8, 0x2c, 0x22, 0x74, 0x73, 0x22, 0x3a];
    let a2 = lit_open + eu;
    let a3 = a2 + lit_mid;
    let a4 = a3 + et;
    let a5 = a4 + lit_ts;
    let a6 = a5 + db;
    assert(s == a6 + seq![0x7du8]);
    assert(s.len() == r + 8 + nd);
    assert forall|k: int| 0 <= k < a6.len() implies s[k] == a6[k] by {}
    assert forall|k: int| 0 <= k < a5.len() implies a6[k] == a5[k] by {}
    assert forall|k: int| 0 <= k < a4.len() implies a5[k] == a4[k] by {}
    assert forall|k: int| 0 <= k < a3.len() implies a4[k] == a3[k] by {}
    assert forall|k: int| 0 <= k < a2.len() implies a3[k] == a2[k] by {}
    assert(s[0] == 0x7b && s[1] == 0x22);
    assert(s[2] == 0x75 && s[3] == 0x73 && s[4] == 0x65 && s[5] == 0x72);
    assert(s[6] == 0x22 && s[7] == 0x3a && s[8] == 0x22);
    assert forall|k: int| 0 <= k < nu implies s[9 + k] == eu[k] by {
        assert(a2[9 + k] == eu[k]);
    }
    assert forall|k: int| 0 <= k < 10 implies s[q + k] == lit_mid[k] by {
        assert(a3[a2.len() + k] == lit_mid[k]);
    }
    assert(s[q] == 0x22 && s[q + 1] == 0x2c && s[q + 2] == 0x22);
    assert(s[q + 3] == 0x74 && s[q + 4] == 0x65 && s[q + 5] == 0x78 && s[q + 6] == 0x74);
    assert(s[q + 7] == 0x22 && s[q + 8] == 0x3a && s[q + 9] == 0x22);
    assert forall|k: int| 0 <= k < nt implies s[q + 10 + k] == et[k] by {
        assert(a4[a3.len() + k] == et[k]);
    }
    assert forall|k: int| 0 <= k < 7 implies s[r + k] == lit_ts[k] by {
        assert(a5[a4.len() + k] == lit_ts[k]);
    }
    assert(s[r] == 0x22 && s[r + 1] == 0x2c && s[r + 2] == 0x22);
    assert(s[r + 3] == 0x74 && s[r + 4] == 0x73 && s[r + 5] == 0x22 && s[r + 6] == 0x3a);
    assert forall|k: int| 0 <= k < nd implies s[r + 7 + k] == db[k] by {
        assert(a6[a5.len() + k] == db[k]);
    }
    assert(s[r + 7 + nd] == 0x7d);
    assert(s.subrange(9, 9 + nu) =~= eu);
    assert(s.subrange(q + 10, q + 10 + nt) =~= et);
    assert(s.subrange(r + 7, r + 7 + nd) =~= db);
    lemma_rt_user_member(s, v.user);
    lemma_rt_text_member(s, q, v.user, v.text);
    lemma_rt_ts_member(s, r, v.user, v.text, v.ts);
    assert(sp_wire_members(s, 1, None, None, None) == Some(
        (v.user, v.text, v.ts, s.len() as int),
    ));
    assert(sp_ws(s, 0) == 0);
    assert(sp_ws(s, 1) == 1);
    assert(sp_ws(s, r + 8 + nd) == r + 8 + nd);
    assert(parse_wire_spec(s) == Some(MsgView { user: v.user, text: v.text, ts: v.ts }));
    assert(MsgView { user: v.user, text: v.text, ts: v.ts } == v);
}

} // verus!
