//! Clipboard payloads: standard base64 (RFC 4648 alphabet, `=` padding)
//! and the OSC-52 "set clipboard" escape sequence the terminal fallback
//! writes, plus the status line a copy leaves behind.

use vstd::prelude::*;
use vstd::utf8::*;

use crate::text::{decimal, owned, push_str, string_push, usize_to_string};

verus! {

/// Which transport carried a copy.
#[derive(Debug, Clone, Copy, PartialEq, Eq, Structural)]
pub enum CopyMethod {
    /// The system clipboard.
    System,
    /// An OSC-52 escape sequence written to the terminal.
    Osc52,
}

/// The base64 digit for a value below 64.
pub open spec fn b64_digit(v: nat) -> char {
    if v < 26 {
        ((65 + v) as u32) as char
    } else if v < 52 {
        ((97 + v - 26) as u32) as char
    } else if v < 62 {
        ((48 + v - 52) as u32) as char
    } else if v == 62 {
        '+'
    } else {
        '/'
    }
}

/// The four digits of a full three-byte group.
pub open spec fn b64_group(a: u8, b: u8, c: u8) -> Seq<char> {
    seq![
        b64_digit((a / 4) as nat),
        b64_digit(((a % 4) * 16 + b / 16) as nat),
        b64_digit(((b % 16) * 4 + c / 64) as nat),
        b64_digit((c % 64) as nat),
    ]
}

/// Standard base64 of `bs`: full groups of three bytes, then one or two
/// leftover bytes padded with `=`.
pub open spec fn base64(bs: Seq<u8>) -> Seq<char>
    decreases bs.len(),
{
    if bs.len() == 0 {
        Seq::empty()
    } else if bs.len() == 1 {
        seq![b64_digit((bs[0] / 4) as nat), b64_digit(((bs[0] % 4) * 16) as nat), '=', '=']
    } else if bs.len() == 2 {
        seq![
            b64_digit((bs[0] / 4) as nat),
            b64_digit(((bs[0] % 4) * 16 + bs[1] / 16) as nat),
            b64_digit(((bs[1] % 16) * 4) as nat),
            '=',
        ]
    } else {
        b64_group(bs[0], bs[1], bs[2]) + base64(bs.skip(3))
    }
}

/// The characters base64 output is made of.
pub open spec fn is_b64_char(c: char) -> bool {
    ('A' <= c && c <= 'Z') || ('a' <= c && c <= 'z') || ('0' <= c && c <= '9') || c == '+' || c
        == '/' || c == '='
}

fn digit(v: u32) -> (c: char)
    requires
        v < 64,
    ensures
        c == b64_digit(v as nat),
{
    if v < 26 {
        ((65 + v) as u8) as char
    } else if v < 52 {
        ((97 + v - 26) as u8) as char
    } else if v < 62 {
        ((48 + v - 52) as u8) as char
    } else if v == 62 {
        '+'
    } else {
        '/'
    }
}

/// Base64 of `input` (standard alphabet, `=` padding).
pub fn base64_encode(input: &[u8]) -> (r: String)
    ensures
        r@ == base64(input@),
{
    let mut out = String::new();
    let mut i: usize = 0;
    assert(input@.skip(0) =~= input@);
    assert(out@ + base64(input@) =~= base64(input@));
    while input.len() - i >= 3
        invariant
            i <= input@.len(),
            out@ + base64(input@.skip(i as int)) == base64(input@),
        decreases input.len() - i,
    {
        let b0 = input[i] as u32;
        let b1 = input[i + 1] as u32;
        let b2 = input[i + 2] as u32;
        let triple: u32 = (b0 << 16) | (b1 << 8) | b2;
        let d0 = (triple >> 18) & 0x3f;
        let d1 = (triple >> 12) & 0x3f;
        let d2 = (triple >> 6) & 0x3f;
        let d3 = triple & 0x3f;
        proof {
            assert(d0 == b0 / 4 && d1 == (b0 % 4) * 16 + b1 / 16 && d2 == (b1 % 16) * 4 + b2 / 64
                && d3 == b2 % 64) by (bit_vector)
                requires
                    b0 < 256 && b1 < 256 && b2 < 256,
                    triple == (b0 << 16) | (b1 << 8) | b2,
                    d0 == (triple >> 18) & 0x3f,
                    d1 == (triple >> 12) & 0x3f,
                    d2 == (triple >> 6) & 0x3f,
                    d3 == triple & 0x3f,
            ;
        }
        let ghost before = out@;
        string_push(&mut out, digit(d0));
        string_push(&mut out, digit(d1));
        string_push(&mut out, digit(d2));
        string_push(&mut out, digit(d3));
        proof {
            let rest = input@.skip(i as int);
            assert(rest[0] == input@[i as int] && rest[1] == input@[i + 1] && rest[2]
                == input@[i + 2]);
            assert(rest.skip(3) =~= input@.skip(i + 3));
            assert(base64(rest) == b64_group(rest[0], rest[1], rest[2]) + base64(rest.skip(3)));
            assert(out@ =~= before + b64_group(rest[0], rest[1], rest[2]));
            assert(out@ + base64(input@.skip(i + 3)) =~= before + base64(rest));
        }
        i += 3;
    }
    let rem = input.len() - i;
    let ghost before = out@;
    let ghost rest = input@.skip(i as int);
    if rem == 1 {
        let b0 = input[i] as u32;
        let d0 = b0 >> 2;
        let d1 = (b0 & 3) << 4;
        assert(d0 == b0 / 4 && d1 == (b0 % 4) * 16) by (bit_vector)
            requires
                b0 < 256,
                d0 == b0 >> 2,
                d1 == (b0 & 3) << 4,
        ;
        string_push(&mut out, digit(d0));
        string_push(&mut out, digit(d1));
        string_push(&mut out, '=');
        string_push(&mut out, '=');
        assert(rest[0] == input@[i as int]);
        assert(out@ =~= before + base64(rest));
    } else if rem == 2 {
        let b0 = input[i] as u32;
        let b1 = input[i + 1] as u32;
        let d0 = b0 >> 2;
        let d1 = ((b0 & 3) << 4) | (b1 >> 4);
        let d2 = (b1 & 15) << 2;
        assert(d0 == b0 / 4 && d1 == (b0 % 4) * 16 + b1 / 16 && d2 == (b1 % 16) * 4)
            by (bit_vector)
            requires
                b0 < 256 && b1 < 256,
                d0 == b0 >> 2,
                d1 == ((b0 & 3) << 4) | (b1 >> 4),
                d2 == (b1 & 15) << 2,
        ;
        string_push(&mut out, digit(d0));
        string_push(&mut out, digit(d1));
        string_push(&mut out, digit(d2));
        string_push(&mut out, '=');
        assert(rest[0] == input@[i as int] && rest[1] == input@[i + 1]);
        assert(out@ =~= before + base64(rest));
    } else {
        assert(rest.len() == 0);
        assert(out@ =~= before + base64(rest));
    }
    out
}

/// Base64 output is four characters for every started group of three
/// bytes.
pub proof fn law_base64_length(bs: Seq<u8>)
    ensures
        base64(bs).len() == 4 * ((bs.len() + 2) / 3),
    decreases bs.len(),
{
    if bs.len() >= 3 {
        law_base64_length(bs.skip(3));
    }
}

proof fn lemma_digit_in_alphabet(v: nat)
    requires
        v < 64,
    ensures
        is_b64_char(b64_digit(v)),
{
}

/// Base64 output uses only the standard alphabet and `=`.
pub proof fn law_base64_alphabet(bs: Seq<u8>)
    ensures
        forall|i: int| 0 <= i < base64(bs).len() ==> is_b64_char(#[trigger] base64(bs)[i]),
    decreases bs.len(),
{
    if bs.len() == 0 {
    } else if bs.len() == 1 {
        lemma_digit_in_alphabet((bs[0] / 4) as nat);
        lemma_digit_in_alphabet(((bs[0] % 4) * 16) as nat);
    } else if bs.len() == 2 {
        lemma_digit_in_alphabet((bs[0] / 4) as nat);
        lemma_digit_in_alphabet(((bs[0] % 4) * 16 + bs[1] / 16) as nat);
        lemma_digit_in_alphabet(((bs[1] % 16) * 4) as nat);
    } else {
        law_base64_alphabet(bs.skip(3));
        let g = b64_group(bs[0], bs[1], bs[2]);
        lemma_digit_in_alphabet((bs[0] / 4) as nat);
        lemma_digit_in_alphabet(((bs[0] % 4) * 16 + bs[1] / 16) as nat);
        lemma_digit_in_alphabet(((bs[1] % 16) * 4 + bs[2] / 64) as nat);
        lemma_digit_in_alphabet((bs[2] % 64) as nat);
        let r = base64(bs);
        let t = base64(bs.skip(3));
        assert(r == g + t);
        assert forall|i: int| 0 <= i < r.len() implies is_b64_char(#[trigger] r[i]) by {
            if i >= 4 {
                assert(r[i] == t[i - 4]);
            }
        }
    }
}

/// Encoding whole groups of three bytes and then the rest is encoding
/// everything at once.
pub proof fn law_base64_concat(a: Seq<u8>, b: Seq<u8>)
    requires
        a.len() % 3 == 0,
    ensures
        base64(a + b) == base64(a) + base64(b),
    decreases a.len(),
{
    if a.len() == 0 {
        assert(a + b =~= b);
        assert(base64(a) + base64(b) =~= base64(b));
    } else {
        assert((a + b).skip(3) =~= a.skip(3) + b);
        assert((a + b)[0] == a[0] && (a + b)[1] == a[1] && (a + b)[2] == a[2]);
        law_base64_concat(a.skip(3), b);
        assert(b64_group(a[0], a[1], a[2]) + (base64(a.skip(3)) + base64(b)) =~= (b64_group(
            a[0],
            a[1],
            a[2],
        ) + base64(a.skip(3))) + base64(b));
    }
}

/// The value of a base64 digit (0 for anything else).
pub open spec fn b64_value(c: char) -> nat {
    let u = c as u32;
    if 65 <= u && u <= 90 {
        (u - 65) as nat
    } else if 97 <= u && u <= 122 {
        (u - 97 + 26) as nat
    } else if 48 <= u && u <= 57 {
        (u - 48 + 52) as nat
    } else if c == '+' {
        62
    } else if c == '/' {
        63
    } else {
        0
    }
}

/// The bytes of a standard base64 text: four digits give three bytes,
/// and a last group ending in `=` or `==` gives two or one.
pub open spec fn base64_decode(s: Seq<char>) -> Seq<u8>
    decreases s.len(),
{
    if s.len() < 4 {
        Seq::empty()
    } else {
        let v0 = b64_value(s[0]);
        let v1 = b64_value(s[1]);
        let v2 = b64_value(s[2]);
        let v3 = b64_value(s[3]);
        let x = (v0 * 4 + v1 / 16) as u8;
        let y = ((v1 % 16) * 16 + v2 / 4) as u8;
        let z = ((v2 % 4) * 64 + v3) as u8;
        if s[2] == '=' {
            seq![x]
        } else if s[3] == '=' {
            seq![x, y]
        } else {
            seq![x, y, z] + base64_decode(s.skip(4))
        }
    }
}

proof fn lemma_digit_value(v: nat)
    requires
        v < 64,
    ensures
        b64_value(b64_digit(v)) == v,
        b64_digit(v) != '=',
{
}

proof fn lemma_group_bytes(a: u8, b: u8, c: u8)
    ensures
        ((a / 4) as nat * 4 + ((a % 4) * 16 + b / 16) as nat / 16) as u8 == a,
        ((((a % 4) * 16 + b / 16) as nat % 16) * 16 + ((b % 16) * 4 + c / 64) as nat / 4) as u8 == b,
        ((((b % 16) * 4 + c / 64) as nat % 4) * 64 + (c % 64) as nat) as u8 == c,
        ((((a % 4) * 16 + b / 16) as nat % 16) * 16 + ((b % 16) * 4) as nat / 4) as u8 == b,
        ((a / 4) as nat * 4 + ((a % 4) * 16) as nat / 16) as u8 == a,
{
    assert(((a / 4) * 4 + ((a % 4) * 16 + b / 16) / 16) == a) by (bit_vector);
    assert((((a % 4) * 16 + b / 16) % 16) * 16 + ((b % 16) * 4 + c / 64) / 4 == b) by (bit_vector);
    assert((((b % 16) * 4 + c / 64) % 4) * 64 + (c % 64) == c) by (bit_vector);
    assert((((a % 4) * 16 + b / 16) % 16) * 16 + ((b % 16) * 4) / 4 == b) by (bit_vector);
    assert((a / 4) * 4 + ((a % 4) * 16) / 16 == a) by (bit_vector);
}

/// Decoding base64 output gives the bytes back, and `=` stands only
/// among its last two characters (as padding).
pub proof fn law_base64_round_trip(bs: Seq<u8>)
    ensures
        base64_decode(base64(bs)) == bs,
        forall|i: int| 0 <= i < base64(bs).len() && #[trigger] base64(bs)[i] == '=' ==> i >= base64(bs).len() - 2,
    decreases bs.len(),
{
    let s = base64(bs);
    if bs.len() == 0 {
    } else if bs.len() == 1 {
        let a = bs[0];
        lemma_digit_value((a / 4) as nat);
        lemma_digit_value(((a % 4) * 16) as nat);
        lemma_group_bytes(a, 0, 0);
        assert(base64_decode(s) =~= bs);
    } else if bs.len() == 2 {
        let a = bs[0];
        let b = bs[1];
        lemma_digit_value((a / 4) as nat);
        lemma_digit_value(((a % 4) * 16 + b / 16) as nat);
        lemma_digit_value(((b % 16) * 4) as nat);
        lemma_group_bytes(a, b, 0);
        assert(base64_decode(s) =~= bs);
    } else {
        let a = bs[0];
        let b = bs[1];
        let c = bs[2];
        law_base64_round_trip(bs.skip(3));
        let g = b64_group(a, b, c);
        let t = base64(bs.skip(3));
        assert(s == g + t);
        lemma_digit_value((a / 4) as nat);
        lemma_digit_value(((a % 4) * 16 + b / 16) as nat);
        lemma_digit_value(((b % 16) * 4 + c / 64) as nat);
        lemma_digit_value((c % 64) as nat);
        lemma_group_bytes(a, b, c);
        assert(s[0] == g[0] && s[1] == g[1] && s[2] == g[2] && s[3] == g[3]);
        assert(s.skip(4) =~= t);
        assert(base64_decode(s) == seq![a, b, c] + base64_decode(t));
        assert(seq![a, b, c] + bs.skip(3) =~= bs);
        assert forall|i: int| 0 <= i < s.len() && #[trigger] s[i] == '=' implies i >= s.len() - 2 by {
            if i >= 4 {
                assert(s[i] == t[i - 4]);
            }
        }
    }
}

/// `ESC ] 52 ; c ; <base64 of the UTF-8 bytes of text> BEL`.
pub open spec fn osc52(text: Seq<char>) -> Seq<char> {
    "\x1b]52;c;"@ + base64(encode_utf8(text)) + "\x07"@
}

/// The OSC-52 sequence that sets the clipboard to `text`.
pub fn osc52_sequence(text: &str) -> (r: String)
    ensures
        r@ == osc52(text@),
{
    let mut s = owned("\x1b]52;c;");
    let enc = base64_encode(text.as_bytes());
    push_str(&mut s, enc.as_str());
    push_str(&mut s, "\x07");
    s
}

/// The status line after copying `n` bytes: the transport used, or a
/// failure notice.
pub open spec fn yank_flash(n: nat, outcome: Option<CopyMethod>) -> Seq<char> {
    match outcome {
        Some(CopyMethod::System) => "yanked "@ + decimal(n) + " chars (system)"@,
        Some(CopyMethod::Osc52) => "yanked "@ + decimal(n) + " chars (osc52)"@,
        None => "yank failed (see logs)"@,
    }
}

pub fn yank_flash_text(n: usize, outcome: Option<CopyMethod>) -> (r: String)
    ensures
        r@ == yank_flash(n as nat, outcome),
{
    match outcome {
        Some(m) => {
            let mut s = owned("yanked ");
            let d = usize_to_string(n);
            push_str(&mut s, d.as_str());
            match m {
                CopyMethod::System => push_str(&mut s, " chars (system)"),
                CopyMethod::Osc52 => push_str(&mut s, " chars (osc52)"),
            }
            s
        },
        None => owned("yank failed (see logs)"),
    }
}

} // verus!
