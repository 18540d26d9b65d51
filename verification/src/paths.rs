//! Output path construction: one directory segment per byte of the
//! codepoint's padded uppercase hexadecimal form, and a file named after
//! its last byte.

use vstd::prelude::*;
use vstd::string::StringExecFns;
use vstd::arithmetic::div_mod::lemma_div_denominator;

verus! {

/// The uppercase hexadecimal digit for a value below sixteen.
pub open spec fn hex_char(d: int) -> char {
    if d == 0 {
        '0'
    } else if d == 1 {
        '1'
    } else if d == 2 {
        '2'
    } else if d == 3 {
        '3'
    } else if d == 4 {
        '4'
    } else if d == 5 {
        '5'
    } else if d == 6 {
        '6'
    } else if d == 7 {
        '7'
    } else if d == 8 {
        '8'
    } else if d == 9 {
        '9'
    } else if d == 10 {
        'A'
    } else if d == 11 {
        'B'
    } else if d == 12 {
        'C'
    } else if d == 13 {
        'D'
    } else if d == 14 {
        'E'
    } else {
        'F'
    }
}

/// `v` written as exactly `n` uppercase hexadecimal digits, most
/// significant digit first (zero padded on the left).
pub open spec fn hex_digits(v: int, n: nat) -> Seq<char>
    decreases n,
{
    if n == 0 {
        Seq::empty()
    } else {
        hex_digits(v / 16, (n - 1) as nat).push(hex_char(v % 16))
    }
}

/// How many hexadecimal digits a codepoint's path uses: at least four,
/// enough for the value, and always even.
pub open spec fn hex_width(cp: int) -> int {
    if cp < 0x10000 {
        4
    } else if cp < 0x1000000 {
        6
    } else {
        8
    }
}

/// Digits taken two at a time, each pair prefixed with a separator:
/// one path segment per byte.
pub open spec fn grouped(ds: Seq<char>) -> Seq<char>
    decreases ds.len(),
{
    if ds.len() < 2 {
        Seq::empty()
    } else {
        grouped(ds.take(ds.len() - 2)) + seq!['/', ds[ds.len() - 2], ds[ds.len() - 1]]
    }
}

/// The directory for a codepoint: the fixed root, a segment for every
/// digit pair except the last, and a trailing separator.
pub open spec fn dir_spec(cp: u32) -> Seq<char> {
    let h = hex_digits(cp as int, hex_width(cp as int) as nat);
    "/tmp/fonts"@ + grouped(h.take(hex_width(cp as int) - 2)) + seq!['/']
}

/// The file name for a codepoint: its last digit pair plus the image
/// suffix.
pub open spec fn file_spec(cp: u32) -> Seq<char> {
    let w = hex_width(cp as int);
    let h = hex_digits(cp as int, w as nat);
    seq![h[w - 2], h[w - 1]] + ".png"@
}

proof fn lemma_hex_digits_len(v: int, n: nat)
    ensures
        hex_digits(v, n).len() == n,
    decreases n,
{
    if n > 0 {
        lemma_hex_digits_len(v / 16, (n - 1) as nat);
    }
}

/// Dropping the last two digits of an `n` digit rendering leaves the
/// `n - 2` digit rendering of the value shifted right by one byte.
proof fn lemma_hex_digits_take(v: int, n: nat)
    requires
        n >= 2,
        v >= 0,
    ensures
        hex_digits(v, n).take(n - 2) == hex_digits(v / 256, (n - 2) as nat),
        hex_digits(v, n)[n - 1] == hex_char(v % 16),
        hex_digits(v, n)[n - 2] == hex_char((v / 16) % 16),
{
    let a = hex_digits(v / 16 / 16, (n - 2) as nat);
    lemma_hex_digits_len(v / 16 / 16, (n - 2) as nat);
    lemma_hex_digits_len(v / 16, (n - 1) as nat);
    lemma_div_denominator(v, 16, 16);
    assert(hex_digits(v, n).take(n - 2) =~= a);
}

fn hex_char_str(d: u8) -> (r: &'static str)
    requires
        d < 16,
    ensures
        r@ == seq![hex_char(d as int)],
{
    proof {
        reveal_strlit("0");
        reveal_strlit("1");
        reveal_strlit("2");
        reveal_strlit("3");
        reveal_strlit("4");
        reveal_strlit("5");
        reveal_strlit("6");
        reveal_strlit("7");
        reveal_strlit("8");
        reveal_strlit("9");
        reveal_strlit("A");
        reveal_strlit("B");
        reveal_strlit("C");
        reveal_strlit("D");
        reveal_strlit("E");
        reveal_strlit("F");
    }
    let r: &'static str = if d == 0 {
        "0"
    } else if d == 1 {
        "1"
    } else if d == 2 {
        "2"
    } else if d == 3 {
        "3"
    } else if d == 4 {
        "4"
    } else if d == 5 {
        "5"
    } else if d == 6 {
        "6"
    } else if d == 7 {
        "7"
    } else if d == 8 {
        "8"
    } else if d == 9 {
        "9"
    } else if d == 10 {
        "A"
    } else if d == 11 {
        "B"
    } else if d == 12 {
        "C"
    } else if d == 13 {
        "D"
    } else if d == 14 {
        "E"
    } else {
        "F"
    };
    proof {
        assert(r@ =~= seq![hex_char(d as int)]);
    }
    r
}

/// The path segments for the first `pairs` digit pairs of `v` written
/// as `2 * pairs` hexadecimal digits.
fn grouped_hex(v: u32, pairs: usize) -> (s: String)
    ensures
        s@ == grouped(hex_digits(v as int, 2 * pairs as nat)),
    decreases pairs,
{
    if pairs == 0 {
        String::new()
    } else {
        let mut s = grouped_hex(v / 256, pairs - 1);
        s.append("/");
        s.append(hex_char_str(((v / 16) % 16) as u8));
        s.append(hex_char_str((v % 16) as u8));
        proof {
            reveal_strlit("/");
            let n = (2 * pairs) as nat;
            let h = hex_digits(v as int, n);
            lemma_hex_digits_len(v as int, n);
            lemma_hex_digits_take(v as int, n);
            assert(s@ =~= grouped(h));
        }
        s
    }
}

/// Build the output location for a codepoint: a directory path with one
/// segment per byte of the codepoint's uppercase hexadecimal form
/// (padded to at least four digits and to even length) except the last,
/// and a file named after the last byte with the image suffix. The
/// directory keeps its trailing separator, so that the two parts
/// concatenate to the full path.
pub fn make_output_path(codepoint: u32) -> (r: (String, String))
    ensures
        r.0@ == dir_spec(codepoint),
        r.1@ == file_spec(codepoint),
{
    let pairs: usize = if codepoint < 0x10000 {
        2
    } else if codepoint < 0x1000000 {
        3
    } else {
        4
    };
    let mut dir = "/tmp/fonts".to_owned();
    let seg = grouped_hex(codepoint / 256, pairs - 1);
    dir.append(seg.as_str());
    dir.append("/");
    let mut file = hex_char_str(((codepoint / 16) % 16) as u8).to_owned();
    file.append(hex_char_str((codepoint % 16) as u8));
    file.append(".png");
    proof {
        reveal_strlit("/");
        let w = hex_width(codepoint as int);
        let h = hex_digits(codepoint as int, w as nat);
        lemma_hex_digits_len(codepoint as int, w as nat);
        lemma_hex_digits_take(codepoint as int, w as nat);
        assert(2 * ((pairs - 1) as nat) == (w - 2) as nat);
        assert(dir@ =~= dir_spec(codepoint));
        assert(file@ =~= file_spec(codepoint));
    }
    (dir, file)
}

} // verus!
