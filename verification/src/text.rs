//! Numbers as text, and where text goes.
use vstd::prelude::*;
use vstd::string::*;

verus! {

/// The decimal digit of a value below ten.
pub open spec fn digit_char(d: nat) -> char {
    ((48 + d) as u8) as char
}

/// A number written in decimal, with no leading zero.
pub open spec fn decimal_text(n: nat) -> Seq<char>
    decreases n,
{
    if n < 10 {
        seq![digit_char(n)]
    } else {
        decimal_text(n / 10).push(digit_char(n % 10))
    }
}

/// The text of one decimal digit.
fn digit(d: u64) -> (r: &'static str)
    requires
        d < 10,
    ensures
        r@ == seq![digit_char(d as nat)],
{
    proof {
        reveal_strlit("0");
        reveal_strlit("1");
        reveal_strlit("2");
        reveal_strlit("3");
        reveal_strlit("4");
        reveal_strlit("5");
        reveal_strlit("6");
        reveal_strlit("7");
        reveal_strlit("8");
        reveal_strlit("9");
    }
    let r = match d {
        0 => "0",
        1 => "1",
        2 => "2",
        3 => "3",
        4 => "4",
        5 => "5",
        6 => "6",
        7 => "7",
        8 => "8",
        _ => "9",
    };
    assert(r@ =~= seq![digit_char(d as nat)]);
    r
}

/// Writes a number in decimal.
pub fn decimal(n: u64) -> (r: String)
    ensures
        r@ == decimal_text(n as nat),
    decreases n,
{
    if n < 10 {
        digit(n).to_owned()
    } else {
        let mut s = decimal(n / 10);
        let ghost before = s@;
        s.append(digit(n % 10));
        assert(s@ =~= before.push(digit_char((n % 10) as nat)));
        s
    }
}

/// A signed number in decimal.
pub open spec fn signed_text(n: int) -> Seq<char> {
    if n < 0 {
        "-"@ + decimal_text((-n) as nat)
    } else {
        decimal_text(n as nat)
    }
}

/// Writes a signed number in decimal.
pub fn signed(n: i64) -> (r: String)
    ensures
        r@ == signed_text(n as int),
{
    if n < 0 {
        let mut s = "-".to_owned();
        let below: u64 = if n == i64::MIN {
            0x8000_0000_0000_0000
        } else {
            (-n) as u64
        };
        s.append(decimal(below).as_str());
        s
    } else {
        decimal(n as u64)
    }
}

/// The lower case hexadecimal digit of a value below sixteen.
pub open spec fn hex_char(d: nat) -> char {
    if d < 10 {
        digit_char(d)
    } else {
        ((87 + d) as u8) as char
    }
}

/// A sixteen bit number as four hexadecimal digits.
pub open spec fn hex4_text(n: u16) -> Seq<char> {
    seq![
        hex_char((n as nat / 0x1000) % 16),
        hex_char((n as nat / 0x100) % 16),
        hex_char((n as nat / 0x10) % 16),
        hex_char(n as nat % 16),
    ]
}

/// The text of one hexadecimal digit.
fn hex_digit(d: u16) -> (r: &'static str)
    requires
        d < 16,
    ensures
        r@ == seq![hex_char(d as nat)],
{
    if d < 10 {
        digit(d as u64)
    } else {
        proof {
            reveal_strlit("a");
            reveal_strlit("b");
            reveal_strlit("c");
            reveal_strlit("d");
            reveal_strlit("e");
            reveal_strlit("f");
        }
        let r = match d {
            10 => "a",
            11 => "b",
            12 => "c",
            13 => "d",
            14 => "e",
            _ => "f",
        };
        assert(r@ =~= seq![hex_char(d as nat)]);
        r
    }
}

/// Writes a sixteen bit number as four hexadecimal digits.
pub fn hex4(n: u16) -> (r: String)
    ensures
        r@ == hex4_text(n),
{
    let mut s = hex_digit((n / 0x1000) % 16).to_owned();
    s.append(hex_digit((n / 0x100) % 16));
    s.append(hex_digit((n / 0x10) % 16));
    s.append(hex_digit(n % 16));
    assert(s@ =~= hex4_text(n));
    s
}

/// Writes one byte as two hexadecimal digits.
pub fn hex2(b: u8) -> (r: String)
    ensures
        r@ == hex2_text(b),
{
    let mut s = hex_digit((b / 16) as u16).to_owned();
    s.append(hex_digit((b % 16) as u16));
    assert(s@ =~= hex2_text(b));
    s
}

/// A byte as two hexadecimal digits.
pub open spec fn hex2_text(b: u8) -> Seq<char> {
    seq![hex_char(b as nat / 16), hex_char(b as nat % 16)]
}

/// The number that decimal digits stand for.
pub open spec fn decimal_value(text: Seq<char>) -> int
    decreases text.len(),
{
    if text.len() == 0 {
        0
    } else {
        10 * decimal_value(text.drop_last()) + (text.last() as int - '0' as int)
    }
}

/// A number in decimal is made of digits that stand for it, and the first of several is not a zero.
pub proof fn lemma_decimal_text_is_the_number(n: nat)
    ensures
        decimal_text(n).len() > 0,
        decimal_value(decimal_text(n)) == n,
        forall|i: int|
            0 <= i < decimal_text(n).len() ==> '0' <= #[trigger] decimal_text(n)[i] <= '9',
        decimal_text(n).len() > 1 ==> decimal_text(n)[0] != '0',
        n == 0 ==> decimal_text(n).len() == 1,
        n > 0 ==> decimal_text(n)[0] != '0',
    decreases n,
{
    let text = decimal_text(n);
    if n < 10 {
        assert(text.drop_last() =~= Seq::<char>::empty());
        assert(decimal_value(text.drop_last()) == 0);
        assert(digit_char(n) as int == 48 + n);
    } else {
        lemma_decimal_text_is_the_number(n / 10);
        assert(text.drop_last() =~= decimal_text(n / 10));
        assert(digit_char(n % 10) as int == 48 + n % 10);
    }
}

/// The number that a hexadecimal digit in lower case stands for.
pub open spec fn hex_value(c: char) -> int {
    if c <= '9' {
        c as int - '0' as int
    } else {
        10 + (c as int - 'a' as int)
    }
}

/// Whether a character is a hexadecimal digit in lower case.
pub open spec fn is_hex(c: char) -> bool {
    '0' <= c <= '9' || 'a' <= c <= 'f'
}

/// Four hexadecimal digits, the highest first, stand for the number they were written from.
pub proof fn lemma_hex4_text_is_the_number(n: u16)
    ensures
        ({
            let t = hex4_text(n);
            &&& t.len() == 4
            &&& is_hex(t[0]) && is_hex(t[1]) && is_hex(t[2]) && is_hex(t[3])
            &&& 0x1000 * hex_value(t[0]) + 0x100 * hex_value(t[1]) + 0x10 * hex_value(t[2])
                + hex_value(t[3]) == n
        }),
{
    let a = (n as nat / 0x1000) % 16;
    let b = (n as nat / 0x100) % 16;
    let c = (n as nat / 0x10) % 16;
    let d = n as nat % 16;
    lemma_hex_char(a);
    lemma_hex_char(b);
    lemma_hex_char(c);
    lemma_hex_char(d);
    assert(0x1000 * a + 0x100 * b + 0x10 * c + d == n);
    assert(hex4_text(n) == seq![hex_char(a), hex_char(b), hex_char(c), hex_char(d)]);
}

/// Two hexadecimal digits, the highest first, stand for the byte they were written from.
pub proof fn lemma_hex2_text_is_the_byte(b: u8)
    ensures
        ({
            let t = hex2_text(b);
            &&& t.len() == 2
            &&& is_hex(t[0]) && is_hex(t[1])
            &&& 0x10 * hex_value(t[0]) + hex_value(t[1]) == b
        }),
{
    lemma_hex_char(b as nat / 16);
    lemma_hex_char(b as nat % 16);
}

/// A hexadecimal digit stands for the number it was written from.
proof fn lemma_hex_char(d: nat)
    requires
        d < 16,
    ensures
        hex_value(hex_char(d)) == d,
        is_hex(hex_char(d)),
{
    if d < 10 {
        assert(digit_char(d) as int == 48 + d);
    } else {
        assert((((87 + d) as u8) as char) as int == 87 + d);
    }
}

/// Declares [`core::fmt::Formatter`], which is where an implementation of [`core::fmt::Debug`] puts text.
#[verifier::external_type_specification]
#[verifier::external_body]
pub struct ExFormatter<'a>(core::fmt::Formatter<'a>);

/// Declares [`core::fmt::Error`], which says that text could not be put there.
#[verifier::external_type_specification]
#[verifier::external_body]
pub struct ExFmtError(core::fmt::Error);

/// Calls `core::fmt::Formatter::write_str` with the text.
///
/// Nothing is claimed of it: where the text goes, and whether there is room for it there, is up to
/// whoever made the formatter.
#[verifier::external_body]
pub(crate) fn put(f: &mut core::fmt::Formatter<'_>, text: &str) -> (r: core::fmt::Result) {
    f.write_str(text)
}

} // verus!
