//! Rendering numbers as text: decimal and binary digits, appended to a
//! `String` whose contents are stated exactly.
use vstd::prelude::*;
use vstd::string::*;

verus! {

/// The character for a digit below ten.
pub open spec fn digit_char(d: nat) -> char {
    if d == 0 {
        '0'
    } else if d == 1 {
        '1'
    } else if d == 2 {
        '2'
    } else if d == 3 {
        '3'
    } else if d == 4 {
        '4'
    } else if d == 5 {
        '5'
    } else if d == 6 {
        '6'
    } else if d == 7 {
        '7'
    } else if d == 8 {
        '8'
    } else {
        '9'
    }
}

/// The decimal digits of `n`, most significant first, without leading zeros.
pub open spec fn decimal(n: nat) -> Seq<char>
    decreases n,
{
    if n < 10 {
        seq![digit_char(n)]
    } else {
        decimal(n / 10).push(digit_char(n % 10))
    }
}

/// The binary digits of `n`, most significant first, without leading zeros.
pub open spec fn binary(n: nat) -> Seq<char>
    decreases n,
{
    if n < 2 {
        seq![digit_char(n)]
    } else {
        binary(n / 2).push(digit_char(n % 2))
    }
}

/// The binary digits of `n`, padded on the left with zeros to `width` digits.
pub open spec fn binary_padded(n: nat, width: nat) -> Seq<char>
    decreases width,
{
    if width == 0 {
        Seq::empty()
    } else {
        binary_padded(n / 2, (width - 1) as nat).push(digit_char(n % 2))
    }
}

fn push_digit(s: &mut String, d: u8)
    requires
        d < 10,
    ensures
        final(s)@ == old(s)@.push(digit_char(d as nat)),
{
    let lit: &str = if d == 0 {
        "0"
    } else if d == 1 {
        "1"
    } else if d == 2 {
        "2"
    } else if d == 3 {
        "3"
    } else if d == 4 {
        "4"
    } else if d == 5 {
        "5"
    } else if d == 6 {
        "6"
    } else if d == 7 {
        "7"
    } else if d == 8 {
        "8"
    } else {
        "9"
    };
    proof {
        reveal_strlit("0");
        reveal_strlit("1");
        reveal_strlit("2");
        reveal_strlit("3");
        reveal_strlit("4");
        reveal_strlit("5");
        reveal_strlit("6");
        reveal_strlit("7");
        reveal_strlit("8");
        reveal_strlit("9");
    }
    s.append(lit);
    assert(final(s)@ =~= old(s)@.push(digit_char(d as nat)));
}

/// Appends the decimal digits of `n`.
pub fn push_decimal(s: &mut String, n: usize)
    ensures
        final(s)@ == old(s)@ + decimal(n as nat),
    decreases n,
{
    if n < 10 {
        push_digit(s, n as u8);
        assert(decimal(n as nat) =~= seq![digit_char(n as nat)]);
        assert(final(s)@ =~= old(s)@ + decimal(n as nat));
    } else {
        push_decimal(s, n / 10);
        push_digit(s, (n % 10) as u8);
        assert(final(s)@ =~= old(s)@ + decimal(n as nat));
    }
}

/// Appends the binary digits of `n`.
pub fn push_binary(s: &mut String, n: u64)
    ensures
        final(s)@ == old(s)@ + binary(n as nat),
    decreases n,
{
    if n < 2 {
        push_digit(s, n as u8);
        assert(final(s)@ =~= old(s)@ + binary(n as nat));
    } else {
        push_binary(s, n / 2);
        push_digit(s, (n % 2) as u8);
        assert(final(s)@ =~= old(s)@ + binary(n as nat));
    }
}

/// Appends `width` binary digits of `n`, zero-padded on the left.
pub fn push_binary_padded(s: &mut String, n: u64, width: u8)
    ensures
        final(s)@ == old(s)@ + binary_padded(n as nat, width as nat),
    decreases width,
{
    if width == 0 {
        assert(final(s)@ =~= old(s)@ + binary_padded(n as nat, width as nat));
    } else {
        push_binary_padded(s, n / 2, width - 1);
        push_digit(s, (n % 2) as u8);
        assert(final(s)@ =~= old(s)@ + binary_padded(n as nat, width as nat));
    }
}

/// The decimal digits of `n` as a fresh string.
pub fn decimal_string(n: usize) -> (s: String)
    ensures
        s@ == decimal(n as nat),
{
    let mut s = String::new();
    push_decimal(&mut s, n);
    assert(s@ =~= decimal(n as nat));
    s
}

/// The lowercase hexadecimal digit of `d`.
pub open spec fn hex_char(d: nat) -> char {
    if d < 10 {
        digit_char(d)
    } else if d == 10 {
        'a'
    } else if d == 11 {
        'b'
    } else if d == 12 {
        'c'
    } else if d == 13 {
        'd'
    } else if d == 14 {
        'e'
    } else {
        'f'
    }
}

/// The hexadecimal digits of `n`, padded on the left with zeros to
/// `width` digits.
pub open spec fn hex_padded(n: nat, width: nat) -> Seq<char>
    decreases width,
{
    if width == 0 {
        Seq::empty()
    } else {
        hex_padded(n / 16, (width - 1) as nat).push(hex_char(n % 16))
    }
}

/// The text of a 128-bit id in the hyphenated form: 32 lowercase hex
/// digits in groups of 8, 4, 4, 4 and 12.
pub open spec fn id_text(id: u128) -> Seq<char> {
    let n = id as nat;
    hex_padded(n / 0x1_0000_0000_0000_0000_0000_0000, 8) + seq!['-'] + hex_padded(
        (n / 0x1_0000_0000_0000_0000_0000) % 0x1_0000,
        4,
    ) + seq!['-'] + hex_padded((n / 0x1_0000_0000_0000_0000) % 0x1_0000, 4) + seq!['-']
        + hex_padded((n / 0x1_0000_0000_0000) % 0x1_0000, 4) + seq!['-'] + hex_padded(
        n % 0x1_0000_0000_0000,
        12,
    )
}

fn push_hex_digit(s: &mut String, d: u8)
    requires
        d < 16,
    ensures
        final(s)@ == old(s)@.push(hex_char(d as nat)),
{
    if d < 10 {
        push_digit(s, d);
        return ;
    }
    let lit: &str = if d == 10 {
        "a"
    } else if d == 11 {
        "b"
    } else if d == 12 {
        "c"
    } else if d == 13 {
        "d"
    } else if d == 14 {
        "e"
    } else {
        "f"
    };
    proof {
        reveal_strlit("a");
        reveal_strlit("b");
        reveal_strlit("c");
        reveal_strlit("d");
        reveal_strlit("e");
        reveal_strlit("f");
    }
    s.append(lit);
    assert(final(s)@ =~= old(s)@.push(hex_char(d as nat)));
}

/// Appends `width` hex digits of `n`, zero-padded on the left.
pub fn push_hex_padded(s: &mut String, n: u128, width: u8)
    ensures
        final(s)@ == old(s)@ + hex_padded(n as nat, width as nat),
    decreases width,
{
    if width == 0 {
        assert(final(s)@ =~= old(s)@ + hex_padded(n as nat, width as nat));
    } else {
        push_hex_padded(s, n / 16, width - 1);
        push_hex_digit(s, (n % 16) as u8);
        assert(final(s)@ =~= old(s)@ + hex_padded(n as nat, width as nat));
    }
}

/// Appends the hyphenated text of a 128-bit id.
pub fn push_id(s: &mut String, id: u128)
    ensures
        final(s)@ == old(s)@ + id_text(id),
{
    proof {
        reveal_strlit("-");
    }
    push_hex_padded(s, id / 0x1_0000_0000_0000_0000_0000_0000, 8);
    s.append("-");
    push_hex_padded(s, (id / 0x1_0000_0000_0000_0000_0000) % 0x1_0000, 4);
    s.append("-");
    push_hex_padded(s, (id / 0x1_0000_0000_0000_0000) % 0x1_0000, 4);
    s.append("-");
    push_hex_padded(s, (id / 0x1_0000_0000_0000) % 0x1_0000, 4);
    s.append("-");
    push_hex_padded(s, id % 0x1_0000_0000_0000, 12);
    assert(final(s)@ =~= old(s)@ + id_text(id));
}

} // verus!
