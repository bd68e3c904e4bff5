//! Formatting of the diagnostic memory-map dump: one header line, then one
//! comma-separated line per descriptor — decimal index, hex type code,
//! symbolic type name, zero-padded 8-hex-digit physical start, hex page
//! count, and hex attribute bits masked to the low 20 bits.

use vstd::prelude::*;
use vstd::string::StringExecFns;

verus! {

/// The decimal digit character for a value below ten.
pub open spec fn dec_digit_char(d: int) -> char {
    if d == 0 {
        '0'
    } else if d == 1 {
        '1'
    } else if d == 2 {
        '2'
    } else if d == 3 {
        '3'
    } else if d == 4 {
        '4'
    } else if d == 5 {
        '5'
    } else if d == 6 {
        '6'
    } else if d == 7 {
        '7'
    } else if d == 8 {
        '8'
    } else {
        '9'
    }
}

/// The lower-case hexadecimal digit character for a value below sixteen.
pub open spec fn hex_digit_char(d: int) -> char {
    if d < 10 {
        dec_digit_char(d)
    } else if d == 10 {
        'a'
    } else if d == 11 {
        'b'
    } else if d == 12 {
        'c'
    } else if d == 13 {
        'd'
    } else if d == 14 {
        'e'
    } else {
        'f'
    }
}

/// The decimal rendering of a non-negative number, most significant digit
/// first, without leading zeros.
pub open spec fn dec_chars(n: int) -> Seq<char>
    decreases n,
{
    if n < 10 {
        seq![dec_digit_char(n)]
    } else {
        dec_chars(n / 10).push(dec_digit_char(n % 10))
    }
}

/// The lower-case hexadecimal rendering of a non-negative number, most
/// significant digit first, without leading zeros.
pub open spec fn hex_chars(n: int) -> Seq<char>
    decreases n,
{
    if n < 16 {
        seq![hex_digit_char(n)]
    } else {
        hex_chars(n / 16).push(hex_digit_char(n % 16))
    }
}

/// `s` left-padded with zero characters to at least `width` characters.
pub open spec fn zero_padded(s: Seq<char>, width: int) -> Seq<char> {
    if s.len() >= width {
        s
    } else {
        Seq::new((width - s.len()) as nat, |i: int| '0') + s
    }
}

/// Append one decimal digit character.
fn push_dec_digit(out: &mut String, d: u64)
    requires
        d < 10,
    ensures
        final(out)@ == old(out)@.push(dec_digit_char(d as int)),
{
    let ghost entry = out@;
    match d {
        0 => out.append("0"),
        1 => out.append("1"),
        2 => out.append("2"),
        3 => out.append("3"),
        4 => out.append("4"),
        5 => out.append("5"),
        6 => out.append("6"),
        7 => out.append("7"),
        8 => out.append("8"),
        _ => out.append("9"),
    }
    proof {
        reveal_strlit("0");
        reveal_strlit("1");
        reveal_strlit("2");
        reveal_strlit("3");
        reveal_strlit("4");
        reveal_strlit("5");
        reveal_strlit("6");
        reveal_strlit("7");
        reveal_strlit("8");
        reveal_strlit("9");
        assert(out@ =~= entry.push(dec_digit_char(d as int)));
    }
}

/// Append one lower-case hexadecimal digit character.
fn push_hex_digit(out: &mut String, d: u64)
    requires
        d < 16,
    ensures
        final(out)@ == old(out)@.push(hex_digit_char(d as int)),
{
    let ghost entry = out@;
    if d < 10 {
        push_dec_digit(out, d);
    } else {
        match d {
            10 => out.append("a"),
            11 => out.append("b"),
            12 => out.append("c"),
            13 => out.append("d"),
            14 => out.append("e"),
            _ => out.append("f"),
        }
        proof {
            reveal_strlit("a");
            reveal_strlit("b");
            reveal_strlit("c");
            reveal_strlit("d");
            reveal_strlit("e");
            reveal_strlit("f");
            assert(out@ =~= entry.push(hex_digit_char(d as int)));
        }
    }
}

/// Append the decimal rendering of a number.
fn push_dec(out: &mut String, n: u64)
    ensures
        final(out)@ == old(out)@ + dec_chars(n as int),
    decreases n,
{
    let ghost entry = out@;
    if n >= 10 {
        push_dec(out, n / 10);
    }
    push_dec_digit(out, n % 10);
    proof {
        if n < 10 {
            assert(out@ =~= entry + dec_chars(n as int));
        } else {
            assert(out@ =~= entry + dec_chars(n as int));
        }
    }
}

/// Append the hexadecimal rendering of a number.
fn push_hex(out: &mut String, n: u64)
    ensures
        final(out)@ == old(out)@ + hex_chars(n as int),
    decreases n,
{
    let ghost entry = out@;
    if n >= 16 {
        push_hex(out, n / 16);
    }
    push_hex_digit(out, n % 16);
    proof {
        assert(out@ =~= entry + hex_chars(n as int));
    }
}

/// Append the hexadecimal rendering left-padded with zeros to eight
/// characters.
fn push_hex_pad8(out: &mut String, n: u64)
    ensures
        final(out)@ == old(out)@ + zero_padded(hex_chars(n as int), 8),
{
    let ghost entry = out@;
    let mut digits = String::new();
    push_hex(&mut digits, n);
    proof {
        assert(digits@ =~= hex_chars(n as int));
    }
    let l = digits.as_str().unicode_len();
    let pad: usize = if l < 8 {
        8 - l
    } else {
        0
    };
    for i in 0..pad
        invariant
            out@ =~= entry + Seq::new(i as nat, |k: int| '0'),
    {
        out.append("0");
        proof {
            reveal_strlit("0");
            assert(out@ =~= entry + Seq::new(i as nat + 1, |k: int| '0'));
        }
    }
    out.append(digits.as_str());
    proof {
        assert(out@ =~= entry + zero_padded(hex_chars(n as int), 8));
    }
}

/// The header line of the memory-map dump.
pub fn memory_map_header() -> (line: String)
    ensures
        line@ == "Index, Type, Type(name), PhysicalStart, NumberOfPages, Attribute\n"@,
{
    String::from_str("Index, Type, Type(name), PhysicalStart, NumberOfPages, Attribute\n")
}

/// One line of the memory-map dump for a descriptor: decimal index, hex
/// type code, the symbolic type name, the physical start zero-padded to
/// eight hex digits, hex page count, and hex attribute bits masked to the
/// low 20 bits.
pub fn format_memory_descriptor_line(
    index: u64,
    ty: u32,
    ty_name: &str,
    phys_start: u64,
    page_count: u64,
    attribute: u64,
) -> (line: String)
    ensures
        line@ == dec_chars(index as int) + ", "@ + hex_chars(ty as int) + ", "@ + ty_name@
            + ", "@ + zero_padded(hex_chars(phys_start as int), 8) + ", "@ + hex_chars(
            page_count as int,
        ) + ", "@ + hex_chars((attribute & 0xfffff) as int) + "\n"@,
{
    let mut line = String::new();
    push_dec(&mut line, index);
    line.append(", ");
    push_hex(&mut line, ty as u64);
    line.append(", ");
    line.append(ty_name);
    line.append(", ");
    push_hex_pad8(&mut line, phys_start);
    line.append(", ");
    push_hex(&mut line, page_count);
    line.append(", ");
    push_hex(&mut line, attribute & 0xfffff);
    line.append("\n");
    line
}

} // verus!
