use vstd::prelude::*;
use vstd::string::*;

verus! {

/// The lowercase hexadecimal digit for `d`, below 16.
pub open spec fn hex_char(d: int) -> char {
    if d < 10 {
        ('0' as int + d) as char
    } else {
        ('a' as int + d - 10) as char
    }
}

/// A colour written as a CSS fill style: `#` and two lowercase hexadecimal
/// digits for each of red, green and blue.
pub open spec fn css_hex(c: (u8, u8, u8)) -> Seq<char> {
    seq![
        '#',
        hex_char(c.0 as int / 16),
        hex_char(c.0 as int % 16),
        hex_char(c.1 as int / 16),
        hex_char(c.1 as int % 16),
        hex_char(c.2 as int / 16),
        hex_char(c.2 as int % 16),
    ]
}

/// The hexadecimal digit `d` as a string of one character.
fn hex_digit(d: u8) -> (s: &'static str)
    requires
        d < 16,
    ensures
        s@ == seq![hex_char(d as int)],
{
    match d {
        0 => {
            proof {
                reveal_strlit("0");
            }
            "0"
        },
        1 => {
            proof {
                reveal_strlit("1");
            }
            "1"
        },
        2 => {
            proof {
                reveal_strlit("2");
            }
            "2"
        },
        3 => {
            proof {
                reveal_strlit("3");
            }
            "3"
        },
        4 => {
            proof {
                reveal_strlit("4");
            }
            "4"
        },
        5 => {
            proof {
                reveal_strlit("5");
            }
            "5"
        },
        6 => {
            proof {
                reveal_strlit("6");
            }
            "6"
        },
        7 => {
            proof {
                reveal_strlit("7");
            }
            "7"
        },
        8 => {
            proof {
                reveal_strlit("8");
            }
            "8"
        },
        9 => {
            proof {
                reveal_strlit("9");
            }
            "9"
        },
        10 => {
            proof {
                reveal_strlit("a");
            }
            "a"
        },
        11 => {
            proof {
                reveal_strlit("b");
            }
            "b"
        },
        12 => {
            proof {
                reveal_strlit("c");
            }
            "c"
        },
        13 => {
            proof {
                reveal_strlit("d");
            }
            "d"
        },
        14 => {
            proof {
                reveal_strlit("e");
            }
            "e"
        },
        _ => {
            proof {
                reveal_strlit("f");
            }
            "f"
        },
    }
}

/// Appends the two hexadecimal digits of a colour channel.
fn push_channel(s: &mut String, c: u8)
    ensures
        final(s)@ == old(s)@ + seq![hex_char(c as int / 16), hex_char(c as int % 16)],
{
    s.append(hex_digit(c / 16));
    s.append(hex_digit(c % 16));
}

/// The fill style in which a canvas draws a pixel of colour `c`.
pub fn fill_style(c: (u8, u8, u8)) -> (s: String)
    ensures
        s@ == css_hex(c),
{
    proof {
        reveal_strlit("#");
    }
    let mut s = String::from_str("#");
    push_channel(&mut s, c.0);
    push_channel(&mut s, c.1);
    push_channel(&mut s, c.2);
    assert(s@ =~= css_hex(c));
    s
}

/// Whether `ch` is a lowercase hexadecimal digit, `0`-`9` or `a`-`f`.
pub open spec fn is_hex_digit(ch: char) -> bool {
    (48 <= ch as int && ch as int <= 57) || (97 <= ch as int && ch as int <= 102)
}

/// The number that a lowercase hexadecimal digit stands for.
pub open spec fn hex_value(ch: char) -> int {
    if ch as int <= 57 {
        ch as int - 48
    } else {
        ch as int - 97 + 10
    }
}

/// Reads back the two-digit hexadecimal number at positions `i` and `i + 1`.
pub open spec fn read_hex_pair(s: Seq<char>, i: int) -> int {
    16 * hex_value(s[i]) + hex_value(s[i + 1])
}

/// A digit written by `hex_char` reads back as the number it was written for.
proof fn lemma_hex_char_reads_back(d: int)
    requires
        0 <= d < 16,
    ensures
        is_hex_digit(hex_char(d)),
        hex_value(hex_char(d)) == d,
{
}

/// A fill style says exactly which colour it is: seven characters, `#` and
/// then three pairs of lowercase hexadecimal digits that read back as the
/// red, green and blue channels, for every colour.
pub proof fn lemma_fill_style_reads_back(c: (u8, u8, u8))
    ensures
        css_hex(c).len() == 7,
        css_hex(c)[0] == '#',
        forall|i: int| 1 <= i < 7 ==> #[trigger] is_hex_digit(css_hex(c)[i]),
        read_hex_pair(css_hex(c), 1) == c.0,
        read_hex_pair(css_hex(c), 3) == c.1,
        read_hex_pair(css_hex(c), 5) == c.2,
{
    lemma_hex_char_reads_back(c.0 as int / 16);
    lemma_hex_char_reads_back(c.0 as int % 16);
    lemma_hex_char_reads_back(c.1 as int / 16);
    lemma_hex_char_reads_back(c.1 as int % 16);
    lemma_hex_char_reads_back(c.2 as int / 16);
    lemma_hex_char_reads_back(c.2 as int % 16);
    let s = css_hex(c);
    assert forall|i: int| 1 <= i < 7 implies #[trigger] is_hex_digit(s[i]) by {}
}

} // verus!
