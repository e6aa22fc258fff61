//! Which characters are white space, and what is left of a text without it.

use crate::text;
use vstd::prelude::*;

verus! {

/// The number of the character that one, two or three bytes encode.
pub open spec fn code_point(c: Seq<u8>) -> int {
    if c.len() == 1 {
        c[0] as int
    } else if c.len() == 2 {
        (c[0] - 0xc0) * 0x40 + (c[1] - 0x80)
    } else {
        (c[0] - 0xe0) * 0x1000 + (c[1] - 0x80) * 0x40 + (c[2] - 0x80)
    }
}

/// The bytes encode a character: the first tells their number, and the others continue it.
pub open spec fn is_encoded(c: Seq<u8>) -> bool {
    ||| c.len() == 1 && c[0] < 0x80
    ||| c.len() == 2 && 0xc2 <= c[0] <= 0xdf && 0x80 <= c[1] <= 0xbf
    ||| c.len() == 3 && 0xe0 <= c[0] <= 0xef && 0x80 <= c[1] <= 0xbf && 0x80 <= c[2] <= 0xbf && (c[0]
        == 0xe0 ==> c[1] >= 0xa0)
}

/// The characters of Unicode that are white space.
pub open spec fn is_white(n: int) -> bool {
    ||| 0x9 <= n <= 0xd
    ||| n == 0x20
    ||| n == 0x85
    ||| n == 0xa0
    ||| n == 0x1680
    ||| 0x2000 <= n <= 0x200a
    ||| n == 0x2028
    ||| n == 0x2029
    ||| n == 0x202f
    ||| n == 0x205f
    ||| n == 0x3000
}

/// A character is passed over as white space exactly where Unicode has it as white space, and with
/// all of its bytes, from the front and from the back.
pub proof fn law_white_space(p: Seq<u8>, c: Seq<u8>, r: Seq<u8>)
    requires
        is_encoded(c),
    ensures
        ({
            let b = p + c + r;
            let s = p.len() as int;
            let e = (p.len() + c.len()) as int;
            let n = c.len() as int;
            &&& is_white(code_point(c)) ==> text::space_width(b, s, b.len() as int) == n
                && text::space_width_before(b, s, e) == n
            &&& !is_white(code_point(c)) ==> text::space_width(b, s, b.len() as int) == 0
                && text::space_width_before(b, s, e) == 0
        }),
{
    let b = p + c + r;
    let s = p.len() as int;
    assert(b[s] == c[0]);
    if c.len() > 1 {
        assert(b[s + 1] == c[1]);
    }
    if c.len() > 2 {
        assert(b[s + 2] == c[2]);
    }
}

/// A name starts with a letter of ASCII or an underscore and goes on with these and with digits.
pub proof fn law_name_bytes(x: u8)
    ensures
        text::is_name_start(x) <==> x == 0x5f || 0x41 <= x <= 0x5a || 0x61 <= x <= 0x7a,
        text::is_name_byte(x) <==> x == 0x5f || 0x30 <= x <= 0x39 || 0x41 <= x <= 0x5a || 0x61 <= x
            <= 0x7a,
{
}

} // verus!
