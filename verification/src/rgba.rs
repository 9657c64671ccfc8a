use vstd::prelude::*;
use vstd::arithmetic::div_mod::lemma_div_is_ordered;
use vstd::string::StringExecFns;

verus! {

/// Selects one of the four channels of an `Rgba` color.
///
/// The declaration order matches the packed byte layout
/// `[blue, green, red, alpha]`, least-significant byte first.
#[derive(Clone, Copy, Hash, Debug, PartialEq, Eq, PartialOrd, Ord, Structural)]
pub enum Color {
    Blue,
    Green,
    Red,
    Alpha,
}

impl Color {
    /// Position of this channel inside the packed 4-byte layout.
    pub open spec fn spec_byte_index(self) -> int {
        match self {
            Color::Blue => 0,
            Color::Green => 1,
            Color::Red => 2,
            Color::Alpha => 3,
        }
    }

    /// Byte position of this channel, consistent with `spec_byte_index`.
    pub fn byte_index(self) -> (i: usize)
        ensures
            i == self.spec_byte_index(),
    {
        match self {
            Color::Blue => 0,
            Color::Green => 1,
            Color::Red => 2,
            Color::Alpha => 3,
        }
    }
}

/// A 4-byte packed RGBA color value.
///
/// The four channels are also viewable as a single 32-bit integer,
/// `(alpha << 24) | (red << 16) | (green << 8) | blue`; the two views
/// always describe the same bits (`packed` / `spec_from_u32`).
#[derive(Clone, Copy, Debug, PartialEq, Eq, Structural)]
pub struct Rgba {
    pub red: u8,
    pub green: u8,
    pub blue: u8,
    pub alpha: u8,
}

/// The 32-bit packed form of four channel bytes:
/// `(alpha << 24) | (red << 16) | (green << 8) | blue`.
pub open spec fn pack_bytes(red: u8, green: u8, blue: u8, alpha: u8) -> u32 {
    ((alpha as u32) << 24) | ((red as u32) << 16) | ((green as u32) << 8) | (blue as u32)
}

/// One channel of a linear blend: `(b*t + a*(255 - t) + 1) / 256`.
///
/// `t == 0` weights fully towards `a`, `t == 255` fully towards `b`,
/// up to the `+1` rounding bias of the fixed-point idiom.
pub open spec fn spec_blend_channel(a: u8, b: u8, t: u8) -> int {
    (b * t + a * (255 - t) + 1) / 256
}

/// The blended channel value always fits in a byte (it never exceeds 254).
pub proof fn lemma_blend_channel_bounds(a: u8, b: u8, t: u8)
    ensures
        0 <= spec_blend_channel(a, b, t) <= 254,
{
    assert(0 <= b * t + a * (255 - t) + 1 <= 65026) by (nonlinear_arith);
    lemma_div_is_ordered(0, b * t + a * (255 - t) + 1, 256);
    lemma_div_is_ordered(b * t + a * (255 - t) + 1, 65026, 256);
}

/// One channel of the linear blend, in executable form.
pub fn blend_color(a: u8, b: u8, t: u8) -> (r: u8)
    ensures
        r == spec_blend_channel(a, b, t),
{
    let a16: u16 = a as u16;
    let b16: u16 = b as u16;
    let t16: u16 = t as u16;
    assert(b16 * t16 <= 255 * 255 && a16 * (255 - t16) <= 255 * 255 && b16 * t16 + a16 * (255
        - t16) <= 65025) by (nonlinear_arith)
        requires
            a16 <= 255,
            b16 <= 255,
            t16 <= 255,
    ;
    let num: u16 = b16 * t16 + a16 * (255 - t16) + 1;
    proof {
        lemma_div_is_ordered(num as int, 65026, 256);
    }
    (num / 256) as u8
}

impl Rgba {
    /// The byte at position `i` of the packed layout `[blue, green, red, alpha]`.
    pub open spec fn spec_byte(self, i: int) -> u8 {
        if i == 0 {
            self.blue
        } else if i == 1 {
            self.green
        } else if i == 2 {
            self.red
        } else {
            self.alpha
        }
    }

    /// This color with the byte at position `i` of the packed layout replaced by `v`.
    pub open spec fn spec_with_byte(self, i: int, v: u8) -> Rgba {
        if i == 0 {
            Rgba { blue: v, ..self }
        } else if i == 1 {
            Rgba { green: v, ..self }
        } else if i == 2 {
            Rgba { red: v, ..self }
        } else {
            Rgba { alpha: v, ..self }
        }
    }

    /// The single 32-bit integer view of this color.
    pub open spec fn packed(self) -> u32 {
        pack_bytes(self.red, self.green, self.blue, self.alpha)
    }

    /// The color whose red, green and blue channels are blended towards `rhs`
    /// with proportion `t`; the alpha channel is kept from `self`.
    pub open spec fn spec_blend(self, rhs: Rgba, t: u8) -> Rgba {
        Rgba {
            red: spec_blend_channel(self.red, rhs.red, t) as u8,
            green: spec_blend_channel(self.green, rhs.green, t) as u8,
            blue: spec_blend_channel(self.blue, rhs.blue, t) as u8,
            alpha: self.alpha,
        }
    }

    pub fn new(red: u8, green: u8, blue: u8, alpha: u8) -> (c: Self)
        ensures
            c == (Rgba { red, green, blue, alpha }),
    {
        Rgba { red, green, blue, alpha }
    }

    pub fn new_opaque(red: u8, green: u8, blue: u8) -> (c: Self)
        ensures
            c == (Rgba { red, green, blue, alpha: 255u8 }),
    {
        Rgba { red, green, blue, alpha: 255 }
    }

    /// The channel selected by `index`.
    pub fn channel(&self, index: Color) -> (v: u8)
        ensures
            v == self.spec_byte(index.spec_byte_index()),
    {
        match index {
            Color::Blue => self.blue,
            Color::Green => self.green,
            Color::Red => self.red,
            Color::Alpha => self.alpha,
        }
    }

    /// Replaces the channel selected by `index`.
    pub fn set_channel(&mut self, index: Color, v: u8)
        ensures
            *final(self) == old(self).spec_with_byte(index.spec_byte_index(), v),
    {
        match index {
            Color::Blue => self.blue = v,
            Color::Green => self.green = v,
            Color::Red => self.red = v,
            Color::Alpha => self.alpha = v,
        }
    }

    /// The byte at position `index` (0-3) of the packed layout.
    pub fn byte(&self, index: usize) -> (v: u8)
        requires
            index < 4,
        ensures
            v == self.spec_byte(index as int),
    {
        if index == 0 {
            self.blue
        } else if index == 1 {
            self.green
        } else if index == 2 {
            self.red
        } else {
            self.alpha
        }
    }

    /// Replaces the byte at position `index` (0-3) of the packed layout.
    pub fn set_byte(&mut self, index: usize, v: u8)
        requires
            index < 4,
        ensures
            *final(self) == old(self).spec_with_byte(index as int, v),
    {
        if index == 0 {
            self.blue = v;
        } else if index == 1 {
            self.green = v;
        } else if index == 2 {
            self.red = v;
        } else {
            self.alpha = v;
        }
    }

    /// The 32-bit packed integer form, the final encoding handed to the
    /// presentation layer.
    pub fn to_u32(self) -> (n: u32)
        ensures
            n == self.packed(),
    {
        ((self.alpha as u32) << 24) | ((self.red as u32) << 16) | ((self.green as u32) << 8) | (
        self.blue as u32)
    }

    /// The color whose packed integer form is `n`.
    pub open spec fn spec_from_u32(n: u32) -> Rgba {
        Rgba {
            red: ((n >> 16) & 0xFF) as u8,
            green: ((n >> 8) & 0xFF) as u8,
            blue: (n & 0xFF) as u8,
            alpha: ((n >> 24) & 0xFF) as u8,
        }
    }

    /// Rebuilds a color from its 32-bit packed integer form, bit-preserving.
    pub fn from_u32(n: u32) -> (c: Rgba)
        ensures
            c == Self::spec_from_u32(n),
            c.packed() == n,
    {
        proof {
            lemma_unpack_pack(n);
        }
        Rgba {
            red: ((n >> 16) & 0xFF) as u8,
            green: ((n >> 8) & 0xFF) as u8,
            blue: (n & 0xFF) as u8,
            alpha: ((n >> 24) & 0xFF) as u8,
        }
    }

    /// Linear per-channel blend of `self` towards `rhs`:
    /// each of red, green and blue becomes `(rhs*t + self*(255-t) + 1) / 256`;
    /// the alpha channel is never blended.
    pub fn blend(self, rhs: Self, proportion: u8) -> (r: Self)
        ensures
            r == self.spec_blend(rhs, proportion),
    {
        proof {
            lemma_blend_channel_bounds(self.red, rhs.red, proportion);
            lemma_blend_channel_bounds(self.green, rhs.green, proportion);
            lemma_blend_channel_bounds(self.blue, rhs.blue, proportion);
        }
        Rgba {
            red: blend_color(self.red, rhs.red, proportion),
            green: blend_color(self.green, rhs.green, proportion),
            blue: blend_color(self.blue, rhs.blue, proportion),
            alpha: self.alpha,
        }
    }

    pub fn black() -> (c: Rgba)
        ensures
            c == (Rgba { red: 0u8, green: 0u8, blue: 0u8, alpha: 255u8 }),
    {
        Rgba::new_opaque(0, 0, 0)
    }

    pub fn white() -> (c: Rgba)
        ensures
            c == (Rgba { red: 255u8, green: 255u8, blue: 255u8, alpha: 255u8 }),
    {
        Rgba::new_opaque(255, 255, 255)
    }

    pub fn gray() -> (c: Rgba)
        ensures
            c == (Rgba { red: 0xAAu8, green: 0xAAu8, blue: 0xAAu8, alpha: 255u8 }),
    {
        Rgba::new_opaque(0xAA, 0xAA, 0xAA)
    }

    pub fn dark_gray() -> (c: Rgba)
        ensures
            c == (Rgba { red: 55u8, green: 55u8, blue: 55u8, alpha: 255u8 }),
    {
        Rgba::new_opaque(55, 55, 55)
    }

    pub fn pure_red() -> (c: Rgba)
        ensures
            c == (Rgba { red: 255u8, green: 0u8, blue: 0u8, alpha: 255u8 }),
    {
        Rgba::new_opaque(255, 0, 0)
    }

    pub fn pure_green() -> (c: Rgba)
        ensures
            c == (Rgba { red: 0u8, green: 255u8, blue: 0u8, alpha: 255u8 }),
    {
        Rgba::new_opaque(0, 255, 0)
    }

    pub fn pure_blue() -> (c: Rgba)
        ensures
            c == (Rgba { red: 0u8, green: 0u8, blue: 255u8, alpha: 255u8 }),
    {
        Rgba::new_opaque(0, 0, 255)
    }

    pub fn magenta() -> (c: Rgba)
        ensures
            c == (Rgba { red: 255u8, green: 0u8, blue: 255u8, alpha: 255u8 }),
    {
        Rgba::new_opaque(255, 0, 255)
    }

    pub fn cyan() -> (c: Rgba)
        ensures
            c == (Rgba { red: 0u8, green: 255u8, blue: 255u8, alpha: 255u8 }),
    {
        Rgba::new_opaque(0, 255, 255)
    }

    pub fn yellow() -> (c: Rgba)
        ensures
            c == (Rgba { red: 255u8, green: 255u8, blue: 0u8, alpha: 255u8 }),
    {
        Rgba::new_opaque(255, 255, 0)
    }
}

impl Default for Rgba {
    /// The default color is opaque black.
    fn default() -> (c: Self)
        ensures
            c == (Rgba { red: 0u8, green: 0u8, blue: 0u8, alpha: 255u8 }),
    {
        Rgba::new(0, 0, 0, 255)
    }
}

/// Extracting the four bytes of a packed 32-bit value inverts `pack_bytes`.
proof fn lemma_pack_unpack(red: u8, green: u8, blue: u8, alpha: u8)
    by (bit_vector)
    ensures
        ((pack_bytes(red, green, blue, alpha) >> 16) & 0xFF) as u8 == red,
        ((pack_bytes(red, green, blue, alpha) >> 8) & 0xFF) as u8 == green,
        (pack_bytes(red, green, blue, alpha) & 0xFF) as u8 == blue,
        ((pack_bytes(red, green, blue, alpha) >> 24) & 0xFF) as u8 == alpha,
{
}

/// Packing the four extracted bytes of `n` yields `n` again.
proof fn lemma_unpack_pack(n: u32)
    by (bit_vector)
    ensures
        pack_bytes(
            ((n >> 16) & 0xFF) as u8,
            ((n >> 8) & 0xFF) as u8,
            (n & 0xFF) as u8,
            ((n >> 24) & 0xFF) as u8,
        ) == n,
{
}

/// Packed round-trip: converting a color to its 32-bit integer form and back
/// reproduces all four channel values exactly.
pub proof fn lemma_packed_round_trip(c: Rgba)
    ensures
        Rgba::spec_from_u32(c.packed()) == c,
{
    lemma_pack_unpack(c.red, c.green, c.blue, c.alpha);
}

/// Two colors are equal exactly when their packed 32-bit forms are equal, so
/// equality on the packed integer agrees with per-channel equality.
pub proof fn lemma_packed_injective(c1: Rgba, c2: Rgba)
    ensures
        c1.packed() == c2.packed() <==> c1 == c2,
{
    lemma_pack_unpack(c1.red, c1.green, c1.blue, c1.alpha);
    lemma_pack_unpack(c2.red, c2.green, c2.blue, c2.alpha);
}

/// Blend boundary: blending opaque black towards opaque white with proportion
/// 0 yields opaque black again.
pub proof fn lemma_blend_zero_boundary()
    ensures
        (Rgba { red: 0u8, green: 0u8, blue: 0u8, alpha: 255u8 }).spec_blend(
            (Rgba { red: 255u8, green: 255u8, blue: 255u8, alpha: 255u8 }),
            0,
        ) == (Rgba { red: 0u8, green: 0u8, blue: 0u8, alpha: 255u8 }),
{
}

/// The alpha channel of a blend is always the alpha of the left operand,
/// whatever the proportion: this is a visual blend, not compositing.
pub proof fn lemma_blend_keeps_alpha(a: Rgba, b: Rgba, t: u8)
    ensures
        a.spec_blend(b, t).alpha == a.alpha,
{
}

/// Blend monotonicity for one channel: with the endpoints fixed, a larger
/// proportion moves the result towards `b`, never away from it.
pub proof fn lemma_blend_channel_monotonic(a: u8, b: u8, t1: u8, t2: u8)
    requires
        t1 <= t2,
    ensures
        a <= b ==> spec_blend_channel(a, b, t1) <= spec_blend_channel(a, b, t2),
        a >= b ==> spec_blend_channel(a, b, t1) >= spec_blend_channel(a, b, t2),
{
    assert(a <= b ==> b * t1 + a * (255 - t1) + 1 <= b * t2 + a * (255 - t2) + 1)
        by (nonlinear_arith)
        requires
            t1 <= t2,
    ;
    assert(a >= b ==> b * t2 + a * (255 - t2) + 1 <= b * t1 + a * (255 - t1) + 1)
        by (nonlinear_arith)
        requires
            t1 <= t2,
    ;
    if a <= b {
        lemma_div_is_ordered(b * t1 + a * (255 - t1) + 1, b * t2 + a * (255 - t2) + 1, 256);
    } else {
        lemma_div_is_ordered(b * t2 + a * (255 - t2) + 1, b * t1 + a * (255 - t1) + 1, 256);
    }
}

/// Blend monotonicity: for fixed endpoint colors, increasing the proportion
/// never decreases a channel that increases from `a` to `b`, and never
/// increases a channel that decreases from `a` to `b`.
pub proof fn lemma_blend_monotonic(a: Rgba, b: Rgba, t1: u8, t2: u8)
    requires
        t1 <= t2,
    ensures
        a.red <= b.red ==> a.spec_blend(b, t1).red <= a.spec_blend(b, t2).red,
        a.red >= b.red ==> a.spec_blend(b, t1).red >= a.spec_blend(b, t2).red,
        a.green <= b.green ==> a.spec_blend(b, t1).green <= a.spec_blend(b, t2).green,
        a.green >= b.green ==> a.spec_blend(b, t1).green >= a.spec_blend(b, t2).green,
        a.blue <= b.blue ==> a.spec_blend(b, t1).blue <= a.spec_blend(b, t2).blue,
        a.blue >= b.blue ==> a.spec_blend(b, t1).blue >= a.spec_blend(b, t2).blue,
{
    lemma_blend_channel_monotonic(a.red, b.red, t1, t2);
    lemma_blend_channel_monotonic(a.green, b.green, t1, t2);
    lemma_blend_channel_monotonic(a.blue, b.blue, t1, t2);
    lemma_blend_channel_bounds(a.red, b.red, t1);
    lemma_blend_channel_bounds(a.red, b.red, t2);
    lemma_blend_channel_bounds(a.green, b.green, t1);
    lemma_blend_channel_bounds(a.green, b.green, t2);
    lemma_blend_channel_bounds(a.blue, b.blue, t1);
    lemma_blend_channel_bounds(a.blue, b.blue, t2);
}

/// True when `c` is a hex digit: 0-9, A-F or a-f.
pub open spec fn is_hex_digit(c: char) -> bool {
    ('0' as u32 <= c as u32 && c as u32 <= '9' as u32) || ('A' as u32 <= c as u32 && c as u32
        <= 'F' as u32) || ('a' as u32 <= c as u32 && c as u32 <= 'f' as u32)
}

/// The value 0-15 of the hex digit `c` (meaningful when `is_hex_digit(c)`).
pub open spec fn hex_digit_value(c: char) -> int {
    if '0' as u32 <= c as u32 && c as u32 <= '9' as u32 {
        c as u32 - '0' as u32
    } else if 'A' as u32 <= c as u32 && c as u32 <= 'F' as u32 {
        c as u32 - 'A' as u32 + 10
    } else {
        c as u32 - 'a' as u32 + 10
    }
}

/// Pair `i` (two characters at positions `2i`, `2i+1`) is fully present in `s`.
pub open spec fn pair_complete(s: Seq<char>, i: int) -> bool {
    s.len() >= 2 * i + 2
}

/// Both characters of pair `i` are hex digits.
pub open spec fn pair_ok(s: Seq<char>, i: int) -> bool {
    is_hex_digit(s[2 * i]) && is_hex_digit(s[2 * i + 1])
}

/// The byte value of pair `i` (meaningful when `pair_ok(s, i)`).
pub open spec fn pair_value(s: Seq<char>, i: int) -> int {
    hex_digit_value(s[2 * i]) * 16 + hex_digit_value(s[2 * i + 1])
}

/// Some fully present pair among red, green, blue is not valid hex.
pub open spec fn has_invalid_pair(s: Seq<char>) -> bool {
    exists|i: int| 0 <= i < 3 && pair_complete(s, i) && !(#[trigger] pair_ok(s, i))
}

/// The first offending pair index (meaningful when `has_invalid_pair(s)`).
pub open spec fn first_invalid_pair(s: Seq<char>) -> int {
    if pair_complete(s, 0) && !pair_ok(s, 0) {
        0
    } else if pair_complete(s, 1) && !pair_ok(s, 1) {
        1
    } else {
        2
    }
}

/// The alpha byte read from pair 3; an absent or non-hex alpha pair defaults
/// to 255 (fully opaque).
pub open spec fn spec_alpha_value(s: Seq<char>) -> int {
    if s.len() >= 8 && pair_ok(s, 3) {
        pair_value(s, 3)
    } else {
        255
    }
}

/// The color a successful hex parse of `s` produces: byte pairs in the order
/// red, green, blue, then the optional alpha pair.
pub open spec fn spec_parsed_color(s: Seq<char>) -> Rgba {
    Rgba {
        red: pair_value(s, 0) as u8,
        green: pair_value(s, 1) as u8,
        blue: pair_value(s, 2) as u8,
        alpha: spec_alpha_value(s) as u8,
    }
}

/// Why a character sequence could not be parsed into a color.
#[derive(Debug, PartialEq, Eq)]
pub enum CharsToRgbaError {
    /// A consumed two-character pair held a non-hex character; the pair is reported.
    InvalidStr(String),
    /// Fewer than six characters were available; the count present is reported.
    InsufficientLength(usize),
}

impl CharsToRgbaError {
    /// A short human-readable description of the error.
    pub fn describe(&self) -> (r: String)
        ensures
            self matches CharsToRgbaError::InsufficientLength(_) ==> r@
                == "input length was insufficient; 6 or 8 characters are required"@,
            self matches CharsToRgbaError::InvalidStr(_) ==> r@
                == "input contains characters outside the hex alphabet 0-9, A-F"@,
    {
        match self {
            CharsToRgbaError::InsufficientLength(_) => String::from_str(
                "input length was insufficient; 6 or 8 characters are required",
            ),
            CharsToRgbaError::InvalidStr(_) => String::from_str(
                "input contains characters outside the hex alphabet 0-9, A-F",
            ),
        }
    }
}

/// Relies on String::push: appends exactly the one character at the end.
#[verifier::external_body]
fn push_char(s: &mut String, c: char)
    ensures
        final(s)@ == old(s)@.push(c),
{
    s.push(c)
}

/// The value of a single hex digit character, case-insensitive; `None` for
/// any character outside the hex alphabet.
pub fn hex_code_to_u4(c: char) -> (r: Option<u8>)
    ensures
        r is Some <==> is_hex_digit(c),
        r matches Some(v) ==> v == hex_digit_value(c),
{
    match c {
        '0' => Some(0),
        '1' => Some(1),
        '2' => Some(2),
        '3' => Some(3),
        '4' => Some(4),
        '5' => Some(5),
        '6' => Some(6),
        '7' => Some(7),
        '8' => Some(8),
        '9' => Some(9),
        'A' | 'a' => Some(10),
        'B' | 'b' => Some(11),
        'C' | 'c' => Some(12),
        'D' | 'd' => Some(13),
        'E' | 'e' => Some(14),
        'F' | 'f' => Some(15),
        _ => None,
    }
}

/// The byte value of a two-character hex pair; `None` if either character is
/// outside the hex alphabet.
pub fn hex_code_to_u8(chars: [char; 2]) -> (r: Option<u8>)
    ensures
        r is Some <==> is_hex_digit(chars[0]) && is_hex_digit(chars[1]),
        r matches Some(v) ==> v == hex_digit_value(chars[0]) * 16 + hex_digit_value(chars[1]),
{
    let hi = hex_code_to_u4(chars[0]);
    let lo = hex_code_to_u4(chars[1]);
    match (hi, lo) {
        (Some(h), Some(l)) => Some(h * 16 + l),
        _ => None,
    }
}

impl Rgba {
    /// Parses a color from a sequence of hex characters, consumed left to
    /// right in two-character pairs in the order red, green, blue, alpha.
    /// Exactly 8 characters are consumed if available; with only 6, the alpha
    /// pair defaults to 255 and the parse still succeeds.
    pub fn try_from_chars(chars: &Vec<char>) -> (r: Result<Rgba, CharsToRgbaError>)
        ensures
            has_invalid_pair(chars@) ==> (r matches Err(CharsToRgbaError::InvalidStr(p)) && p@
                == seq![
                chars@[2 * first_invalid_pair(chars@)],
                chars@[2 * first_invalid_pair(chars@) + 1],
            ]),
            !has_invalid_pair(chars@) && chars@.len() < 6 ==> (r matches Err(
                CharsToRgbaError::InsufficientLength(n),
            ) && n == chars@.len()),
            !has_invalid_pair(chars@) && chars@.len() >= 6 ==> (r matches Ok(c) && c
                == spec_parsed_color(chars@)),
    {
        let s_len = chars.len();
        let red: u8;
        let green: u8;
        let blue: u8;
        if s_len >= 2 {
            match hex_code_to_u8([chars[0], chars[1]]) {
                Some(v) => {
                    red = v;
                },
                None => {
                    proof {
                        assert(pair_complete(chars@, 0) && !pair_ok(chars@, 0));
                    }
                    return Err(CharsToRgbaError::InvalidStr(Self::pair_string(chars, 0)));
                },
            }
        } else {
            proof {
                assert forall|i: int| 0 <= i < 3 && pair_complete(chars@, i) implies #[trigger]
                pair_ok(chars@, i) by {
                    assert(chars@.len() < 2 * i + 2);
                }
            }
            let n: usize = if s_len >= 1 {
                1
            } else {
                0
            };
            return Err(CharsToRgbaError::InsufficientLength(n));
        }
        if s_len >= 4 {
            match hex_code_to_u8([chars[2], chars[3]]) {
                Some(v) => {
                    green = v;
                },
                None => {
                    proof {
                        assert(pair_complete(chars@, 1) && !pair_ok(chars@, 1));
                        assert(pair_ok(chars@, 0));
                    }
                    return Err(CharsToRgbaError::InvalidStr(Self::pair_string(chars, 1)));
                },
            }
        } else {
            proof {
                assert forall|i: int| 0 <= i < 3 && pair_complete(chars@, i) implies #[trigger]
                pair_ok(chars@, i) by {
                    assert(i == 0);
                }
            }
            let n: usize = if s_len >= 3 {
                3
            } else {
                2
            };
            return Err(CharsToRgbaError::InsufficientLength(n));
        }
        if s_len >= 6 {
            match hex_code_to_u8([chars[4], chars[5]]) {
                Some(v) => {
                    blue = v;
                },
                None => {
                    proof {
                        assert(pair_complete(chars@, 2) && !pair_ok(chars@, 2));
                        assert(pair_ok(chars@, 0) && pair_ok(chars@, 1));
                    }
                    return Err(CharsToRgbaError::InvalidStr(Self::pair_string(chars, 2)));
                },
            }
        } else {
            proof {
                assert forall|i: int| 0 <= i < 3 && pair_complete(chars@, i) implies #[trigger]
                pair_ok(chars@, i) by {
                    assert(i == 0 || i == 1);
                }
            }
            let n: usize = if s_len >= 5 {
                5
            } else {
                4
            };
            return Err(CharsToRgbaError::InsufficientLength(n));
        }
        // a dangling, absent or non-hex alpha pair is treated as omitted:
        // the color comes out fully opaque rather than failing
        let alpha: u8 = if s_len >= 8 {
            match hex_code_to_u8([chars[6], chars[7]]) {
                Some(v) => v,
                None => 255,
            }
        } else {
            255
        };
        proof {
            assert forall|i: int| 0 <= i < 3 && pair_complete(chars@, i) implies #[trigger] pair_ok(
                chars@,
                i,
            ) by {
                assert(pair_ok(chars@, 0) && pair_ok(chars@, 1) && pair_ok(chars@, 2));
            }
        }
        Ok(Rgba::new(red, green, blue, alpha))
    }

    /// The two characters of pair `i`, collected into an owned string for an
    /// `InvalidStr` report.
    fn pair_string(chars: &Vec<char>, i: usize) -> (r: String)
        requires
            i < 4,
            chars@.len() >= 2 * i + 2,
        ensures
            r@ == seq![chars@[2 * i as int], chars@[2 * i as int + 1]],
    {
        let mut s = String::new();
        push_char(&mut s, chars[2 * i]);
        push_char(&mut s, chars[2 * i + 1]);
        proof {
            assert(s@ =~= seq![chars@[2 * i as int], chars@[2 * i as int + 1]]);
        }
        s
    }
}

/// The uppercase hex digit character for a value 0-15.
pub open spec fn hex_digit_char(v: int) -> char {
    if v == 0 {
        '0'
    } else if v == 1 {
        '1'
    } else if v == 2 {
        '2'
    } else if v == 3 {
        '3'
    } else if v == 4 {
        '4'
    } else if v == 5 {
        '5'
    } else if v == 6 {
        '6'
    } else if v == 7 {
        '7'
    } else if v == 8 {
        '8'
    } else if v == 9 {
        '9'
    } else if v == 10 {
        'A'
    } else if v == 11 {
        'B'
    } else if v == 12 {
        'C'
    } else if v == 13 {
        'D'
    } else if v == 14 {
        'E'
    } else {
        'F'
    }
}

/// The two uppercase hex characters encoding the byte value `v`.
pub open spec fn hex_chars_of_byte(v: int) -> Seq<char> {
    seq![hex_digit_char(v / 16), hex_digit_char(v % 16)]
}

/// The 6-character hex encoding of a color: red, green, blue pairs.
pub open spec fn hex_chars6(c: Rgba) -> Seq<char> {
    hex_chars_of_byte(c.red as int) + hex_chars_of_byte(c.green as int) + hex_chars_of_byte(
        c.blue as int,
    )
}

/// The 8-character hex encoding of four channel bytes, in the order
/// red, green, blue, alpha.
pub open spec fn hex_chars8(red: u8, green: u8, blue: u8, alpha: u8) -> Seq<char> {
    hex_chars_of_byte(red as int) + hex_chars_of_byte(green as int) + hex_chars_of_byte(
        blue as int,
    ) + hex_chars_of_byte(alpha as int)
}

/// Encoding a digit value 0-15 gives a hex digit that decodes to it again.
proof fn lemma_hex_digit_char_value(v: int)
    requires
        0 <= v < 16,
    ensures
        is_hex_digit(hex_digit_char(v)),
        hex_digit_value(hex_digit_char(v)) == v,
{
}

/// The two characters encoding a byte are hex digits and decode to the byte.
proof fn lemma_hex_byte_chars(v: u8)
    ensures
        ({
            let s = hex_chars_of_byte(v as int);
            s.len() == 2 && is_hex_digit(s[0]) && is_hex_digit(s[1]) && hex_digit_value(s[0]) * 16
                + hex_digit_value(s[1]) == v
        }),
{
    lemma_div_is_ordered(v as int, 255, 16);
    assert(0 <= v as int % 16 < 16) by {
        vstd::arithmetic::div_mod::lemma_mod_bound(v as int, 16);
    }
    lemma_hex_digit_char_value(v as int / 16);
    lemma_hex_digit_char_value(v as int % 16);
    vstd::arithmetic::div_mod::lemma_fundamental_div_mod(v as int, 16);
}

/// Hex parse round-trip, opaque form: for any color with alpha 255, parsing
/// its 6-character hex encoding succeeds and returns the same color.
pub proof fn lemma_hex_round_trip6(c: Rgba)
    requires
        c.alpha == 255,
    ensures
        hex_chars6(c).len() == 6,
        !has_invalid_pair(hex_chars6(c)),
        spec_parsed_color(hex_chars6(c)) == c,
{
    let s = hex_chars6(c);
    lemma_hex_byte_chars(c.red);
    lemma_hex_byte_chars(c.green);
    lemma_hex_byte_chars(c.blue);
    assert(s[0] == hex_chars_of_byte(c.red as int)[0]);
    assert(s[1] == hex_chars_of_byte(c.red as int)[1]);
    assert(s[2] == hex_chars_of_byte(c.green as int)[0]);
    assert(s[3] == hex_chars_of_byte(c.green as int)[1]);
    assert(s[4] == hex_chars_of_byte(c.blue as int)[0]);
    assert(s[5] == hex_chars_of_byte(c.blue as int)[1]);
    assert(pair_ok(s, 0) && pair_ok(s, 1) && pair_ok(s, 2));
    assert forall|i: int| 0 <= i < 3 && pair_complete(s, i) implies #[trigger] pair_ok(s, i) by {
        assert(pair_ok(s, 0) && pair_ok(s, 1) && pair_ok(s, 2));
    }
    assert(pair_value(s, 0) == c.red);
    assert(pair_value(s, 1) == c.green);
    assert(pair_value(s, 2) == c.blue);
}

/// Hex parse round-trip, full form: parsing the 8-character hex encoding of
/// four bytes succeeds, and re-encoding the parsed color as a 32-bit integer
/// matches direct construction from those bytes.
pub proof fn lemma_hex_round_trip8(red: u8, green: u8, blue: u8, alpha: u8)
    ensures
        hex_chars8(red, green, blue, alpha).len() == 8,
        !has_invalid_pair(hex_chars8(red, green, blue, alpha)),
        spec_parsed_color(hex_chars8(red, green, blue, alpha)) == (Rgba {
            red,
            green,
            blue,
            alpha,
        }),
        spec_parsed_color(hex_chars8(red, green, blue, alpha)).packed() == pack_bytes(
            red,
            green,
            blue,
            alpha,
        ),
{
    let s = hex_chars8(red, green, blue, alpha);
    lemma_hex_byte_chars(red);
    lemma_hex_byte_chars(green);
    lemma_hex_byte_chars(blue);
    lemma_hex_byte_chars(alpha);
    assert(s[0] == hex_chars_of_byte(red as int)[0]);
    assert(s[1] == hex_chars_of_byte(red as int)[1]);
    assert(s[2] == hex_chars_of_byte(green as int)[0]);
    assert(s[3] == hex_chars_of_byte(green as int)[1]);
    assert(s[4] == hex_chars_of_byte(blue as int)[0]);
    assert(s[5] == hex_chars_of_byte(blue as int)[1]);
    assert(s[6] == hex_chars_of_byte(alpha as int)[0]);
    assert(s[7] == hex_chars_of_byte(alpha as int)[1]);
    assert(pair_ok(s, 0) && pair_ok(s, 1) && pair_ok(s, 2) && pair_ok(s, 3));
    assert forall|i: int| 0 <= i < 3 && pair_complete(s, i) implies #[trigger] pair_ok(s, i) by {
        assert(pair_ok(s, 0) && pair_ok(s, 1) && pair_ok(s, 2));
    }
    assert(pair_value(s, 0) == red);
    assert(pair_value(s, 1) == green);
    assert(pair_value(s, 2) == blue);
    assert(pair_value(s, 3) == alpha);
}

/// Why a raw configuration value could not be converted into a color.
#[derive(Debug, PartialEq, Eq)]
pub enum TomlToRgbaError {
    InsufficientStrLen(usize),
    InvalidStr(String),
    IncorrectArrayType(usize),
    InvalidEntryType,
    IntConversionFail,
}

impl From<CharsToRgbaError> for TomlToRgbaError {
    /// A hex-parse error carried over unchanged into the wider error type.
    fn from(value: CharsToRgbaError) -> (r: Self) {
        match value {
            CharsToRgbaError::InvalidStr(s) => TomlToRgbaError::InvalidStr(s),
            CharsToRgbaError::InsufficientLength(len) => TomlToRgbaError::InsufficientStrLen(len),
        }
    }
}

impl vstd::std_specs::convert::FromSpecImpl<CharsToRgbaError> for TomlToRgbaError {
    open spec fn obeys_from_spec() -> bool {
        true
    }

    open spec fn from_spec(value: CharsToRgbaError) -> Self {
        match value {
            CharsToRgbaError::InvalidStr(s) => TomlToRgbaError::InvalidStr(s),
            CharsToRgbaError::InsufficientLength(len) => TomlToRgbaError::InsufficientStrLen(len),
        }
    }
}

impl From<core::num::TryFromIntError> for TomlToRgbaError {
    /// Any failed integer narrowing maps to the one conversion-failure variant.
    fn from(_value: core::num::TryFromIntError) -> (r: Self) {
        TomlToRgbaError::IntConversionFail
    }
}

impl vstd::std_specs::convert::FromSpecImpl<core::num::TryFromIntError> for TomlToRgbaError {
    open spec fn obeys_from_spec() -> bool {
        true
    }

    open spec fn from_spec(_value: core::num::TryFromIntError) -> Self {
        TomlToRgbaError::IntConversionFail
    }
}

} // verus!
