//! Parsing of `#RRGGBB` / `#RRGGBBAA` colour strings into Skia's packed
//! `0xAARRGGBB` form.

use vstd::prelude::*;
use vstd::string::StringSliceAdditionalSpecFns;

verus! {

/// The byte `#`.
pub const HASH: u8 = 0x23;

/// The byte `+`.
pub const PLUS: u8 = 0x2b;

/// Skia's packing of four channels into one `0xAARRGGBB` word.
pub open spec fn argb(a: u8, r: u8, g: u8, b: u8) -> u32 {
    ((a as u32) << 24u32) | ((r as u32) << 16u32) | ((g as u32) << 8u32) | (b as u32)
}

/// Opaque white, the colour used when the text is not a colour.
pub open spec fn white() -> u32 {
    0xFFFF_FFFFu32
}

/// Calls `skia_rs::prelude::Color::from_argb` and returns the packed word it
/// builds. Claimed: the word is `a << 24 | r << 16 | g << 8 | b`, as the
/// function's one-line body in skia-rs-core shows.
#[verifier::external_body]
fn skia_color_from_argb(a: u8, r: u8, g: u8, b: u8) -> (c: u32)
    ensures
        c == argb(a, r, g, b),
{
    skia_rs::prelude::Color::from_argb(a, r, g, b).0
}

/// Reads the constant `skia_rs::prelude::Color::WHITE`. Claimed: its packed
/// word is `0xFFFF_FFFF`, as skia-rs-core defines it.
#[verifier::external_body]
fn skia_color_white() -> (c: u32)
    ensures
        c == white(),
{
    skia_rs::prelude::Color::WHITE.0
}

/// Whether `b` is an ASCII hexadecimal digit (`0-9`, `a-f`, `A-F`).
pub open spec fn is_hex_digit(b: u8) -> bool {
    ||| 0x30 <= b <= 0x39
    ||| 0x41 <= b <= 0x46
    ||| 0x61 <= b <= 0x66
}

/// The value of a hexadecimal digit.
pub open spec fn hex_digit_value(b: u8) -> u8
    recommends
        is_hex_digit(b),
{
    if b <= 0x39 {
        (b - 0x30) as u8
    } else if b <= 0x46 {
        (b - 0x41 + 10) as u8
    } else {
        (b - 0x61 + 10) as u8
    }
}

/// What `u8::from_str_radix(_, 16)` gives for a two-byte text `c0 c1`: two
/// hex digits, or a `+` sign followed by one hex digit; anything else is
/// refused.
pub open spec fn pair_value(c0: u8, c1: u8) -> Option<u8> {
    if c0 == PLUS {
        if is_hex_digit(c1) {
            Some(hex_digit_value(c1))
        } else {
            None
        }
    } else if is_hex_digit(c0) && is_hex_digit(c1) {
        Some((hex_digit_value(c0) * 16 + hex_digit_value(c1)) as u8)
    } else {
        None
    }
}

/// `s` without its leading `#` bytes.
pub open spec fn trim_hashes(s: Seq<u8>) -> Seq<u8>
    decreases s.len(),
{
    if s.len() > 0 && s[0] == HASH {
        trim_hashes(s.drop_first())
    } else {
        s
    }
}

/// The values of the first `k` two-byte chunks of `t` that parse, in order;
/// chunks that do not parse are skipped.
pub open spec fn pair_values_upto(t: Seq<u8>, k: nat) -> Seq<u8>
    decreases k,
{
    if k == 0 {
        Seq::empty()
    } else {
        let before = pair_values_upto(t, (k - 1) as nat);
        let i: int = 2 * (k - 1);
        match pair_value(t[i], t[i + 1]) {
            Some(v) => before.push(v),
            None => before,
        }
    }
}

/// The values of all two-byte chunks of `t` that parse.
pub open spec fn pair_values(t: Seq<u8>) -> Seq<u8> {
    pair_values_upto(t, t.len() / 2)
}

/// Whether a UTF-8 byte continues a character rather than starting one.
pub open spec fn is_continuation_byte(b: u8) -> bool {
    0x80 <= b < 0xC0
}

/// Whether cutting the (trimmed) text `t` into two-byte pieces is possible:
/// its length is even and every cut falls between two characters.
pub open spec fn splits_into_pairs(t: Seq<u8>) -> bool {
    &&& t.len() % 2 == 0
    &&& forall|i: int| 0 <= i < t.len() && i % 2 == 0 ==> !is_continuation_byte(#[trigger] t[i])
}

/// The colour that the UTF-8 text `s` denotes: after the leading `#`s, three
/// parsed pairs give an opaque `RRGGBB`, four give `RRGGBBAA`, anything
/// else gives white.
pub open spec fn spec_parse_hex_color(s: Seq<u8>) -> u32 {
    let v = pair_values(trim_hashes(s));
    if v.len() == 3 {
        argb(255, v[0], v[1], v[2])
    } else if v.len() == 4 {
        argb(v[3], v[0], v[1], v[2])
    } else {
        white()
    }
}

/// Whether `parse_hex_color` accepts `s`: the text after the leading `#`s
/// cuts into two-byte pieces.
pub open spec fn hex_color_input_ok(s: Seq<u8>) -> bool {
    splits_into_pairs(trim_hashes(s))
}

/// Stepping past one leading `#` does not change the trimmed text.
proof fn lemma_trim_step(s: Seq<u8>, k: int)
    requires
        0 <= k < s.len(),
        s[k] == HASH,
    ensures
        trim_hashes(s.skip(k)) == trim_hashes(s.skip(k + 1)),
{
    assert(s.skip(k).drop_first() =~= s.skip(k + 1));
}

/// The number of leading `#` bytes of `bytes`; the rest is the trimmed text.
fn leading_hashes(bytes: &[u8]) -> (n: usize)
    ensures
        n <= bytes@.len(),
        trim_hashes(bytes@) == bytes@.skip(n as int),
{
    let mut n: usize = 0;
    assert(bytes@.skip(0) =~= bytes@);
    while n < bytes.len() && bytes[n] == HASH
        invariant
            n <= bytes@.len(),
            trim_hashes(bytes@) == trim_hashes(bytes@.skip(n as int)),
        decreases bytes@.len() - n,
    {
        proof {
            lemma_trim_step(bytes@, n as int);
        }
        n = n + 1;
    }
    n
}

/// Hexadecimal value of one byte, or `None` when it is not a hex digit.
fn hex_digit(b: u8) -> (r: Option<u8>)
    ensures
        r == (if is_hex_digit(b) { Some(hex_digit_value(b)) } else { None::<u8> }),
{
    if 0x30 <= b && b <= 0x39 {
        Some(b - 0x30)
    } else if 0x41 <= b && b <= 0x46 {
        Some(b - 0x41 + 10)
    } else if 0x61 <= b && b <= 0x66 {
        Some(b - 0x61 + 10)
    } else {
        None
    }
}

/// Parses one two-byte piece as `u8::from_str_radix(_, 16)` does.
fn parse_pair(c0: u8, c1: u8) -> (r: Option<u8>)
    ensures
        r == pair_value(c0, c1),
{
    let d1 = hex_digit(c1);
    if c0 == PLUS {
        d1
    } else {
        match (hex_digit(c0), d1) {
            (Some(h), Some(l)) => Some(h * 16 + l),
            _ => None,
        }
    }
}

/// Whether `parse_hex_color` accepts `hex`: after the leading `#`s the text
/// has an even number of bytes and each two-byte piece starts a character.
pub fn hex_color_accepts(hex: &str) -> (ok: bool)
    ensures
        ok == hex_color_input_ok(hex.spec_bytes()),
{
    let bytes = hex.as_bytes();
    let start: usize = leading_hashes(bytes);
    let ghost t = bytes@.skip(start as int);
    let len: usize = bytes.len();
    if (len - start) % 2 != 0 {
        return false;
    }
    let mut i: usize = start;
    while i < len
        invariant
            start <= i <= len,
            len == bytes@.len(),
            t == bytes@.skip(start as int),
            t == trim_hashes(bytes@),
            bytes@ == hex.spec_bytes(),
            t.len() == len - start,
            (len - start) % 2 == 0,
            (i - start) % 2 == 0,
            forall|j: int| 0 <= j < i - start && j % 2 == 0 ==> !is_continuation_byte(#[trigger] t[j]),
        decreases len - i,
    {
        if 0x80 <= bytes[i] && bytes[i] < 0xC0 {
            let ghost j = i - start;
            assert(t[j] == bytes@[i as int]);
            assert(0 <= j < t.len() && j % 2 == 0 && is_continuation_byte(t[j]));
            assert(!splits_into_pairs(t));
            return false;
        }
        assert(t[i - start] == bytes@[i as int]);
        i = i + 2;
    }
    true
}

/// Parses a colour written as hexadecimal pairs, `#RRGGBB` or `#RRGGBBAA`
/// (any number of leading `#`), into Skia's packed `0xAARRGGBB` word.
/// Pieces that are not hexadecimal are skipped; when the count of parsed
/// pieces is neither three nor four the result is opaque white.
pub fn parse_hex_color(hex: &str) -> (c: u32)
    requires
        hex_color_input_ok(hex.spec_bytes()),
    ensures
        c == spec_parse_hex_color(hex.spec_bytes()),
{
    let bytes = hex.as_bytes();
    let start: usize = leading_hashes(bytes);
    let ghost t = bytes@.skip(start as int);
    let len: usize = bytes.len();
    let mut values: Vec<u8> = Vec::new();
    let mut i: usize = start;
    while i < len
        invariant
            start <= i <= len,
            len == bytes@.len(),
            t == bytes@.skip(start as int),
            t.len() % 2 == 0,
            (i - start) % 2 == 0,
            values@ == pair_values_upto(t, ((i - start) / 2) as nat),
        decreases len - i,
    {
        let ghost k: int = (i - start) / 2;
        assert(t[2 * k] == bytes@[i as int]);
        assert(t[2 * k + 1] == bytes@[i + 1]);
        if let Some(v) = parse_pair(bytes[i], bytes[i + 1]) {
            values.push(v);
        }
        i = i + 2;
        assert(((i - start) / 2) as nat == k + 1);
    }
    assert(((len - start) / 2) as nat == t.len() / 2);
    if values.len() == 3 {
        skia_color_from_argb(255, values[0], values[1], values[2])
    } else if values.len() == 4 {
        skia_color_from_argb(values[3], values[0], values[1], values[2])
    } else {
        skia_color_white()
    }
}

/// The colour a line of text is drawn in: the line's own colour when it
/// names one, `default_color` (the renderer's) otherwise.
pub fn line_color(own: Option<&str>, default_color: u32) -> (c: u32)
    requires
        own matches Some(s) ==> hex_color_input_ok(s.spec_bytes()),
    ensures
        c == (match own {
            Some(s) => spec_parse_hex_color(s.spec_bytes()),
            None => default_color,
        }),
{
    match own {
        Some(s) => parse_hex_color(s),
        None => default_color,
    }
}

/// The hexadecimal digit of `d` (below 16) in lower or upper case.
pub open spec fn hex_digit_char_cased(d: u8, upper: bool) -> u8
    recommends
        d < 16,
{
    if d < 10 {
        (0x30 + d) as u8
    } else if upper {
        (0x41 + d - 10) as u8
    } else {
        (0x61 + d - 10) as u8
    }
}

/// The lowercase hexadecimal digit of `d` (below 16).
pub open spec fn hex_digit_char(d: u8) -> u8
    recommends
        d < 16,
{
    hex_digit_char_cased(d, false)
}

/// The two hexadecimal digits of a byte in lower or upper case.
pub open spec fn hex_pair_cased(v: u8, upper: bool) -> Seq<u8> {
    seq![hex_digit_char_cased(v / 16, upper), hex_digit_char_cased(v % 16, upper)]
}

/// The two lowercase hexadecimal digits of a byte.
pub open spec fn hex_pair(v: u8) -> Seq<u8> {
    hex_pair_cased(v, false)
}

/// ASCII lowercase of a byte: `A`-`Z` become `a`-`z`, all else is kept.
pub open spec fn ascii_lower(b: u8) -> u8 {
    if 0x41 <= b <= 0x5A {
        (b + 0x20) as u8
    } else {
        b
    }
}

/// Every piece of two hexadecimal digits, each in either case, parses to
/// sixteen times the first digit plus the second.
pub proof fn lemma_digit_pair_value(d0: u8, d1: u8, upper0: bool, upper1: bool)
    requires
        d0 < 16,
        d1 < 16,
    ensures
        pair_value(hex_digit_char_cased(d0, upper0), hex_digit_char_cased(d1, upper1)) == Some(
            (16 * d0 + d1) as u8,
        ),
{
}

/// A `+` followed by one hexadecimal digit, in either case, parses to that
/// digit.
pub proof fn lemma_plus_digit_value(d: u8, upper: bool)
    requires
        d < 16,
    ensures
        pair_value(PLUS, hex_digit_char_cased(d, upper)) == Some(d),
{
}

/// Parsing a piece ignores the case of its letters.
pub proof fn lemma_pair_value_ignores_case(c0: u8, c1: u8)
    ensures
        pair_value(c0, c1) == pair_value(ascii_lower(c0), ascii_lower(c1)),
{
}

/// A piece parses only when it is two hexadecimal digits or `+` and one:
/// a first byte that is neither, or a second byte that is not a digit,
/// refuses it.
pub proof fn lemma_pair_value_refused(c0: u8, c1: u8)
    ensures
        !(0x30 <= c0 <= 0x39 || 0x41 <= c0 <= 0x46 || 0x61 <= c0 <= 0x66 || c0 == 0x2b)
            ==> pair_value(c0, c1) is None,
        !(0x30 <= c1 <= 0x39 || 0x41 <= c1 <= 0x46 || 0x61 <= c1 <= 0x66) ==> pair_value(
            c0,
            c1,
        ) is None,
{
}

/// The digits of a byte, in either case, parse back to the byte.
pub proof fn lemma_hex_pair_parses(v: u8)
    ensures
        hex_pair(v)[0] != HASH,
        !is_continuation_byte(hex_pair(v)[0]),
        pair_value(hex_pair(v)[0], hex_pair(v)[1]) == Some(v),
        pair_value(hex_pair_cased(v, true)[0], hex_pair_cased(v, true)[1]) == Some(v),
{
    lemma_hex_pair_cased_parses(v, false);
    lemma_hex_pair_cased_parses(v, true);
}

proof fn lemma_hex_pair_cased_parses(v: u8, upper: bool)
    ensures
        hex_pair_cased(v, upper)[0] != HASH,
        hex_pair_cased(v, upper)[0] < 0x80,
        pair_value(hex_pair_cased(v, upper)[0], hex_pair_cased(v, upper)[1]) == Some(v),
{
    assert(v / 16 < 16);
    assert(v % 16 < 16);
    lemma_digit_pair_value(v / 16, v % 16, upper, upper);
    assert(16 * (v / 16) + v % 16 == v);
}

/// Leading `#`s do not matter: one more in front of any text leaves both
/// whether it is accepted and the colour it denotes unchanged.
pub proof fn lemma_leading_hash_ignored(s: Seq<u8>)
    ensures
        hex_color_input_ok(seq![HASH] + s) == hex_color_input_ok(s),
        spec_parse_hex_color(seq![HASH] + s) == spec_parse_hex_color(s),
{
    assert((seq![HASH] + s).drop_first() =~= s);
}

/// The digits of each byte of `v` in lower or upper case, one pair after
/// the other.
pub open spec fn digits_cased(v: Seq<u8>, upper: bool) -> Seq<u8>
    decreases v.len(),
{
    if v.len() == 0 {
        Seq::empty()
    } else {
        digits_cased(v.drop_last(), upper) + hex_pair_cased(v.last(), upper)
    }
}

/// The lowercase digits of each byte of `v`, one pair after the other.
pub open spec fn digits_of(v: Seq<u8>) -> Seq<u8> {
    digits_cased(v, false)
}

proof fn lemma_digits_len(v: Seq<u8>, upper: bool)
    ensures
        digits_cased(v, upper).len() == 2 * v.len(),
    decreases v.len(),
{
    if v.len() > 0 {
        lemma_digits_len(v.drop_last(), upper);
    }
}

proof fn lemma_digits_index(v: Seq<u8>, upper: bool, i: int)
    requires
        0 <= i < v.len(),
    ensures
        digits_cased(v, upper)[2 * i] == hex_pair_cased(v[i], upper)[0],
        digits_cased(v, upper)[2 * i + 1] == hex_pair_cased(v[i], upper)[1],
    decreases v.len(),
{
    lemma_digits_len(v, upper);
    lemma_digits_len(v.drop_last(), upper);
    if i < v.len() - 1 {
        lemma_digits_index(v.drop_last(), upper, i);
    }
}

proof fn lemma_pair_values_upto_digits(v: Seq<u8>, upper: bool, k: nat)
    requires
        k <= v.len(),
        digits_cased(v, upper).len() == 2 * v.len(),
        forall|i: int|
            0 <= i < v.len() ==> #[trigger] pair_value(
                digits_cased(v, upper)[2 * i],
                digits_cased(v, upper)[2 * i + 1],
            ) == Some(v[i]),
    ensures
        pair_values_upto(digits_cased(v, upper), k) == v.take(k as int),
    decreases k,
{
    if k > 0 {
        lemma_pair_values_upto_digits(v, upper, (k - 1) as nat);
        let i: int = k - 1;
        assert(pair_value(digits_cased(v, upper)[2 * i], digits_cased(v, upper)[2 * i + 1])
            == Some(v[i]));
        assert(v.take(k as int) =~= v.take(i).push(v[i]));
    }
}

/// The text of the digits of `v` is accepted, keeps no leading `#`, and
/// its pieces parse to `v`.
proof fn lemma_pairs_of_digits(v: Seq<u8>, upper: bool)
    ensures
        ({
            let t = digits_cased(v, upper);
            &&& t.len() == 2 * v.len()
            &&& trim_hashes(t) == t
            &&& splits_into_pairs(t)
            &&& pair_values(t) == v
        }),
{
    let t = digits_cased(v, upper);
    lemma_digits_len(v, upper);
    assert forall|i: int| 0 <= i < v.len() implies #[trigger] pair_value(t[2 * i], t[2 * i + 1])
        == Some(v[i]) by {
        lemma_digits_index(v, upper, i);
        lemma_hex_pair_cased_parses(v[i], upper);
    }
    assert forall|i: int| 0 <= i < t.len() && i % 2 == 0 implies !is_continuation_byte(
        #[trigger] t[i],
    ) by {
        let j: int = i / 2;
        assert(i == 2 * j);
        lemma_digits_index(v, upper, j);
        lemma_hex_pair_cased_parses(v[j], upper);
    }
    if v.len() > 0 {
        lemma_hex_pair_cased_parses(v[0], upper);
        lemma_digits_index(v, upper, 0);
    }
    lemma_pair_values_upto_digits(v, upper, v.len());
    assert(v.take(v.len() as int) =~= v);
}

/// Skia's packing, as arithmetic on the channels.
proof fn lemma_argb_value(a: u8, r: u8, g: u8, b: u8)
    ensures
        argb(a, r, g, b) as int == a as int * 0x100_0000 + r as int * 0x1_0000 + g as int
            * 0x100 + b as int,
{
    assert((((a as u32) << 24u32) | ((r as u32) << 16u32) | ((g as u32) << 8u32) | (b as u32))
        == (a as u32) * 0x100_0000u32 + (r as u32) * 0x1_0000u32 + (g as u32) * 0x100u32 + (
    b as u32)) by (bit_vector);
}

/// Writing the bytes `v` as hexadecimal digits (all lowercase or all
/// uppercase) after a `#` and parsing the text: it is accepted; three
/// bytes give the opaque colour `0xFF_v0_v1_v2`, four give
/// `0x_v3_v0_v1_v2`, any other number gives white.
pub proof fn lemma_digits_parse(v: Seq<u8>, upper: bool)
    ensures
        hex_color_input_ok(seq![HASH] + digits_cased(v, upper)),
        spec_parse_hex_color(seq![HASH] + digits_cased(v, upper)) as int == (if v.len() == 3 {
            0xFF00_0000 + v[0] as int * 0x1_0000 + v[1] as int * 0x100 + v[2] as int
        } else if v.len() == 4 {
            v[3] as int * 0x100_0000 + v[0] as int * 0x1_0000 + v[1] as int * 0x100 + v[2] as int
        } else {
            0xFFFF_FFFF
        }),
{
    lemma_pairs_of_digits(v, upper);
    lemma_leading_hash_ignored(digits_cased(v, upper));
    if v.len() == 3 {
        lemma_argb_value(255, v[0], v[1], v[2]);
    } else if v.len() == 4 {
        lemma_argb_value(v[3], v[0], v[1], v[2]);
    }
}

/// Writing an opaque colour as `#rrggbb` or `#RRGGBB` and parsing it gives
/// the colour back.
pub proof fn lemma_rgb_round_trip(r: u8, g: u8, b: u8)
    ensures
        hex_color_input_ok(seq![HASH] + digits_of(seq![r, g, b])),
        spec_parse_hex_color(seq![HASH] + digits_of(seq![r, g, b])) == argb(255, r, g, b),
        hex_color_input_ok(seq![HASH] + digits_cased(seq![r, g, b], true)),
        spec_parse_hex_color(seq![HASH] + digits_cased(seq![r, g, b], true)) == argb(255, r, g, b),
        argb(255, r, g, b) as int == 0xFF00_0000 + r as int * 0x1_0000 + g as int * 0x100
            + b as int,
{
    lemma_digits_parse(seq![r, g, b], false);
    lemma_digits_parse(seq![r, g, b], true);
    lemma_argb_value(255, r, g, b);
}

/// Writing a colour as `#rrggbbaa` or `#RRGGBBAA` and parsing it gives the
/// colour back.
pub proof fn lemma_rgba_round_trip(r: u8, g: u8, b: u8, a: u8)
    ensures
        hex_color_input_ok(seq![HASH] + digits_of(seq![r, g, b, a])),
        spec_parse_hex_color(seq![HASH] + digits_of(seq![r, g, b, a])) == argb(a, r, g, b),
        hex_color_input_ok(seq![HASH] + digits_cased(seq![r, g, b, a], true)),
        spec_parse_hex_color(seq![HASH] + digits_cased(seq![r, g, b, a], true)) == argb(
            a,
            r,
            g,
            b,
        ),
        argb(a, r, g, b) as int == a as int * 0x100_0000 + r as int * 0x1_0000 + g as int
            * 0x100 + b as int,
{
    lemma_digits_parse(seq![r, g, b, a], false);
    lemma_digits_parse(seq![r, g, b, a], true);
    lemma_argb_value(a, r, g, b);
}

/// Trimming drops exactly the leading run of `#` bytes: the result is what
/// follows the first `n` bytes, all `#`, and it does not start with `#`.
pub proof fn lemma_trim_hashes_drops_leading_run(s: Seq<u8>) -> (n: nat)
    ensures
        n <= s.len(),
        trim_hashes(s) == s.skip(n as int),
        forall|i: int| 0 <= i < n ==> s[i] == HASH,
        n < s.len() ==> s[n as int] != HASH,
    decreases s.len(),
{
    if s.len() > 0 && s[0] == HASH {
        let m = lemma_trim_hashes_drops_leading_run(s.drop_first());
        assert(s.drop_first().skip(m as int) =~= s.skip(m as int + 1));
        assert forall|i: int| 0 <= i < m + 1 implies s[i] == HASH by {
            if i > 0 {
                assert(s[i] == s.drop_first()[i - 1]);
            }
        }
        (m + 1) as nat
    } else {
        assert(s.skip(0) =~= s);
        0
    }
}

/// A text of ASCII bytes is accepted exactly when what follows its leading
/// `#`s has an even number of bytes: no ASCII byte is inside a character.
pub proof fn lemma_ascii_acceptance(s: Seq<u8>)
    requires
        forall|i: int| 0 <= i < s.len() ==> s[i] < 0x80,
    ensures
        hex_color_input_ok(s) <==> trim_hashes(s).len() % 2 == 0,
{
    let n = lemma_trim_hashes_drops_leading_run(s);
    let t = trim_hashes(s);
    assert forall|i: int| 0 <= i < t.len() implies #[trigger] t[i] < 0x80 by {
        assert(t[i] == s[i + n]);
    }
}

/// Any number of `#` bytes followed by an even number of ASCII bytes, the
/// first of which is not `#`, is accepted, and the `#`s are what trimming
/// removes.
pub proof fn lemma_hashes_then_ascii_accepted(k: nat, t: Seq<u8>)
    requires
        t.len() % 2 == 0,
        forall|i: int| 0 <= i < t.len() ==> t[i] < 0x80,
        t.len() > 0 ==> t[0] != HASH,
    ensures
        trim_hashes(Seq::new(k, |i: int| HASH) + t) == t,
        hex_color_input_ok(Seq::new(k, |i: int| HASH) + t),
{
    let s = Seq::new(k, |i: int| HASH) + t;
    let n = lemma_trim_hashes_drops_leading_run(s);
    if n < k {
        assert(s[n as int] == HASH);
    }
    if n > k {
        assert(s[k as int] == HASH);
        assert(s[k as int] == t[0]);
    }
    assert(n == k);
    assert(s.skip(k as int) =~= t);
    lemma_ascii_acceptance(s);
}

proof fn lemma_pair_values_shift(c0: u8, c1: u8, s: Seq<u8>, k: nat)
    requires
        pair_value(c0, c1) is None,
        2 * k <= s.len(),
    ensures
        pair_values_upto(seq![c0, c1] + s, k + 1) == pair_values_upto(s, k),
    decreases k,
{
    let t = seq![c0, c1] + s;
    if k == 0 {
        assert(pair_values_upto(t, 0) =~= Seq::<u8>::empty());
    } else {
        lemma_pair_values_shift(c0, c1, s, (k - 1) as nat);
        let i: int = 2 * (k - 1);
        assert(t[i + 2] == s[i]);
        assert(t[i + 3] == s[i + 1]);
    }
}

/// A piece that does not parse is skipped: putting one in front of a text
/// (that does not start with `#`) changes neither the colour nor, for
/// ASCII bytes, whether the text is accepted.
pub proof fn lemma_refused_piece_skipped(c0: u8, c1: u8, s: Seq<u8>)
    requires
        c0 != HASH,
        pair_value(c0, c1) is None,
        s.len() > 0 ==> s[0] != HASH,
    ensures
        spec_parse_hex_color(seq![c0, c1] + s) == spec_parse_hex_color(s),
        c0 < 0x80 ==> hex_color_input_ok(seq![c0, c1] + s) == hex_color_input_ok(s),
{
    let t = seq![c0, c1] + s;
    assert(trim_hashes(t) == t);
    assert(trim_hashes(s) == s);
    lemma_pair_values_shift(c0, c1, s, s.len() / 2);
    assert(t.len() / 2 == s.len() / 2 + 1);
    if c0 < 0x80 {
        if splits_into_pairs(s) {
            assert forall|i: int| 0 <= i < t.len() && i % 2 == 0 implies !is_continuation_byte(
                #[trigger] t[i],
            ) by {
                if i >= 2 {
                    assert(t[i] == s[i - 2]);
                }
            }
        }
        if splits_into_pairs(t) {
            assert forall|i: int| 0 <= i < s.len() && i % 2 == 0 implies !is_continuation_byte(
                #[trigger] s[i],
            ) by {
                assert(t[i + 2] == s[i]);
            }
        }
    }
}

} // verus!
