use vstd::prelude::*;
use vstd::std_specs::iter::IteratorSpec;

verus! {

// ---------------------------------------------------------------------------
// std functions that vstd leaves unspecified
// ---------------------------------------------------------------------------

/// `String::push` appends one character to the end of the string.
pub assume_specification[ std::string::String::push ](string: &mut std::string::String, ch: char)
    ensures
        final(string)@ == old(string)@.push(ch),
;

/// `String::push_str` appends a string slice to the end of the string.
pub assume_specification[ std::string::String::push_str ](string: &mut std::string::String, s: &str)
    ensures
        final(string)@ == old(string)@ + s@,
;

/// `char::from_u32` returns the character with the given code point, or `None`
/// when the value is not a Unicode scalar value.
pub assume_specification[ char::from_u32 ](i: u32) -> (res: Option<char>)
    ensures
        res is Some <==> is_scalar_value(i as int),
        res matches Some(c) ==> c as u32 == i,
;

// ---------------------------------------------------------------------------
// Characters, UTF-8 widths and UTF-16 code units
// ---------------------------------------------------------------------------

/// A Unicode scalar value: a code point that is not a surrogate.
pub open spec fn is_scalar_value(v: int) -> bool {
    (0 <= v < 0xD800) || (0xE000 <= v <= 0x10FFFF)
}

pub open spec fn is_ascii_char(c: char) -> bool {
    (c as u32) < 0x80
}

/// The number of bytes that the UTF-8 encoding of `c` takes.
pub open spec fn utf8_width(c: char) -> int {
    if (c as u32) < 0x80 {
        1
    } else if (c as u32) < 0x800 {
        2
    } else if (c as u32) < 0x10000 {
        3
    } else {
        4
    }
}

pub open spec fn is_surrogate(u: u16) -> bool {
    0xD800 <= u <= 0xDFFF
}

pub open spec fn is_high_surrogate(u: u16) -> bool {
    0xD800 <= u <= 0xDBFF
}

pub open spec fn is_low_surrogate(u: u16) -> bool {
    0xDC00 <= u <= 0xDFFF
}

/// The code point that a high and a low surrogate stand for together.
pub open spec fn surrogate_pair_value(high: u16, low: u16) -> int {
    0x10000 + (high - 0xD800) * 0x400 + (low - 0xDC00)
}

/// The UTF-16 code units of a character: one unit below U+10000, else a
/// high surrogate followed by a low surrogate.
pub open spec fn utf16_units(c: char) -> Seq<u16> {
    let v = c as u32;
    if v < 0x10000 {
        seq![v as u16]
    } else {
        seq![(0xD800 + (v - 0x10000) / 0x400) as u16, (0xDC00 + (v - 0x10000) % 0x400) as u16]
    }
}

// ---------------------------------------------------------------------------
// Hexadecimal fields
// ---------------------------------------------------------------------------

pub open spec fn is_hex_digit(c: char) -> bool {
    ('0' <= c <= '9') || ('a' <= c <= 'f') || ('A' <= c <= 'F')
}

pub open spec fn hex_digit_value(c: char) -> int {
    if '0' <= c <= '9' {
        c as int - '0' as int
    } else if 'a' <= c <= 'f' {
        c as int - 'a' as int + 10
    } else {
        c as int - 'A' as int + 10
    }
}

pub open spec fn all_hex_digits(d: Seq<char>) -> bool {
    forall|j: int| 0 <= j < d.len() ==> is_hex_digit(#[trigger] d[j])
}

/// The number that a sequence of hexadecimal digits denotes.
pub open spec fn hex_value(d: Seq<char>) -> int
    decreases d.len(),
{
    if d.len() == 0 {
        0
    } else {
        hex_value(d.drop_last()) * 16 + hex_digit_value(d.last())
    }
}

pub open spec fn pow16(n: nat) -> int
    decreases n,
{
    if n == 0 {
        1
    } else {
        16 * pow16((n - 1) as nat)
    }
}

/// The lowercase hexadecimal digit for `d` (`0 <= d < 16`).
pub open spec fn lower_hex_digit(d: int) -> char {
    if d < 10 {
        (48 + d) as char
    } else {
        (87 + d) as char
    }
}

/// Four lowercase hexadecimal digits, zero-padded, for a code unit.
pub open spec fn lower_hex4(u: u16) -> Seq<char> {
    seq![
        lower_hex_digit(u as int / 4096),
        lower_hex_digit((u as int / 256) % 16),
        lower_hex_digit((u as int / 16) % 16),
        lower_hex_digit(u as int % 16),
    ]
}

// ---------------------------------------------------------------------------
// The escape format: `\u` followed by four hexadecimal characters
// ---------------------------------------------------------------------------

/// The code unit written by an escape at the start of `s`, if `s` starts with
/// one: a backslash, a `u`, and a four-character field that `u16::from_str_radix`
/// accepts in base 16 (four hexadecimal digits, or a `+` and three of them).
pub open spec fn escape_unit(s: Seq<char>) -> Option<u16> {
    if s.len() >= 6 && s[0] == '\\' && s[1] == 'u' {
        let field = s.subrange(2, 6);
        let digits = if field[0] == '+' {
            field.skip(1)
        } else {
            field
        };
        if all_hex_digits(digits) {
            Some(hex_value(digits) as u16)
        } else {
            None
        }
    } else {
        None
    }
}

/// `s` holds a well-formed escape at position `i`.
pub open spec fn has_escape_at(s: Seq<char>, i: int) -> bool {
    0 <= i < s.len() && escape_unit(s.skip(i)) is Some
}

pub open spec fn contains_escape(s: Seq<char>) -> bool {
    exists|i: int| has_escape_at(s, i)
}

/// The text of one escape for a code unit, in lowercase.
pub open spec fn unit_escape(u: u16) -> Seq<char> {
    seq!['\\', 'u'] + lower_hex4(u)
}

/// What a character becomes in escaped text: itself when it is ASCII,
/// otherwise one escape per UTF-16 code unit.
pub open spec fn escaped_char(c: char) -> Seq<char> {
    if is_ascii_char(c) {
        seq![c]
    } else if utf16_units(c).len() == 1 {
        unit_escape(utf16_units(c)[0])
    } else {
        unit_escape(utf16_units(c)[0]) + unit_escape(utf16_units(c)[1])
    }
}

/// Escaped text: every character replaced by `escaped_char` of it.
pub open spec fn escaped(s: Seq<char>) -> Seq<char>
    decreases s.len(),
{
    if s.len() == 0 {
        Seq::empty()
    } else {
        escaped(s.drop_last()) + escaped_char(s.last())
    }
}

/// Text with its escapes decoded.  An escape of a code unit that is not a
/// surrogate becomes that character; an escape of a high surrogate directly
/// followed by an escape of a low surrogate becomes the character that the pair
/// encodes; any other escape (a lone surrogate) stays as it was written.
/// Everything else is kept.
pub open spec fn unescaped(s: Seq<char>) -> Seq<char>
    decreases s.len(),
{
    if s.len() == 0 {
        Seq::empty()
    } else if s.len() >= 6 && escape_unit(s) is Some {
        let u = escape_unit(s)->0;
        if !is_surrogate(u) {
            seq![(u as u32) as char] + unescaped(s.skip(6))
        } else if is_high_surrogate(u) && s.len() >= 12 && escape_unit(s.skip(6)) is Some
            && is_low_surrogate(escape_unit(s.skip(6))->0) {
            seq![surrogate_pair_value(u, escape_unit(s.skip(6))->0) as char] + unescaped(
                s.skip(12),
            )
        } else {
            s.take(6) + unescaped(s.skip(6))
        }
    } else {
        seq![s[0]] + unescaped(s.drop_first())
    }
}

/// Whether cutting `t` after `n` bytes of its UTF-8 encoding falls between two
/// characters (or past its end).
pub open spec fn cut_between_chars(t: Seq<char>, n: int) -> bool
    decreases t.len(),
{
    if n <= 0 || t.len() == 0 {
        true
    } else if utf8_width(t[0]) > n {
        false
    } else {
        cut_between_chars(t.drop_first(), n - utf8_width(t[0]))
    }
}

/// The inputs that the escape decoder accepts: after every `\u`, the next
/// four bytes of UTF-8 end on a character boundary (or the text ends first).
pub open spec fn escapes_sliceable(s: Seq<char>) -> bool {
    forall|i: int|
        0 <= i && i + 1 < s.len() && #[trigger] s[i] == '\\' && s[i + 1] == 'u'
            ==> cut_between_chars(s.skip(i + 2), 4)
}

// ---------------------------------------------------------------------------
// Note names
// ---------------------------------------------------------------------------

/// The name of a pitch class, `0` being C.
pub open spec fn pitch_class_name(n: int) -> Seq<char> {
    if n == 0 {
        seq!['C']
    } else if n == 1 {
        seq!['C', '#']
    } else if n == 2 {
        seq!['D']
    } else if n == 3 {
        seq!['D', '#']
    } else if n == 4 {
        seq!['E']
    } else if n == 5 {
        seq!['F']
    } else if n == 6 {
        seq!['F', '#']
    } else if n == 7 {
        seq!['G']
    } else if n == 8 {
        seq!['G', '#']
    } else if n == 9 {
        seq!['A']
    } else if n == 10 {
        seq!['A', '#']
    } else {
        seq!['B']
    }
}

/// Decimal digits of a natural number, without leading zeros.
pub open spec fn decimal(n: nat) -> Seq<char>
    decreases n,
{
    if n < 10 {
        seq![(48 + n) as char]
    } else {
        decimal(n / 10) + seq![(48 + n % 10) as char]
    }
}

/// Decimal text of an integer, with a minus sign when it is negative.
pub open spec fn signed_decimal(i: int) -> Seq<char> {
    if i < 0 {
        seq!['-'] + decimal((-i) as nat)
    } else {
        decimal(i as nat)
    }
}

/// The name of a MIDI note: its pitch class and its octave, note 60 being C3.
pub open spec fn note_name(note: u8) -> Seq<char> {
    pitch_class_name(note as int % 12) + signed_decimal(note as int / 12 - 2)
}

// ---------------------------------------------------------------------------
// Executable code
// ---------------------------------------------------------------------------

fn chars_of(s: &str) -> (v: Vec<char>)
    ensures
        v@ == s@,
{
    broadcast use vstd::string::group_string_axioms;

    let mut v: Vec<char> = Vec::new();
    for c in iter: s.chars()
        invariant
            v@ == iter.seq().take(iter.index()),
            iter.seq() == s@,
    {
        v.push(c);
    }
    v
}

/// Returns the name of a MIDI note number, such as `C3` for 60 and `C-2` for 0.
pub fn note_friendly_name(note: &u8) -> (res: String)
    ensures
        res@ == note_name(*note),
{
    let n = *note;
    let pitch = n % 12;
    let mut result = String::new();
    if pitch == 0 || pitch == 1 {
        result.push('C');
    } else if pitch == 2 || pitch == 3 {
        result.push('D');
    } else if pitch == 4 {
        result.push('E');
    } else if pitch == 5 || pitch == 6 {
        result.push('F');
    } else if pitch == 7 || pitch == 8 {
        result.push('G');
    } else if pitch == 9 || pitch == 10 {
        result.push('A');
    } else {
        result.push('B');
    }
    if pitch == 1 || pitch == 3 || pitch == 6 || pitch == 8 || pitch == 10 {
        result.push('#');
    }
    let octave_index = n / 12;
    if octave_index < 2 {
        result.push('-');
        let digit = 2 - octave_index;
        result.push((48u8 + digit) as char);
    } else {
        let octave = octave_index - 2;
        if octave >= 10 {
            result.push((48u8 + octave / 10) as char);
        }
        result.push((48u8 + octave % 10) as char);
    }
    proof {
        reveal_with_fuel(decimal, 2);
    }
    result
}

fn lower_hex_digit_char(d: u16) -> (c: char)
    requires
        d < 16,
    ensures
        c == lower_hex_digit(d as int),
{
    if d < 10 {
        (48u8 + d as u8) as char
    } else {
        (87u8 + d as u8) as char
    }
}

fn push_unit_escape(out: &mut String, u: u16)
    ensures
        final(out)@ == old(out)@ + unit_escape(u),
{
    out.push('\\');
    out.push('u');
    out.push(lower_hex_digit_char(u / 4096));
    out.push(lower_hex_digit_char((u / 256) % 16));
    out.push(lower_hex_digit_char((u / 16) % 16));
    out.push(lower_hex_digit_char(u % 16));
    assert(final(out)@ =~= old(out)@ + unit_escape(u));
}

fn push_escaped_char(out: &mut String, c: char)
    ensures
        final(out)@ == old(out)@ + escaped_char(c),
{
    broadcast use vstd::utf8::char_is_scalar;

    let v = c as u32;
    if v < 0x80 {
        out.push(c);
    } else if v < 0x10000 {
        push_unit_escape(out, v as u16);
    } else {
        let w = v - 0x10000;
        push_unit_escape(out, (0xD800 + w / 0x400) as u16);
        push_unit_escape(out, (0xDC00 + w % 0x400) as u16);
        assert(final(out)@ =~= old(out)@ + escaped_char(c));
    }
}

/// Writes every non-ASCII character of `s` as `\u` escapes of its UTF-16 code
/// units, in four lowercase hexadecimal digits; ASCII characters stay as they are.
pub fn encode_unicode_escapes(s: &str) -> (res: String)
    ensures
        res@ == escaped(s@),
{
    broadcast use vstd::string::group_string_axioms;

    let mut result = String::new();
    for c in iter: s.chars()
        invariant
            result@ == escaped(iter.seq().take(iter.index())),
            iter.seq() == s@,
    {
        let ghost before = iter.seq().take(iter.index());
        push_escaped_char(&mut result, c);
        proof {
            let after = iter.seq().take(iter.index() + 1);
            assert(after.drop_last() =~= before);
        }
    }
    proof {
        assert(s@.take(s@.len() as int) =~= s@);
    }
    result
}

fn hex_digit(c: char) -> (r: Option<u32>)
    ensures
        r is Some <==> is_hex_digit(c),
        r matches Some(v) ==> v == hex_digit_value(c) && v < 16,
{
    if '0' <= c && c <= '9' {
        Some(c as u32 - 48)
    } else if 'a' <= c && c <= 'f' {
        Some(c as u32 - 87)
    } else if 'A' <= c && c <= 'F' {
        Some(c as u32 - 55)
    } else {
        None
    }
}

/// The code unit of the escape that starts at position `i`, if one does.
fn unit_at(chars: &Vec<char>, i: usize) -> (r: Option<u16>)
    requires
        i <= chars.len(),
    ensures
        r == escape_unit(chars@.skip(i as int)),
{
    let ghost rest = chars@.skip(i as int);
    if chars.len() - i < 6 || chars[i] != '\\' || chars[i + 1] != 'u' {
        return None;
    }
    let start = if chars[i + 2] == '+' {
        i + 3
    } else {
        i + 2
    };
    let ghost field = rest.subrange(2, 6);
    let ghost digits = if field[0] == '+' {
        field.skip(1)
    } else {
        field
    };
    assert(digits =~= chars@.subrange(start as int, i + 6));
    assert(escape_unit(rest) == (if all_hex_digits(digits) {
        Some(hex_value(digits) as u16)
    } else {
        None
    }));
    let mut val: u32 = 0;
    let mut j = start;
    while j < i + 6
        invariant
            start <= j <= i + 6,
            start >= i + 2,
            i + 6 <= chars.len(),
            digits == chars@.subrange(start as int, i + 6),
            rest == chars@.skip(i as int),
            escape_unit(rest) == (if all_hex_digits(digits) {
                Some(hex_value(digits) as u16)
            } else {
                None
            }),
            all_hex_digits(chars@.subrange(start as int, j as int)),
            val == hex_value(chars@.subrange(start as int, j as int)),
            val < pow16((j - start) as nat),
        decreases i + 6 - j,
    {
        let ghost prefix = chars@.subrange(start as int, j as int);
        let ghost next = chars@.subrange(start as int, j + 1);
        match hex_digit(chars[j]) {
            None => {
                assert(digits[j - start] == chars@[j as int]);
                assert(!is_hex_digit(digits[j - start]));
                return None;
            },
            Some(d) => {
                proof {
                    reveal_with_fuel(pow16, 5);
                    assert(next.drop_last() =~= prefix);
                    assert(next.last() == chars@[j as int]);
                    assert(pow16((j + 1 - start) as nat) == 16 * pow16((j - start) as nat));
                }
                val = val * 16 + d;
                j = j + 1;
            },
        }
    }
    proof {
        reveal_with_fuel(pow16, 5);
    }
    Some(val as u16)
}

fn push_range(out: &mut String, chars: &Vec<char>, from: usize, to: usize)
    requires
        from <= to <= chars.len(),
    ensures
        final(out)@ == old(out)@ + chars@.subrange(from as int, to as int),
{
    let mut k = from;
    while k < to
        invariant
            from <= k <= to <= chars.len(),
            out@ == old(out)@ + chars@.subrange(from as int, k as int),
        decreases to - k,
    {
        out.push(chars[k]);
        k = k + 1;
        assert(out@ =~= old(out)@ + chars@.subrange(from as int, k as int));
    }
}

/// Decodes the `\u` escapes of UTF-16 code units in `s` (see `unescaped`).
pub fn decode_unicode_escapes(s: &str) -> (res: String)
    requires
        escapes_sliceable(s@),
    ensures
        res@ == unescaped(s@),
{
    broadcast use vstd::utf8::char_u32_cast;

    let chars = chars_of(s);
    let mut result = String::new();
    let mut i: usize = 0;
    assert(chars@.skip(0) =~= chars@);
    while i < chars.len()
        invariant
            i <= chars.len(),
            chars@ == s@,
            unescaped(chars@) == result@ + unescaped(chars@.skip(i as int)),
        decreases chars.len() - i,
    {
        let ghost rest = chars@.skip(i as int);
        let ghost before = result@;
        match unit_at(&chars, i) {
            Some(u) => {
                assert(rest.skip(6) =~= chars@.skip(i + 6));
                if u < 0xD800 || u > 0xDFFF {
                    let c = char::from_u32(u as u32).unwrap();
                    result.push(c);
                    proof {
                        vstd::utf8::char_u32_cast(c, u as u32);
                    }
                    assert(rest.len() >= 6);
                    assert(!is_surrogate(u));
                    assert(unescaped(rest) == seq![c] + unescaped(rest.skip(6)));
                    assert(result@ + unescaped(chars@.skip(i + 6)) =~= before + unescaped(rest));
                    i = i + 6;
                } else if u <= 0xDBFF {
                    match unit_at(&chars, i + 6) {
                        Some(v) => {
                            if 0xDC00 <= v && v <= 0xDFFF {
                                assert(rest.skip(12) =~= chars@.skip(i + 12));
                                assert(rest.skip(6).skip(6) =~= rest.skip(12));
                                let code: u32 = 0x10000 + (u as u32 - 0xD800) * 0x400 + (v as u32
                                    - 0xDC00);
                                let c = char::from_u32(code).unwrap();
                                result.push(c);
                                proof {
                                    vstd::utf8::char_u32_cast(c, code);
                                    assert(code == surrogate_pair_value(u, v));
                                    assert(unescaped(rest) == seq![c] + unescaped(rest.skip(12)));
                                    assert(result@ + unescaped(chars@.skip(i + 12)) =~= before
                                        + unescaped(rest));
                                }
                                i = i + 12;
                            } else {
                                assert(rest.take(6) =~= chars@.subrange(i as int, i + 6));
                                push_range(&mut result, &chars, i, i + 6);
                                assert(unescaped(rest) == rest.take(6) + unescaped(rest.skip(6)));
                                assert(result@ + unescaped(chars@.skip(i + 6)) =~= before
                                    + unescaped(rest));
                                i = i + 6;
                            }
                        },
                        None => {
                            assert(rest.take(6) =~= chars@.subrange(i as int, i + 6));
                            push_range(&mut result, &chars, i, i + 6);
                            assert(unescaped(rest) == rest.take(6) + unescaped(rest.skip(6)));
                            assert(result@ + unescaped(chars@.skip(i + 6)) =~= before
                                + unescaped(rest));
                            i = i + 6;
                        },
                    }
                } else {
                    assert(rest.take(6) =~= chars@.subrange(i as int, i + 6));
                    push_range(&mut result, &chars, i, i + 6);
                    assert(unescaped(rest) == rest.take(6) + unescaped(rest.skip(6)));
                    assert(result@ + unescaped(chars@.skip(i + 6)) =~= before + unescaped(rest));
                    i = i + 6;
                }
            },
            None => {
                assert(rest.drop_first() =~= chars@.skip(i + 1));
                result.push(chars[i]);
                assert(unescaped(rest) == seq![rest[0]] + unescaped(rest.drop_first()));
                assert(result@ + unescaped(chars@.skip(i + 1)) =~= before + unescaped(rest));
                i = i + 1;
            },
        }
    }
    proof {
        assert(chars@.skip(0) =~= chars@);
    }
    result
}

// ---------------------------------------------------------------------------
// Lemmas
// ---------------------------------------------------------------------------

proof fn lemma_lower_hex_digit(d: int)
    requires
        0 <= d < 16,
    ensures
        is_hex_digit(lower_hex_digit(d)),
        hex_digit_value(lower_hex_digit(d)) == d,
        lower_hex_digit(d) != '+',
        lower_hex_digit(d) != '\\',
        is_ascii_char(lower_hex_digit(d)),
{
}

proof fn lemma_unit_escape_decodes(u: u16, rest: Seq<char>)
    ensures
        escape_unit(unit_escape(u) + rest) == Some(u),
        (unit_escape(u) + rest).skip(6) == rest,
{
    let s = unit_escape(u) + rest;
    let d0 = u as int / 4096;
    let d1 = (u as int / 256) % 16;
    let d2 = (u as int / 16) % 16;
    let d3 = u as int % 16;
    lemma_lower_hex_digit(d0);
    lemma_lower_hex_digit(d1);
    lemma_lower_hex_digit(d2);
    lemma_lower_hex_digit(d3);
    let field = s.subrange(2, 6);
    assert(field =~= lower_hex4(u));
    assert(all_hex_digits(field));
    reveal_with_fuel(hex_value, 5);
    assert(field.drop_last().drop_last().drop_last().drop_last() =~= Seq::<char>::empty());
    assert(hex_value(field) == ((d0 * 16 + d1) * 16 + d2) * 16 + d3);
    assert(((d0 * 16 + d1) * 16 + d2) * 16 + d3 == u as int);
    assert(s.skip(6) =~= rest);
}

proof fn lemma_escaped_concat(a: Seq<char>, b: Seq<char>)
    ensures
        escaped(a + b) == escaped(a) + escaped(b),
    decreases b.len(),
{
    if b.len() == 0 {
        assert(a + b =~= a);
        assert(escaped(a) + escaped(b) =~= escaped(a));
    } else {
        lemma_escaped_concat(a, b.drop_last());
        assert((a + b).drop_last() =~= a + b.drop_last());
        assert((a + b).last() == b.last());
        assert(escaped(a + b) =~= escaped(a) + escaped(b));
    }
}

proof fn lemma_escaped_first(s: Seq<char>)
    requires
        s.len() > 0,
    ensures
        escaped(s) == escaped_char(s[0]) + escaped(s.drop_first()),
{
    lemma_escaped_concat(seq![s[0]], s.drop_first());
    assert(seq![s[0]] + s.drop_first() =~= s);
    let one = seq![s[0]];
    assert(one.drop_last() =~= Seq::<char>::empty());
    assert(escaped(one.drop_last()) == Seq::<char>::empty());
    assert(one.last() == s[0]);
    assert(escaped(one) =~= escaped_char(s[0]));
}

proof fn lemma_unit_escape_ascii(u: u16)
    ensures
        forall|j: int| 0 <= j < unit_escape(u).len() ==> is_ascii_char(#[trigger] unit_escape(u)[j]),
        unit_escape(u).len() == 6,
        unit_escape(u)[0] == '\\',
{
    lemma_lower_hex_digit(u as int / 4096);
    lemma_lower_hex_digit((u as int / 256) % 16);
    lemma_lower_hex_digit((u as int / 16) % 16);
    lemma_lower_hex_digit(u as int % 16);
}

proof fn lemma_escaped_char_ascii(c: char)
    ensures
        forall|j: int| 0 <= j < escaped_char(c).len() ==> is_ascii_char(#[trigger] escaped_char(c)[j]),
        escaped_char(c).len() > 0,
        !is_ascii_char(c) ==> escaped_char(c)[0] == '\\',
{
    let v = c as u32;
    if !is_ascii_char(c) {
        let units = utf16_units(c);
        lemma_unit_escape_ascii(units[0]);
        if units.len() == 2 {
            lemma_unit_escape_ascii(units[1]);
        }
        if units.len() == 2 {
            let e0 = unit_escape(units[0]);
            let e1 = unit_escape(units[1]);
            assert forall|j: int| 0 <= j < escaped_char(c).len() implies is_ascii_char(
                #[trigger] escaped_char(c)[j],
            ) by {
                if j < 6 {
                    assert(escaped_char(c)[j] == e0[j]);
                } else {
                    assert(escaped_char(c)[j] == e1[j - 6]);
                }
            }
        }
    }
}

/// Escaped text consists of ASCII characters only.
pub proof fn lemma_escaped_is_ascii(s: Seq<char>)
    ensures
        forall|j: int| 0 <= j < escaped(s).len() ==> is_ascii_char(#[trigger] escaped(s)[j]),
    decreases s.len(),
{
    if s.len() > 0 {
        lemma_escaped_is_ascii(s.drop_last());
        lemma_escaped_char_ascii(s.last());
        let a = escaped(s.drop_last());
        let b = escaped_char(s.last());
        assert forall|j: int| 0 <= j < escaped(s).len() implies is_ascii_char(
            #[trigger] escaped(s)[j],
        ) by {
            if j < a.len() {
                assert(escaped(s)[j] == a[j]);
            } else {
                assert(escaped(s)[j] == b[j - a.len()]);
            }
        }
    }
}

proof fn lemma_utf16_units(c: char)
    requires
        !is_ascii_char(c),
    ensures
        (c as u32) < 0x10000 ==> {
            &&& utf16_units(c).len() == 1
            &&& !is_surrogate(utf16_units(c)[0])
            &&& ((utf16_units(c)[0] as u32) as char) == c
        },
        (c as u32) >= 0x10000 ==> {
            &&& utf16_units(c).len() == 2
            &&& is_high_surrogate(utf16_units(c)[0])
            &&& is_low_surrogate(utf16_units(c)[1])
            &&& (surrogate_pair_value(utf16_units(c)[0], utf16_units(c)[1]) as char) == c
        },
{
    let v = c as u32;
    vstd::utf8::char_is_scalar(c);
    vstd::utf8::char_u32_cast(c, v);
    if v >= 0x10000 {
        let w = (v - 0x10000) as int;
        vstd::arithmetic::div_mod::lemma_fundamental_div_mod(w, 0x400);
        assert(0 <= w % 0x400 < 0x400);
        assert(w / 0x400 < 0x400);
        let units = utf16_units(c);
        assert(surrogate_pair_value(units[0], units[1]) == v as int);
    }
}

/// As long as the first `m` characters of escaped text hold no backslash
/// after the first one, they are the first `m` characters of the text itself
/// (when that text starts with an ASCII character).
proof fn lemma_escaped_prefix(s: Seq<char>, m: int)
    requires
        0 <= m <= escaped(s).len(),
        forall|j: int| 1 <= j < m ==> #[trigger] escaped(s)[j] != '\\',
        m > 0 ==> is_ascii_char(s[0]),
    ensures
        m <= s.len(),
        s.take(m) == escaped(s).take(m),
    decreases m,
{
    if m == 0 {
        assert(s.take(0) =~= escaped(s).take(0));
    } else {
        if s.len() == 0 {
            assert(escaped(s) =~= Seq::<char>::empty());
        }
        lemma_escaped_first(s);
        let t = s.drop_first();
        let e = escaped(s);
        assert(escaped_char(s[0]) =~= seq![s[0]]);
        assert(forall|j: int| 0 <= j < escaped(t).len() ==> escaped(t)[j] == e[j + 1]);
        if m > 1 {
            if t.len() == 0 {
                assert(escaped(t) =~= Seq::<char>::empty());
            }
            lemma_escaped_first(t);
            lemma_escaped_char_ascii(t[0]);
            assert(e[1] == escaped(t)[0]);
            assert(escaped(t)[0] == escaped_char(t[0])[0]);
        }
        assert forall|j: int| 1 <= j < m - 1 implies #[trigger] escaped(t)[j] != '\\' by {
            assert(escaped(t)[j] == e[j + 1]);
        }
        lemma_escaped_prefix(t, m - 1);
        assert(e == seq![s[0]] + escaped(t));
        assert forall|k: int| 0 <= k < m implies s.take(m)[k] == e.take(m)[k] by {
            if k > 0 {
                assert(s[k] == t[k - 1]);
                assert(t.take(m - 1)[k - 1] == escaped(t).take(m - 1)[k - 1]);
            }
        }
        assert(s.take(m) =~= e.take(m));
    }
}

proof fn lemma_escape_unit_prefix(a: Seq<char>, b: Seq<char>)
    requires
        a.len() >= 6,
        b.len() >= 6,
        a.take(6) == b.take(6),
    ensures
        escape_unit(a) == escape_unit(b),
{
    assert(a[0] == a.take(6)[0]);
    assert(b[0] == b.take(6)[0]);
    assert(a[1] == a.take(6)[1]);
    assert(b[1] == b.take(6)[1]);
    assert(a.subrange(2, 6) =~= a.take(6).subrange(2, 6));
    assert(b.subrange(2, 6) =~= b.take(6).subrange(2, 6));
}

/// A text that starts with an ASCII character and holds no escape at its
/// start does not get one there by being escaped.
proof fn lemma_escaped_no_escape_at_start(s: Seq<char>)
    requires
        s.len() > 0,
        is_ascii_char(s[0]),
        !has_escape_at(s, 0),
    ensures
        escape_unit(escaped(s)) is None,
{
    let e = escaped(s);
    if escape_unit(e) is Some {
        let field = e.subrange(2, 6);
        assert forall|j: int| 1 <= j < 6 implies #[trigger] e[j] != '\\' by {
            if j >= 2 {
                assert(e[j] == field[j - 2]);
                if field[0] == '+' {
                    if j > 2 {
                        assert(field.skip(1)[j - 3] == field[j - 2]);
                    }
                } else {
                    assert(is_hex_digit(field[j - 2]));
                }
            }
        }
        lemma_escaped_prefix(s, 6);
        lemma_escape_unit_prefix(s, e);
        assert(s.skip(0) =~= s);
    }
}

proof fn lemma_ascii_cut(t: Seq<char>, n: int)
    requires
        forall|j: int| 0 <= j < t.len() ==> is_ascii_char(#[trigger] t[j]),
    ensures
        cut_between_chars(t, n),
    decreases t.len(),
{
    if n > 0 && t.len() > 0 {
        assert(is_ascii_char(t[0]));
        let rest = t.drop_first();
        assert forall|j: int| 0 <= j < rest.len() implies is_ascii_char(#[trigger] rest[j]) by {
            assert(rest[j] == t[j + 1]);
        }
        lemma_ascii_cut(rest, n - 1);
    }
}

/// Text made only of ASCII characters is always accepted by the decoder.
pub proof fn lemma_ascii_sliceable(s: Seq<char>)
    requires
        forall|j: int| 0 <= j < s.len() ==> is_ascii_char(#[trigger] s[j]),
    ensures
        escapes_sliceable(s),
{
    assert forall|i: int|
        0 <= i && i + 1 < s.len() && #[trigger] s[i] == '\\' && s[i + 1] == 'u' implies cut_between_chars(
        s.skip(i + 2),
        4,
    ) by {
        let t = s.skip(i + 2);
        assert forall|j: int| 0 <= j < t.len() implies is_ascii_char(#[trigger] t[j]) by {
            assert(t[j] == s[j + i + 2]);
        }
        lemma_ascii_cut(t, 4);
    }
}

/// Decoding the escapes of escaped text gives the text back, provided the
/// text does not itself hold a well-formed escape; and escaped text is always
/// accepted by the decoder.
pub proof fn lemma_decode_encode_roundtrip(s: Seq<char>)
    requires
        !contains_escape(s),
    ensures
        escapes_sliceable(escaped(s)),
        unescaped(escaped(s)) == s,
    decreases s.len(),
{
    lemma_escaped_is_ascii(s);
    lemma_ascii_sliceable(escaped(s));
    if s.len() == 0 {
        assert(escaped(s) =~= Seq::<char>::empty());
        assert(unescaped(escaped(s)) =~= s);
    } else {
        let t = s.drop_first();
        assert forall|i: int| !has_escape_at(t, i) by {
            if has_escape_at(t, i) {
                assert(t.skip(i) =~= s.skip(i + 1));
                assert(has_escape_at(s, i + 1));
            }
        }
        lemma_decode_encode_roundtrip(t);
        lemma_escaped_first(s);
        let e = escaped(s);
        let et = escaped(t);
        let c = s[0];
        if is_ascii_char(c) {
            assert(!has_escape_at(s, 0));
            lemma_escaped_no_escape_at_start(s);
            assert(e.drop_first() =~= et);
            assert(unescaped(e) == seq![c] + unescaped(e.drop_first()));
        } else {
            lemma_utf16_units(c);
            let units = utf16_units(c);
            if (c as u32) < 0x10000 {
                lemma_unit_escape_decodes(units[0], et);
                assert(unescaped(e) == seq![c] + unescaped(et));
            } else {
                let tail = unit_escape(units[1]) + et;
                lemma_unit_escape_decodes(units[0], tail);
                lemma_unit_escape_decodes(units[1], et);
                assert(e =~= unit_escape(units[0]) + tail);
                assert(e.skip(6).skip(6) =~= e.skip(12));
                assert(unescaped(e) == seq![c] + unescaped(et));
            }
        }
        assert(seq![c] + t =~= s);
    }
}

fn utf8_width_of(c: char) -> (w: u32)
    ensures
        w == utf8_width(c),
{
    let v = c as u32;
    if v < 0x80 {
        1
    } else if v < 0x800 {
        2
    } else if v < 0x10000 {
        3
    } else {
        4
    }
}

fn cut_after_four_bytes(chars: &Vec<char>, start: usize) -> (b: bool)
    requires
        start <= chars.len(),
    ensures
        b == cut_between_chars(chars@.skip(start as int), 4),
{
    let mut k = start;
    let mut n: u32 = 4;
    while n > 0 && k < chars.len()
        invariant
            start <= k <= chars.len(),
            n <= 4,
            cut_between_chars(chars@.skip(start as int), 4) == cut_between_chars(
                chars@.skip(k as int),
                n as int,
            ),
        decreases chars.len() - k,
    {
        let w = utf8_width_of(chars[k]);
        assert(chars@.skip(k as int)[0] == chars@[k as int]);
        if w > n {
            return false;
        }
        assert(chars@.skip(k as int).drop_first() =~= chars@.skip(k + 1));
        n = n - w;
        k = k + 1;
    }
    true
}

/// Whether `decode_unicode_escapes` accepts `s` (see `escapes_sliceable`).
pub fn escapes_are_sliceable(s: &str) -> (b: bool)
    ensures
        b == escapes_sliceable(s@),
{
    let chars = chars_of(s);
    let mut i: usize = 0;
    while i < chars.len() && i + 1 < chars.len()
        invariant
            chars@ == s@,
            i <= chars.len(),
            forall|j: int|
                0 <= j < i && j + 1 < chars.len() && #[trigger] chars@[j] == '\\' && chars@[j + 1]
                    == 'u' ==> cut_between_chars(chars@.skip(j + 2), 4),
        decreases chars.len() - i,
    {
        if chars[i] == '\\' && chars[i + 1] == 'u' && !cut_after_four_bytes(&chars, i + 2) {
            return false;
        }
        i = i + 1;
    }
    true
}

/// Decoding text that holds no well-formed escape leaves it as it is.
pub proof fn lemma_unescaped_without_escapes(s: Seq<char>)
    requires
        !contains_escape(s),
    ensures
        unescaped(s) == s,
    decreases s.len(),
{
    if s.len() > 0 {
        let t = s.drop_first();
        assert(s.skip(0) =~= s);
        assert(!has_escape_at(s, 0));
        assert forall|i: int| !has_escape_at(t, i) by {
            if has_escape_at(t, i) {
                assert(t.skip(i) =~= s.skip(i + 1));
                assert(has_escape_at(s, i + 1));
            }
        }
        lemma_unescaped_without_escapes(t);
        assert(seq![s[0]] + t =~= s);
    }
}

/// Escaping text made only of ASCII characters leaves it as it is.
pub proof fn lemma_escaped_ascii_identity(s: Seq<char>)
    requires
        forall|j: int| 0 <= j < s.len() ==> is_ascii_char(#[trigger] s[j]),
    ensures
        escaped(s) == s,
    decreases s.len(),
{
    if s.len() > 0 {
        let t = s.drop_last();
        assert forall|j: int| 0 <= j < t.len() implies is_ascii_char(#[trigger] t[j]) by {
            assert(t[j] == s[j]);
        }
        lemma_escaped_ascii_identity(t);
        assert(is_ascii_char(s.last()));
        assert(t + seq![s.last()] =~= s);
    }
}


/// The pitch class that a note name's first character and sharp sign stand for.
pub open spec fn pitch_class_of(first: char, sharp: bool) -> int {
    let natural: int = if first == 'C' {
        0
    } else if first == 'D' {
        2
    } else if first == 'E' {
        4
    } else if first == 'F' {
        5
    } else if first == 'G' {
        7
    } else if first == 'A' {
        9
    } else {
        11
    };
    if sharp {
        natural + 1
    } else {
        natural
    }
}

/// The value of an octave number of at most two digits, with an optional minus sign.
pub open spec fn octave_value(d: Seq<char>) -> int {
    if d.len() > 1 && d[0] == '-' {
        -(d[1] as int - 48)
    } else if d.len() == 1 {
        d[0] as int - 48
    } else {
        (d[0] as int - 48) * 10 + (d[1] as int - 48)
    }
}

/// The note that a note name stands for: its pitch class, then its octave.
pub open spec fn note_from_name(s: Seq<char>) -> int {
    let sharp: bool = s.len() > 1 && s[1] == '#';
    let pitch_len: int = if sharp {
        2
    } else {
        1
    };
    (octave_value(s.skip(pitch_len)) + 2) * 12 + pitch_class_of(s[0], sharp)
}

proof fn lemma_note_name_inverse(n: u8)
    ensures
        note_from_name(note_name(n)) == n,
{
    reveal_with_fuel(decimal, 2);
    let p: int = n as int % 12;
    let o: int = n as int / 12 - 2;
    let pitch = pitch_class_name(p);
    let digits = signed_decimal(o);
    let s = note_name(n);
    assert(s == pitch + digits);
    assert(-2 <= o <= 19);
    assert(digits.len() >= 1);
    assert(digits[0] != '#');
    assert(s.skip(pitch.len() as int) =~= digits);
    if o >= 10 {
        assert(decimal(o as nat) == decimal((o / 10) as nat) + seq![(48 + o % 10) as char]);
        assert(decimal((o / 10) as nat) == seq![(48 + o / 10) as char]);
    }
    assert(octave_value(digits) == o);
    assert(n as int == (o + 2) * 12 + p);
}

/// Different notes get different names.
pub proof fn lemma_note_names_distinct(a: u8, b: u8)
    requires
        a != b,
    ensures
        note_name(a) != note_name(b),
{
    lemma_note_name_inverse(a);
    lemma_note_name_inverse(b);
}

/// The value of a base-16 digit by its code point, in either case: `0`–`9`
/// are 0–9, `a`–`f` and `A`–`F` are 10–15; -1 for any other character.
pub open spec fn base16_digit(c: char) -> int {
    let v = c as int;
    if 48 <= v <= 57 {
        v - 48
    } else if 97 <= v <= 102 {
        v - 87
    } else if 65 <= v <= 70 {
        v - 55
    } else {
        -1
    }
}

/// The escape decoder takes exactly the base-16 digits, of either case, as
/// hexadecimal digits, each with its base-16 value.
pub proof fn lemma_hex_digits_are_base16(c: char)
    ensures
        is_hex_digit(c) <==> base16_digit(c) >= 0,
        is_hex_digit(c) ==> hex_digit_value(c) == base16_digit(c),
{
}

/// An escape `\u` followed by four base-16 digits, whichever case its letters
/// are written in, stands for the code unit that the digits denote.
pub proof fn lemma_escape_reads_either_case(d: Seq<char>)
    requires
        d.len() == 4,
        forall|j: int| 0 <= j < 4 ==> base16_digit(#[trigger] d[j]) >= 0,
    ensures
        escape_unit(seq!['\\', 'u'] + d) == Some(
            (base16_digit(d[0]) * 4096 + base16_digit(d[1]) * 256 + base16_digit(d[2]) * 16
                + base16_digit(d[3])) as u16,
        ),
{
    let s = seq!['\\', 'u'] + d;
    assert(s.subrange(2, 6) =~= d);
    assert(base16_digit(d[0]) >= 0);
    assert(d[0] != '+');
    assert forall|j: int| 0 <= j < d.len() implies is_hex_digit(#[trigger] d[j]) by {
        lemma_hex_digits_are_base16(d[j]);
    }
    lemma_hex_digits_are_base16(d[0]);
    lemma_hex_digits_are_base16(d[1]);
    lemma_hex_digits_are_base16(d[2]);
    lemma_hex_digits_are_base16(d[3]);
    let d3 = d.drop_last();
    let d2 = d3.drop_last();
    let d1 = d2.drop_last();
    let d0 = d1.drop_last();
    assert(d0.len() == 0);
    assert(d1.last() == d[0] && d2.last() == d[1] && d3.last() == d[2] && d.last() == d[3]);
    assert(hex_value(d0) == 0);
    assert(hex_value(d1) == hex_digit_value(d[0]));
    assert(hex_value(d2) == hex_value(d1) * 16 + hex_digit_value(d[1]));
    assert(hex_value(d3) == hex_value(d2) * 16 + hex_digit_value(d[2]));
    assert(hex_value(d) == hex_value(d3) * 16 + hex_digit_value(d[3]));
}

}
