//! Decoding of one input record into a structured event with a canonical key.

use vstd::prelude::*;
use vstd::string::StringSliceAdditionalSpecFns;

verus! {

/// Declares `data_encoding::DecodeError`, the error of a failed decode.
#[verifier::external_type_specification]
#[verifier::external_body]
pub struct ExDecodeError(data_encoding::DecodeError);

/// One decoded event: a creation (`input == false`) or a spend of an output.
pub struct InputLine {
    pub input: bool,
    pub height: u32,
    pub key: Vec<u8>,
}

/// Why a record could not be decoded.
#[derive(Debug, Clone, Copy, PartialEq, Eq, Structural)]
pub enum ParseError {
    /// The record holds fewer than four fields.
    MissingField,
    /// The height is not an unsigned 32-bit decimal integer.
    BadHeight,
    /// The transaction identifier is not lowercase hexadecimal.
    BadHex,
    /// The output index is not an unsigned 32-bit decimal integer.
    BadIndex,
}

pub open spec fn is_digit(b: u8) -> bool {
    48 <= b <= 57
}

/// Value of a sequence of decimal digits.
pub open spec fn digits_value(s: Seq<u8>) -> nat
    decreases s.len(),
{
    if s.len() == 0 {
        0
    } else {
        10 * digits_value(s.drop_last()) + (s.last() - 48) as nat
    }
}

/// The digits of a decimal field, without its optional leading `+`.
pub open spec fn unsigned_digits(s: Seq<u8>) -> Seq<u8> {
    if s.len() > 0 && s[0] == 43 {
        s.drop_first()
    } else {
        s
    }
}

/// A field that reads as an unsigned 32-bit integer: an optional `+`, then
/// one or more decimal digits whose value fits in 32 bits.
pub open spec fn is_u32_text(s: Seq<u8>) -> bool {
    &&& unsigned_digits(s).len() > 0
    &&& all_digits(unsigned_digits(s))
    &&& digits_value(unsigned_digits(s)) <= u32::MAX
}

pub open spec fn all_digits(s: Seq<u8>) -> bool {
    forall|i: int| 0 <= i < s.len() ==> is_digit(#[trigger] s[i])
}

pub open spec fn u32_text_value(s: Seq<u8>) -> nat {
    digits_value(unsigned_digits(s))
}

pub open spec fn is_hex_digit(b: u8) -> bool {
    (48 <= b <= 57) || (97 <= b <= 102)
}

pub open spec fn nibble(b: u8) -> nat {
    if b <= 57 {
        (b - 48) as nat
    } else {
        (b - 87) as nat
    }
}

/// Lowercase hexadecimal text: an even number of digits `0-9a-f`.
pub open spec fn is_hex_text(s: Seq<u8>) -> bool {
    &&& s.len() % 2 == 0
    &&& forall|i: int| 0 <= i < s.len() ==> is_hex_digit(#[trigger] s[i])
}

/// The bytes that lowercase hexadecimal text stands for, two digits each.
pub open spec fn hex_bytes(s: Seq<u8>) -> Seq<u8> {
    Seq::new(s.len() / 2, |i: int| (16 * nibble(s[2 * i]) + nibble(s[2 * i + 1])) as u8)
}

/// The four big-endian bytes of `x`.
pub open spec fn be_bytes(x: u32) -> Seq<u8> {
    seq![
        ((x / 0x1000000) % 256) as u8,
        ((x / 0x10000) % 256) as u8,
        ((x / 0x100) % 256) as u8,
        (x % 256) as u8,
    ]
}

/// Canonical key of an output: the identifier bytes, reversed on the spend
/// side, followed by the big-endian output index.
pub open spec fn canonical_key(spend: bool, id: Seq<u8>, index: u32) -> Seq<u8> {
    (if spend {
        id.reverse()
    } else {
        id
    }) + be_bytes(index)
}

/// Relies on `data_encoding::HEXLOWER.decode`: the alphabet `0123456789abcdef`,
/// no padding, two symbols per byte, most significant nibble first; it fails on
/// an odd length or a symbol outside the alphabet.
#[verifier::external_body]
fn decode_hex(text: &[u8]) -> (r: Result<Vec<u8>, data_encoding::DecodeError>)
    ensures
        r.is_ok() <==> is_hex_text(text@),
        r.is_ok() ==> r.unwrap()@ == hex_bytes(text@),
{
    data_encoding::HEXLOWER.decode(text)
}

/// Reads an unsigned 32-bit decimal integer, with an optional leading `+`.
pub fn parse_u32(text: &[u8]) -> (r: Option<u32>)
    ensures
        r.is_some() <==> is_u32_text(text@),
        r.is_some() ==> r.unwrap() as nat == u32_text_value(text@),
{
    let start: usize = if text.len() > 0 && text[0] == 43 {
        1
    } else {
        0
    };
    let ghost d = unsigned_digits(text@);
    assert(d =~= text@.subrange(start as int, text@.len() as int));
    if start >= text.len() {
        return None;
    }
    let mut value: u32 = 0;
    let mut i: usize = start;
    while i < text.len()
        invariant
            start <= i <= text.len(),
            d == unsigned_digits(text@),
            d =~= text@.subrange(start as int, text@.len() as int),
            forall|j: int| start <= j < i ==> is_digit(#[trigger] text@[j]),
            value as nat == digits_value(text@.subrange(start as int, i as int)),
        decreases text.len() - i,
    {
        let b = text[i];
        if b < 48 || b > 57 {
            assert(d[i - start] == b);
            assert(!is_digit(d[i - start]));
            return None;
        }
        let ghost pre = text@.subrange(start as int, i as int);
        let ghost next = text@.subrange(start as int, i + 1);
        assert(next.drop_last() =~= pre);
        let digit = (b - 48) as u32;
        if value > 429496729 || (value == 429496729 && digit > 5) {
            proof {
                assert(digits_value(next) > u32::MAX);
                if is_u32_text(text@) {
                    assert(d.subrange(0, (i + 1 - start) as int) =~= next);
                    lemma_digits_value_prefix(d, (i + 1 - start) as int);
                }
            }
            return None;
        }
        value = value * 10 + digit;
        i = i + 1;
    }
    assert(text@.subrange(start as int, i as int) =~= d);
    Some(value)
}

/// The four big-endian bytes of `x`.
pub fn transform_u32_to_array_of_u8(x: u32) -> (r: [u8; 4])
    ensures
        r@ == be_bytes(x),
{
    let b1: u8 = ((x >> 24u32) & 0xff) as u8;
    let b2: u8 = ((x >> 16u32) & 0xff) as u8;
    let b3: u8 = ((x >> 8u32) & 0xff) as u8;
    let b4: u8 = (x & 0xff) as u8;
    assert(((x >> 24u32) & 0xff) as u8 == ((x / 0x1000000) % 256) as u8) by (bit_vector);
    assert(((x >> 16u32) & 0xff) as u8 == ((x / 0x10000) % 256) as u8) by (bit_vector);
    assert(((x >> 8u32) & 0xff) as u8 == ((x / 0x100) % 256) as u8) by (bit_vector);
    assert((x & 0xff) as u8 == (x % 256) as u8) by (bit_vector);
    let r = [b1, b2, b3, b4];
    assert(r@ =~= be_bytes(x));
    r
}

/// The direction field marks a spend exactly when it is `i`.
pub open spec fn is_spend_tag(s: Seq<u8>) -> bool {
    s == seq![105u8]
}

/// What a record of fields decodes to.
pub open spec fn parse_spec(fields: Seq<Seq<u8>>) -> Result<(bool, u32, Seq<u8>), ParseError> {
    if fields.len() < 4 {
        Err(ParseError::MissingField)
    } else if !is_u32_text(fields[1]) {
        Err(ParseError::BadHeight)
    } else if !is_hex_text(fields[2]) {
        Err(ParseError::BadHex)
    } else if !is_u32_text(fields[3]) {
        Err(ParseError::BadIndex)
    } else {
        let spend = is_spend_tag(fields[0]);
        Ok(
            (
                spend,
                u32_text_value(fields[1]) as u32,
                canonical_key(spend, hex_bytes(fields[2]), u32_text_value(fields[3]) as u32),
            ),
        )
    }
}

/// The bytes of each field.
pub open spec fn field_bytes(fields: Seq<&str>) -> Seq<Seq<u8>> {
    fields.map_values(|f: &str| f.spec_bytes())
}

impl InputLine {
    pub open spec fn view(&self) -> (bool, u32, Seq<u8>) {
        (self.input, self.height, self.key@)
    }
}

/// Decodes one record given as its whitespace-separated fields: direction,
/// height, hexadecimal transaction identifier and output index.
pub fn parse(line_str: Vec<&str>) -> (r: Result<InputLine, ParseError>)
    ensures
        match (r, parse_spec(field_bytes(line_str@))) {
            (Ok(l), Ok(v)) => l.view() == v,
            (Err(e), Err(f)) => e == f,
            _ => false,
        },
{
    let ghost fs = field_bytes(line_str@);
    if line_str.len() < 4 {
        return Err(ParseError::MissingField);
    }
    assert(fs[0] == line_str@[0].spec_bytes());
    assert(fs[1] == line_str@[1].spec_bytes());
    assert(fs[2] == line_str@[2].spec_bytes());
    assert(fs[3] == line_str@[3].spec_bytes());
    let tag = line_str[0].as_bytes();
    let input = tag.len() == 1 && tag[0] == 105;
    assert(input == is_spend_tag(fs[0])) by {
        if input {
            assert(tag@ =~= seq![105u8]);
        }
    }
    let height = match parse_u32(line_str[1].as_bytes()) {
        Some(h) => h,
        None => return Err(ParseError::BadHeight),
    };
    let mut key = match decode_hex(line_str[2].as_bytes()) {
        Ok(k) => k,
        Err(_) => return Err(ParseError::BadHex),
    };
    let index = match parse_u32(line_str[3].as_bytes()) {
        Some(n) => n,
        None => return Err(ParseError::BadIndex),
    };
    let ghost id = key@;
    if input {
        reverse_bytes(&mut key);
    }
    let num = transform_u32_to_array_of_u8(index);
    let mut j: usize = 0;
    let ghost base = key@;
    while j < 4
        invariant
            0 <= j <= 4,
            num@ == be_bytes(index),
            key@ =~= base + num@.subrange(0, j as int),
        decreases 4 - j,
    {
        key.push(num[j]);
        j = j + 1;
    }
    assert(key@ =~= canonical_key(input, id, index));
    Ok(InputLine { input, height, key })
}

/// Reverses the bytes of `v` in place.
fn reverse_bytes(v: &mut Vec<u8>)
    ensures
        final(v)@ == old(v)@.reverse(),
{
    let n = v.len();
    let mut out: Vec<u8> = Vec::with_capacity(n);
    let mut i: usize = n;
    while i > 0
        invariant
            0 <= i <= n,
            n == v@.len(),
            out@ =~= v@.subrange(i as int, n as int).reverse(),
        decreases i,
    {
        i = i - 1;
        out.push(v[i]);
        assert(v@.subrange(i as int, n as int).reverse() =~= v@.subrange(i + 1, n as int).reverse().push(v@[i as int]));
    }
    assert(v@.subrange(0, n as int) =~= v@);
    *v = out;
}

/// A digit string is worth at least any of its prefixes.
proof fn lemma_digits_value_prefix(s: Seq<u8>, n: int)
    requires
        0 <= n <= s.len(),
        all_digits(s),
    ensures
        digits_value(s) >= digits_value(s.subrange(0, n)),
    decreases s.len(),
{
    if s.len() > n {
        assert(s.drop_last().subrange(0, n) =~= s.subrange(0, n));
        lemma_digits_value_prefix(s.drop_last(), n);
    } else {
        assert(s.subrange(0, n) =~= s);
    }
}

} // verus!
