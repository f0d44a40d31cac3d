//! Text forms of bytes: base32hex for names, base64 for the vault file and
//! upper-case hexadecimal for entry hashes.
//!
//! Each form is stated bit by bit, so that the inverse laws below are proved
//! here and only the encoders and decoders themselves come from outside.

use base64::Engine;
use vstd::prelude::*;
use vstd::string::*;

verus! {

/// The value of bit `j` of a byte, counted from the highest.
pub open spec fn bit_weight(j: int) -> int {
    if j == 0 {
        128
    } else if j == 1 {
        64
    } else if j == 2 {
        32
    } else if j == 3 {
        16
    } else if j == 4 {
        8
    } else if j == 5 {
        4
    } else if j == 6 {
        2
    } else {
        1
    }
}

/// Bit `k` of `data`, each byte read from its highest bit; zero past the end.
pub open spec fn bit_at(data: Seq<u8>, k: int) -> int {
    if 0 <= k < 8 * data.len() {
        (data[k / 8] as int / bit_weight(k % 8)) % 2
    } else {
        0
    }
}

/// The number that the `width` bits from `start` on stand for.
pub open spec fn bits_value(data: Seq<u8>, start: int, width: nat) -> int
    decreases width,
{
    if width == 0 {
        0
    } else {
        2 * bits_value(data, start, (width - 1) as nat) + bit_at(data, start + width - 1)
    }
}

/// The base32hex symbol for a number below 32: digits, then capital letters.
pub open spec fn base32hex_symbol(v: int) -> char {
    if v < 10 {
        (0x30 + v) as char
    } else {
        (0x37 + v) as char
    }
}

/// Whether a character stands for a number in base32hex.
pub open spec fn is_base32hex_char(c: char) -> bool {
    ('0' <= c && c <= '9') || ('A' <= c && c <= 'V')
}

/// The unpadded base32hex form of `data`.
pub open spec fn base32hex(data: Seq<u8>) -> Seq<char> {
    Seq::new(
        ((8 * data.len() + 4) / 5) as nat,
        |i: int| base32hex_symbol(bits_value(data, 5 * i, 5)),
    )
}

/// The base64 symbol for a number below 64.
pub open spec fn base64_symbol(v: int) -> char {
    if v < 26 {
        (0x41 + v) as char
    } else if v < 52 {
        (0x47 + v) as char
    } else if v < 62 {
        (v - 4) as char
    } else if v == 62 {
        '+'
    } else {
        '/'
    }
}

/// The base64 form of `data`, filled up with `=` to whole groups of four.
pub open spec fn base64(data: Seq<u8>) -> Seq<char> {
    Seq::new(
        ((data.len() + 2) / 3 * 4) as nat,
        |i: int|
            if 6 * i < 8 * data.len() {
                base64_symbol(bits_value(data, 6 * i, 6))
            } else {
                '='
            },
    )
}

/// `data_encoding::BASE32HEX_NOPAD.encode` writes the unpadded base32hex form.
#[verifier::external_body]
pub(crate) fn base32hex_encode(data: &[u8]) -> (r: String)
    requires
        data@.len() <= usize::MAX / 512,
    ensures
        r@ == base32hex(data@),
{
    data_encoding::BASE32HEX_NOPAD.encode(data)
}

/// `data_encoding::BASE32HEX_NOPAD.decode` accepts exactly the texts that the
/// encoder writes, capital letters and zero trailing bits only, and returns
/// bytes whose form is the text.
#[verifier::external_body]
pub(crate) fn base32hex_decode(text: &str) -> (r: Option<Vec<u8>>)
    requires
        text.spec_bytes().len() <= usize::MAX / 8,
    ensures
        r is Some <==> exists|d: Seq<u8>| base32hex(d) == text@,
        r matches Some(data) ==> base32hex(data@) == text@,
{
    data_encoding::BASE32HEX_NOPAD.decode(text.as_bytes()).ok()
}

/// `base64::engine::general_purpose::STANDARD.encode` writes the padded base64
/// form in the standard alphabet.
#[verifier::external_body]
pub(crate) fn base64_encode(data: &[u8]) -> (r: String)
    requires
        (data@.len() + 2) / 3 * 4 <= isize::MAX,
    ensures
        r@ == base64(data@),
{
    base64::engine::general_purpose::STANDARD.encode(data)
}

/// `base64::engine::general_purpose::STANDARD.decode` accepts exactly the texts
/// that the encoder writes, with whole padding and zero trailing bits, and
/// returns bytes whose form is the text.
#[verifier::external_body]
pub(crate) fn base64_decode(text: &str) -> (r: Option<Vec<u8>>)
    ensures
        r is Some <==> exists|d: Seq<u8>| base64(d) == text@,
        r matches Some(data) ==> base64(data@) == text@,
{
    base64::engine::general_purpose::STANDARD.decode(text).ok()
}

proof fn lemma_bit_range(data: Seq<u8>, k: int)
    ensures
        0 <= bit_at(data, k) <= 1,
{
}

/// A number read from `width` bits is below two to the `width`.
proof fn lemma_value_range(data: Seq<u8>, start: int)
    ensures
        0 <= bits_value(data, start, 5) < 32,
        0 <= bits_value(data, start, 6) < 64,
{
    reveal_with_fuel(bits_value, 7);
    assert forall|k: int| 0 <= #[trigger] bit_at(data, k) <= 1 by {
        lemma_bit_range(data, k);
    }
}

/// Equal numbers were read from equal bits.
proof fn lemma_value_bits(a: Seq<u8>, b: Seq<u8>, start: int, width: nat)
    requires
        bits_value(a, start, width) == bits_value(b, start, width),
    ensures
        forall|k: int| start <= k < start + width ==> bit_at(a, k) == bit_at(b, k),
    decreases width,
{
    if width > 0 {
        let last = start + width - 1;
        lemma_bit_range(a, last);
        lemma_bit_range(b, last);
        assert(bits_value(a, start, (width - 1) as nat) == bits_value(
            b,
            start,
            (width - 1) as nat,
        ));
        lemma_value_bits(a, b, start, (width - 1) as nat);
    }
}

/// A byte is fixed by its eight bits.
proof fn lemma_byte_bits(x: u8, y: u8)
    requires
        forall|j: int| 0 <= j < 8 ==> (x as int / #[trigger] bit_weight(j)) % 2 == (y as int / bit_weight(j)) % 2,
    ensures
        x == y,
{
    assert((x as int / bit_weight(0)) % 2 == (y as int / bit_weight(0)) % 2);
    assert((x as int / bit_weight(1)) % 2 == (y as int / bit_weight(1)) % 2);
    assert((x as int / bit_weight(2)) % 2 == (y as int / bit_weight(2)) % 2);
    assert((x as int / bit_weight(3)) % 2 == (y as int / bit_weight(3)) % 2);
    assert((x as int / bit_weight(4)) % 2 == (y as int / bit_weight(4)) % 2);
    assert((x as int / bit_weight(5)) % 2 == (y as int / bit_weight(5)) % 2);
    assert((x as int / bit_weight(6)) % 2 == (y as int / bit_weight(6)) % 2);
    assert((x as int / bit_weight(7)) % 2 == (y as int / bit_weight(7)) % 2);
    assert(x == y) by (bit_vector)
        requires
            (x / 128) % 2 == (y / 128) % 2,
            (x / 64) % 2 == (y / 64) % 2,
            (x / 32) % 2 == (y / 32) % 2,
            (x / 16) % 2 == (y / 16) % 2,
            (x / 8) % 2 == (y / 8) % 2,
            (x / 4) % 2 == (y / 4) % 2,
            (x / 2) % 2 == (y / 2) % 2,
            (x / 1) % 2 == (y / 1) % 2,
    ;
}

/// Data of one length is fixed by its bits.
proof fn lemma_data_bits(a: Seq<u8>, b: Seq<u8>)
    requires
        a.len() == b.len(),
        forall|k: int| 0 <= k < 8 * a.len() ==> bit_at(a, k) == bit_at(b, k),
    ensures
        a == b,
{
    assert forall|m: int| 0 <= m < a.len() implies a[m] == b[m] by {
        assert forall|j: int| 0 <= j < 8 implies (a[m] as int / #[trigger] bit_weight(j)) % 2 == (
        b[m] as int / bit_weight(j)) % 2 by {
            let k = 8 * m + j;
            assert(k / 8 == m && k % 8 == j);
            assert(bit_at(a, k) == bit_at(b, k));
        }
        lemma_byte_bits(a[m], b[m]);
    }
    assert(a =~= b);
}

/// Different data has different base32hex forms.
pub proof fn lemma_base32hex_injective(a: Seq<u8>, b: Seq<u8>)
    requires
        base32hex(a) == base32hex(b),
    ensures
        a == b,
{
    assert(base32hex(a).len() == (8 * a.len() + 4) / 5);
    assert(base32hex(b).len() == (8 * b.len() + 4) / 5);
    assert(a.len() == b.len());
    assert forall|k: int| 0 <= k < 8 * a.len() implies bit_at(a, k) == bit_at(b, k) by {
        let i = k / 5;
        assert(0 <= i < base32hex(a).len());
        assert(base32hex(a)[i] == base32hex_symbol(bits_value(a, 5 * i, 5)));
        assert(base32hex(b)[i] == base32hex_symbol(bits_value(b, 5 * i, 5)));
        lemma_value_range(a, 5 * i);
        lemma_value_range(b, 5 * i);
        lemma_value_bits(a, b, 5 * i, 5);
    }
    lemma_data_bits(a, b);
}

/// Different data has different base64 forms.
pub proof fn lemma_base64_injective(a: Seq<u8>, b: Seq<u8>)
    requires
        base64(a) == base64(b),
    ensures
        a == b,
{
    assert(base64(a).len() == (a.len() + 2) / 3 * 4);
    assert(base64(b).len() == (b.len() + 2) / 3 * 4);
    let groups = (a.len() + 2) / 3;
    assert(groups == (b.len() + 2) / 3);
    if a.len() != b.len() {
        // The shorter one has `=` where the longer one has a symbol.
        let (s, l) = if a.len() < b.len() { (a, b) } else { (b, a) };
        let at = if l.len() == 3 * groups { 4 * groups - 1 } else { 4 * groups - 2 };
        assert(6 * at < 8 * l.len() && 6 * at >= 8 * s.len());
        assert(base64(s)[at] == '=');
        assert(base64(l)[at] == base64_symbol(bits_value(l, 6 * at, 6)));
        lemma_value_range(l, 6 * at);
        assert(false);
    }
    assert forall|k: int| 0 <= k < 8 * a.len() implies bit_at(a, k) == bit_at(b, k) by {
        let i = k / 6;
        assert(0 <= i < base64(a).len());
        assert(base64(a)[i] == base64_symbol(bits_value(a, 6 * i, 6)));
        assert(base64(b)[i] == base64_symbol(bits_value(b, 6 * i, 6)));
        lemma_value_range(a, 6 * i);
        lemma_value_range(b, 6 * i);
        lemma_value_bits(a, b, 6 * i, 6);
    }
    lemma_data_bits(a, b);
}

/// The bytes that a base64 text is the form of.
pub open spec fn base64_bytes(text: Seq<char>) -> Option<Seq<u8>> {
    if exists|d: Seq<u8>| base64(d) == text {
        Some(choose|d: Seq<u8>| base64(d) == text)
    } else {
        None
    }
}

/// A base64 text stands for the bytes it was written from.
pub proof fn lemma_base64_bytes(data: Seq<u8>)
    ensures
        base64_bytes(base64(data)) == Some(data),
{
    let d = choose|d: Seq<u8>| base64(d) == base64(data);
    assert(base64(d) == base64(data));
    lemma_base64_injective(d, data);
}

/// Every character of a base32hex text is a digit or a letter from `A` to `V`.
pub proof fn lemma_base32hex_alphabet(data: Seq<u8>)
    ensures
        forall|i: int|
            0 <= i < base32hex(data).len() ==> is_base32hex_char(#[trigger] base32hex(data)[i]),
{
    assert forall|i: int| 0 <= i < base32hex(data).len() implies is_base32hex_char(
        #[trigger] base32hex(data)[i],
    ) by {
        lemma_value_range(data, 5 * i);
    }
}

/// The upper-case hexadecimal digit for a number below sixteen.
pub open spec fn hex_digit(v: int) -> char {
    if v < 10 {
        (0x30 + v) as char
    } else {
        (0x37 + v) as char
    }
}

/// Two upper-case hexadecimal digits for each byte.
pub open spec fn upper_hex(data: Seq<u8>) -> Seq<char> {
    Seq::new(
        2 * data.len(),
        |i: int|
            if i % 2 == 0 {
                hex_digit(data[i / 2] as int / 16)
            } else {
                hex_digit(data[i / 2] as int % 16)
            },
    )
}

fn hex_char(v: u8) -> (r: char)
    requires
        v < 16,
    ensures
        r == hex_digit(v as int),
{
    if v < 10 {
        (0x30 + v) as char
    } else {
        (0x37 + v) as char
    }
}

/// Appends the two upper-case hexadecimal digits of a byte.
pub(crate) fn push_hex(out: &mut String, b: u8)
    ensures
        final(out)@ == old(out)@.push(hex_digit(b as int / 16)).push(hex_digit(b as int % 16)),
{
    out.push(hex_char(b / 16));
    out.push(hex_char(b % 16));
}

/// The bytes in upper-case hexadecimal.
pub(crate) fn upper_hex_of(data: &[u8]) -> (r: String)
    ensures
        r@ == upper_hex(data@),
{
    let mut out = String::new();
    let mut i: usize = 0;
    while i < data.len()
        invariant
            i <= data@.len(),
            out@ == upper_hex(data@.take(i as int)),
        decreases data@.len() - i,
    {
        push_hex(&mut out, data[i]);
        assert(out@ =~= upper_hex(data@.take(i as int + 1)));
        i += 1;
    }
    assert(data@.take(i as int) =~= data@);
    out
}

/// Whether two byte strings are equal.
pub(crate) fn same_bytes(a: &[u8], b: &[u8]) -> (r: bool)
    ensures
        r == (a@ == b@),
{
    if a.len() != b.len() {
        return false;
    }
    let mut i: usize = 0;
    while i < a.len()
        invariant
            a@.len() == b@.len(),
            i <= a@.len(),
            forall|j: int| 0 <= j < i ==> a@[j] == b@[j],
        decreases a@.len() - i,
    {
        if a[i] != b[i] {
            return false;
        }
        i += 1;
    }
    assert(a@ =~= b@);
    true
}

} // verus!
