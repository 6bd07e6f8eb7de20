//! Base64 with the standard alphabet and padding.

use base64::engine::general_purpose::STANDARD;
use base64::Engine;
use vstd::prelude::*;

verus! {

/// The symbol for the six-bit number `n` in the standard base64 alphabet.
pub open spec fn symbol(n: int) -> char {
    if n < 26 {
        (('A' as u32) + n) as char
    } else if n < 52 {
        (('a' as u32) + (n - 26)) as char
    } else if n < 62 {
        (('0' as u32) + (n - 52)) as char
    } else if n == 62 {
        '+'
    } else {
        '/'
    }
}

/// The four symbols for one to three bytes; `=` stands where there are no
/// more bits to write.
pub open spec fn quad(data: Seq<u8>) -> Seq<char>
    recommends
        1 <= data.len() <= 3,
{
    let b0 = data[0] as int;
    let b1 = if data.len() > 1 { data[1] as int } else { 0 };
    let b2 = if data.len() > 2 { data[2] as int } else { 0 };
    seq![
        symbol(b0 / 4),
        symbol((b0 % 4) * 16 + b1 / 16),
        if data.len() > 1 { symbol((b1 % 16) * 4 + b2 / 64) } else { '=' },
        if data.len() > 2 { symbol(b2 % 64) } else { '=' },
    ]
}

/// The base64 text of `data`: three bytes at a time become four symbols.
pub open spec fn base64_text(data: Seq<u8>) -> Seq<char>
    decreases data.len(),
{
    if data.len() == 0 {
        Seq::empty()
    } else if data.len() <= 3 {
        quad(data)
    } else {
        quad(data.take(3)) + base64_text(data.skip(3))
    }
}

/// The bytes of which `text` is the base64 text, if there are any.
pub open spec fn base64_bytes(text: Seq<char>) -> Option<Seq<u8>> {
    if exists|data: Seq<u8>| base64_text(data) == text {
        Some(choose|data: Seq<u8>| base64_text(data) == text)
    } else {
        None
    }
}

/// A character that base64 text may hold.
pub open spec fn base64_char(c: char) -> bool {
    ||| 'A' <= c <= 'Z'
    ||| 'a' <= c <= 'z'
    ||| '0' <= c <= '9'
    ||| c == '+'
    ||| c == '/'
    ||| c == '='
}

proof fn lemma_symbol_injective(m: int, n: int)
    requires
        0 <= m < 64,
        0 <= n < 64,
    ensures
        symbol(m) == symbol(n) ==> m == n,
        symbol(m) != '=',
        base64_char(symbol(m)),
{
    assert(symbol(m) as u32 == if m < 26 { 65 + m } else if m < 52 { 97 + (m - 26) } else if m < 62 {
        48 + (m - 52)
    } else if m == 62 { 43 } else { 47 });
    assert(symbol(n) as u32 == if n < 26 { 65 + n } else if n < 52 { 97 + (n - 26) } else if n < 62 {
        48 + (n - 52)
    } else if n == 62 { 43 } else { 47 });
}

proof fn lemma_quad_injective(a: Seq<u8>, b: Seq<u8>)
    requires
        1 <= a.len() <= 3,
        1 <= b.len() <= 3,
        quad(a) == quad(b),
    ensures
        a == b,
{
    let a0 = a[0] as int;
    let a1 = if a.len() > 1 { a[1] as int } else { 0 };
    let a2 = if a.len() > 2 { a[2] as int } else { 0 };
    let b0 = b[0] as int;
    let b1 = if b.len() > 1 { b[1] as int } else { 0 };
    let b2 = if b.len() > 2 { b[2] as int } else { 0 };
    assert(quad(a)[0] == quad(b)[0] && quad(a)[1] == quad(b)[1] && quad(a)[2] == quad(b)[2]
        && quad(a)[3] == quad(b)[3]);
    lemma_symbol_injective(a0 / 4, b0 / 4);
    lemma_symbol_injective((a0 % 4) * 16 + a1 / 16, (b0 % 4) * 16 + b1 / 16);
    lemma_symbol_injective((a1 % 16) * 4 + a2 / 64, (b1 % 16) * 4 + b2 / 64);
    lemma_symbol_injective((b1 % 16) * 4 + b2 / 64, (a1 % 16) * 4 + a2 / 64);
    lemma_symbol_injective(a2 % 64, b2 % 64);
    lemma_symbol_injective(b2 % 64, a2 % 64);
    assert(a.len() == b.len());
    assert(a =~= b);
}

/// Different byte strings have different base64 texts: reading back what was
/// written gives the same bytes.
pub proof fn law_base64_reads_back(data: Seq<u8>)
    ensures
        base64_bytes(base64_text(data)) == Some(data),
{
    let back = base64_bytes(base64_text(data))->Some_0;
    assert(base64_text(data) == base64_text(data));
    assert(base64_text(back) == base64_text(data));
    lemma_base64_injective(back, data);
}

proof fn lemma_base64_len(data: Seq<u8>)
    ensures
        base64_text(data).len() == (data.len() + 2) / 3 * 4,
    decreases data.len(),
{
    if data.len() > 3 {
        lemma_base64_len(data.skip(3));
    }
}

proof fn lemma_base64_injective(a: Seq<u8>, b: Seq<u8>)
    requires
        base64_text(a) == base64_text(b),
    ensures
        a == b,
    decreases a.len(),
{
    lemma_base64_len(a);
    lemma_base64_len(b);
    if a.len() == 0 {
        assert(b.len() == 0);
        assert(a =~= b);
    } else if a.len() <= 3 {
        assert(b.len() <= 3);
        lemma_quad_injective(a, b);
    } else {
        assert(b.len() > 3);
        assert(base64_text(a).take(4) =~= quad(a.take(3)));
        assert(base64_text(b).take(4) =~= quad(b.take(3)));
        assert(base64_text(a).skip(4) =~= base64_text(a.skip(3)));
        assert(base64_text(b).skip(4) =~= base64_text(b.skip(3)));
        lemma_quad_injective(a.take(3), b.take(3));
        lemma_base64_injective(a.skip(3), b.skip(3));
        assert(a =~= a.take(3) + a.skip(3));
        assert(b =~= b.take(3) + b.skip(3));
    }
}

/// Base64 text holds letters, digits, `+`, `/` and `=` only.
pub proof fn law_base64_alphabet(data: Seq<u8>)
    ensures
        forall|i: int|
            0 <= i < base64_text(data).len() ==> base64_char(#[trigger] base64_text(data)[i]),
    decreases data.len(),
{
    if data.len() > 0 {
        let head = if data.len() <= 3 { data } else { data.take(3) };
        lemma_quad_alphabet(head);
        if data.len() > 3 {
            law_base64_alphabet(data.skip(3));
        }
        assert forall|i: int| 0 <= i < base64_text(data).len() implies base64_char(
            #[trigger] base64_text(data)[i],
        ) by {
            if i < 4 {
                assert(base64_text(data)[i] == quad(head)[i]);
            } else {
                assert(base64_text(data)[i] == base64_text(data.skip(3))[i - 4]);
            }
        }
    }
}

proof fn lemma_quad_alphabet(data: Seq<u8>)
    requires
        1 <= data.len() <= 3,
    ensures
        forall|i: int| 0 <= i < 4 ==> base64_char(#[trigger] quad(data)[i]),
{
    let b0 = data[0] as int;
    let b1 = if data.len() > 1 { data[1] as int } else { 0 };
    let b2 = if data.len() > 2 { data[2] as int } else { 0 };
    lemma_symbol_injective(b0 / 4, 0);
    lemma_symbol_injective((b0 % 4) * 16 + b1 / 16, 0);
    lemma_symbol_injective((b1 % 16) * 4 + b2 / 64, 0);
    lemma_symbol_injective(b2 % 64, 0);
}

/// `Engine::encode` of the `base64` crate with its `STANDARD` engine: the
/// result is the padded base64 text of `data` in the standard alphabet.
#[verifier::external_body]
pub(crate) fn base64_encode(data: &[u8]) -> (s: String)
    ensures
        s@ == base64_text(data@),
{
    STANDARD.encode(data)
}

/// `Engine::decode` of the `base64` crate with its `STANDARD` engine, which
/// wants canonical padding and no stray bits in the last symbol: it succeeds
/// on the base64 text of some bytes, with those bytes, and on nothing else.
#[verifier::external_body]
fn base64_decode(s: &str) -> (r: Result<Vec<u8>, base64::DecodeError>)
    ensures
        match r {
            Ok(data) => base64_text(data@) == s@,
            Err(_) => forall|data: Seq<u8>| base64_text(data) != s@,
        },
{
    STANDARD.decode(s)
}

/// The error of the `base64` crate's decoder; it is carried, never looked at.
#[verifier::external_type_specification]
#[verifier::external_body]
pub struct ExDecodeError(base64::DecodeError);

/// Reads base64 text, or gives nothing where `s` is not the base64 text of any
/// bytes.
pub fn decode_base64(s: &str) -> (r: Option<Vec<u8>>)
    ensures
        match r {
            Some(data) => base64_bytes(s@) == Some(data@),
            None => base64_bytes(s@) is None,
        },
{
    match base64_decode(s) {
        Ok(data) => {
            proof {
                law_base64_reads_back(data@);
            }
            Some(data)
        },
        Err(_) => None,
    }
}

// ---------------------------------------------------------------------------
// Laws
// ---------------------------------------------------------------------------
/// The six bits that a symbol stands for; none for the padding.
pub open spec fn symbol_value(c: char) -> int {
    let v = c as u32;
    if 65 <= v <= 90 {
        v - 65
    } else if 97 <= v <= 122 {
        v - 71
    } else if 48 <= v <= 57 {
        v + 4
    } else if v == 43 {
        62
    } else if v == 47 {
        63
    } else {
        0
    }
}

/// The byte at `i`, and zero past the end.
pub open spec fn byte_at(data: Seq<u8>, i: int) -> int {
    if 0 <= i < data.len() {
        data[i] as int
    } else {
        0
    }
}

proof fn lemma_symbol_value(n: int)
    requires
        0 <= n < 64,
    ensures
        symbol_value(symbol(n)) == n,
        symbol(n) as u32 != 61,
{
    assert(symbol(n) as u32 == if n < 26 { 65 + n } else if n < 52 { 97 + (n - 26) } else if n < 62 {
        48 + (n - 52)
    } else if n == 62 { 43 } else { 47 });
}

/// The text holds every bit of the data: the symbols of each four stand for the
/// 24 bits of the three bytes there, and `=` stands exactly where there is no byte
/// left to write.
pub proof fn law_base64_holds_every_bit(data: Seq<u8>, k: int)
    requires
        0 <= k,
        3 * k < data.len(),
    ensures
        base64_text(data).len() == (data.len() + 2) / 3 * 4,
        symbol_value(base64_text(data)[4 * k]) * 262144 + symbol_value(base64_text(data)[4 * k + 1])
            * 4096 + symbol_value(base64_text(data)[4 * k + 2]) * 64 + symbol_value(
            base64_text(data)[4 * k + 3],
        ) == byte_at(data, 3 * k) * 65536 + byte_at(data, 3 * k + 1) * 256 + byte_at(
            data,
            3 * k + 2,
        ),
        base64_text(data)[4 * k] as u32 != 61,
        base64_text(data)[4 * k + 1] as u32 != 61,
        base64_text(data)[4 * k + 2] as u32 == 61 <==> 3 * k + 1 >= data.len(),
        base64_text(data)[4 * k + 3] as u32 == 61 <==> 3 * k + 2 >= data.len(),
    decreases k,
{
    let t = base64_text(data);
    lemma_base64_len(data);
    let head = if data.len() <= 3 { data } else { data.take(3) };
    if k == 0 {
        let q = quad(head);
        assert(t[0] == q[0] && t[1] == q[1] && t[2] == q[2] && t[3] == q[3]);
        let b0 = byte_at(data, 0);
        let b1 = byte_at(data, 1);
        let b2 = byte_at(data, 2);
        assert(b0 == head[0]);
        assert(head.len() > 1 ==> b1 == head[1]);
        assert(head.len() > 2 ==> b2 == head[2]);
        lemma_symbol_value(b0 / 4);
        lemma_symbol_value((b0 % 4) * 16 + b1 / 16);
        lemma_symbol_value((b1 % 16) * 4 + b2 / 64);
        lemma_symbol_value(b2 % 64);
        assert('=' as u32 == 61);
    } else {
        let rest = data.skip(3);
        law_base64_holds_every_bit(rest, k - 1);
        assert(t =~= quad(data.take(3)) + base64_text(rest));
        assert(t[4 * k] == base64_text(rest)[4 * (k - 1)]);
        assert(t[4 * k + 1] == base64_text(rest)[4 * (k - 1) + 1]);
        assert(t[4 * k + 2] == base64_text(rest)[4 * (k - 1) + 2]);
        assert(t[4 * k + 3] == base64_text(rest)[4 * (k - 1) + 3]);
    }
}

/// Bytes are read of a text exactly where it is the base64 text of those bytes.
pub proof fn law_base64_bytes(text: Seq<char>, data: Seq<u8>)
    ensures
        base64_bytes(text) == Some(data) <==> base64_text(data) == text,
{
    if base64_text(data) == text {
        law_base64_reads_back(data);
    }
}

} // verus!
