//! Base64 text of byte strings.

use vstd::prelude::*;
use base64::engine::general_purpose;
use base64::Engine;

verus! {

/// The symbol of the standard base64 alphabet for a value below 64.
pub open spec fn base64_symbol(n: int) -> char {
    if n < 26 {
        (65 + n) as char
    } else if n < 52 {
        (71 + n) as char
    } else if n < 62 {
        (n - 4) as char
    } else if n == 62 {
        '+'
    } else {
        '/'
    }
}

/// The base64 text of a byte string, in the standard alphabet and with
/// padding: four symbols for every three bytes, the first bits first, and
/// `=` in place of the symbols that hold no bit of the last bytes.
pub open spec fn base64_text(bytes: Seq<u8>) -> Seq<char>
    decreases bytes.len(),
{
    if bytes.len() == 0 {
        Seq::empty()
    } else if bytes.len() == 1 {
        seq![base64_symbol(bytes[0] as int / 4), base64_symbol(bytes[0] as int % 4 * 16), '=', '=']
    } else if bytes.len() == 2 {
        seq![
            base64_symbol(bytes[0] as int / 4),
            base64_symbol(bytes[0] as int % 4 * 16 + bytes[1] as int / 16),
            base64_symbol(bytes[1] as int % 16 * 4),
            '=',
        ]
    } else {
        seq![
            base64_symbol(bytes[0] as int / 4),
            base64_symbol(bytes[0] as int % 4 * 16 + bytes[1] as int / 16),
            base64_symbol(bytes[1] as int % 16 * 4 + bytes[2] as int / 64),
            base64_symbol(bytes[2] as int % 64),
        ] + base64_text(bytes.skip(3))
    }
}

/// Whether the base64 text of a byte string of the given length has a length
/// that fits the machine.
pub open spec fn encodable(len: nat) -> bool {
    (len + 2) / 3 * 4 <= usize::MAX
}

/// Trusted: stands for `Engine::encode` of `base64`, on the engine
/// `general_purpose::STANDARD`. It returns the text of the bytes in the
/// standard alphabet with padding, and panics only where the length of that
/// text does not fit `usize`.
#[verifier::external_body]
fn standard_encode(bytes: &[u8]) -> (text: String)
    requires
        encodable(bytes@.len()),
    ensures
        text@ == base64_text(bytes@),
{
    general_purpose::STANDARD.encode(bytes)
}

/// Tells whether a byte string is short enough to be encoded.
pub fn can_encode(bytes: &[u8]) -> (b: bool)
    ensures
        b == encodable(bytes@.len()),
{
    let n = bytes.len();
    let groups: usize = n / 3 + if n % 3 == 0 {
        0
    } else {
        1
    };
    groups <= usize::MAX / 4
}

/// Encode a program as base64 string, given the bytes that were written for it.
pub fn encode_base64(bytes: &[u8]) -> (text: String)
    requires
        encodable(bytes@.len()),
    ensures
        text@ == base64_text(bytes@),
{
    standard_encode(bytes)
}

/// Different values below 64 have different symbols, and none has the
/// padding sign.
pub proof fn lemma_symbols_differ(m: int, n: int)
    requires
        0 <= m < 64,
        0 <= n < 64,
    ensures
        base64_symbol(m) == base64_symbol(n) ==> m == n,
        base64_symbol(m) != '=',
{
}

/// The base64 text of a byte string has four symbols for every three bytes
/// or part of three bytes.
pub proof fn lemma_base64_text_len(bytes: Seq<u8>)
    ensures
        base64_text(bytes).len() == (bytes.len() + 2) / 3 * 4,
    decreases bytes.len(),
{
    if bytes.len() >= 3 {
        lemma_base64_text_len(bytes.skip(3));
    }
}

/// Different byte strings have different base64 texts.
#[verifier::rlimit(40)]
pub proof fn lemma_base64_text_injective(a: Seq<u8>, b: Seq<u8>)
    requires
        base64_text(a) == base64_text(b),
    ensures
        a == b,
    decreases a.len(),
{
    lemma_base64_text_len(a);
    lemma_base64_text_len(b);
    let ta = base64_text(a);
    let tb = base64_text(b);
    if a.len() == 0 {
        assert(b.len() == 0);
        assert(a =~= b);
    } else {
        assert(b.len() > 0);
        let a0 = a[0] as int;
        let b0 = b[0] as int;
        lemma_symbols_differ(a0 / 4, b0 / 4);
        assert(ta[0] == base64_symbol(a0 / 4));
        assert(tb[0] == base64_symbol(b0 / 4));
        if a.len() == 1 {
            lemma_symbols_differ(a0 % 4 * 16, 0);
            assert(ta[2] == '=');
            if b.len() == 1 {
                lemma_symbols_differ(a0 % 4 * 16, b0 % 4 * 16);
                assert(ta[1] == tb[1]);
                assert(a =~= b);
            } else if b.len() == 2 {
                lemma_symbols_differ(b[1] as int % 16 * 4, 0);
                assert(tb[2] != '=');
                assert(false);
            } else {
                lemma_symbols_differ(b[1] as int % 16 * 4 + b[2] as int / 64, 0);
                assert(tb[2] == base64_symbol(b[1] as int % 16 * 4 + b[2] as int / 64));
                assert(false);
            }
        } else if a.len() == 2 {
            let a1 = a[1] as int;
            lemma_symbols_differ(a1 % 16 * 4, 0);
            assert(ta[2] != '=' && ta[3] == '=');
            if b.len() == 1 {
                assert(tb[2] == '=');
                assert(false);
            } else if b.len() == 2 {
                let b1 = b[1] as int;
                lemma_symbols_differ(a0 % 4 * 16 + a1 / 16, b0 % 4 * 16 + b1 / 16);
                lemma_symbols_differ(a1 % 16 * 4, b1 % 16 * 4);
                assert(ta[1] == tb[1]);
                assert(ta[2] == tb[2]);
                assert(a =~= b);
            } else {
                lemma_symbols_differ(b[2] as int % 64, 0);
                assert(tb[3] == base64_symbol(b[2] as int % 64));
                assert(false);
            }
        } else {
            let a1 = a[1] as int;
            let a2 = a[2] as int;
            lemma_symbols_differ(a1 % 16 * 4 + a2 / 64, 0);
            lemma_symbols_differ(a2 % 64, 0);
            assert(ta[2] == base64_symbol(a1 % 16 * 4 + a2 / 64));
            assert(ta[3] == base64_symbol(a2 % 64));
            if b.len() == 1 {
                assert(tb[2] == '=');
                assert(false);
            } else if b.len() == 2 {
                assert(tb[3] == '=');
                assert(false);
            } else {
                let b1 = b[1] as int;
                let b2 = b[2] as int;
                lemma_symbols_differ(a0 % 4 * 16 + a1 / 16, b0 % 4 * 16 + b1 / 16);
                lemma_symbols_differ(a1 % 16 * 4 + a2 / 64, b1 % 16 * 4 + b2 / 64);
                lemma_symbols_differ(a2 % 64, b2 % 64);
                assert(tb[1] == base64_symbol(b0 % 4 * 16 + b1 / 16));
                assert(tb[2] == base64_symbol(b1 % 16 * 4 + b2 / 64));
                assert(tb[3] == base64_symbol(b2 % 64));
                assert(ta[1] == base64_symbol(a0 % 4 * 16 + a1 / 16));
                assert(a0 == b0 && a1 == b1 && a2 == b2);
                assert(base64_text(a.skip(3)) =~= ta.skip(4));
                assert(base64_text(b.skip(3)) =~= tb.skip(4));
                lemma_base64_text_injective(a.skip(3), b.skip(3));
                assert forall|i: int| 0 <= i < a.len() implies a[i] == b[i] by {
                    if i >= 3 {
                        assert(a[i] == a.skip(3)[i - 3]);
                        assert(b[i] == b.skip(3)[i - 3]);
                    }
                }
                assert(a.len() == b.len()) by {
                    assert(a.skip(3).len() == b.skip(3).len());
                }
                assert(a =~= b);
            }
        }
    }
}

} // verus!
