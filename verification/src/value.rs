//! Values: the constants that a scribe expression spells out.

use vstd::prelude::*;
use std::sync::Arc;

verus! {

/// A value of some Simplicity type.
///
/// The false bit is the left value that wraps the unit value, the true bit
/// the right value that wraps it; a bit string is a tree of products with
/// bits at its leaves, or is given as it stands.
#[derive(Clone, Debug, PartialEq, Eq)]
pub enum Value {
    /// The unit value.
    Unit,
    /// A value of a sum type, taken from its left summand.
    SumL(Arc<Value>),
    /// A value of a sum type, taken from its right summand.
    SumR(Arc<Value>),
    /// A value of a product type.
    Prod(Arc<Value>, Arc<Value>),
    /// A bit string, already decoded.
    Bits(Arc<Vec<bool>>),
}

/// The bit at a position of a bit string as a number, zero behind its end.
pub open spec fn bit_at(bits: Seq<bool>, i: int) -> int {
    if 0 <= i < bits.len() && bits[i] {
        1
    } else {
        0
    }
}

/// The byte that starts at position `i` of a bit string, its first bit the
/// highest, filled up with zeros behind the end of the string.
pub open spec fn byte_from(bits: Seq<bool>, i: int) -> u8 {
    (128 * bit_at(bits, i) + 64 * bit_at(bits, i + 1) + 32 * bit_at(bits, i + 2) + 16 * bit_at(
        bits,
        i + 3,
    ) + 8 * bit_at(bits, i + 4) + 4 * bit_at(bits, i + 5) + 2 * bit_at(bits, i + 6) + bit_at(
        bits,
        i + 7,
    )) as u8
}

/// A bit string as bytes, in big-endian order, the last byte filled up with
/// zeros.
pub open spec fn packed(bits: Seq<bool>) -> Seq<u8> {
    Seq::new(((bits.len() + 7) / 8) as nat, |k: int| byte_from(bits, 8 * k))
}

/// Whether bit `k` of a byte is set; bit 0 is the highest.
pub open spec fn bit_of_byte(byte: u8, k: int) -> bool {
    if k == 0 {
        byte >= 128
    } else if k == 1 {
        byte % 128 >= 64
    } else if k == 2 {
        byte % 64 >= 32
    } else if k == 3 {
        byte % 32 >= 16
    } else if k == 4 {
        byte % 16 >= 8
    } else if k == 5 {
        byte % 8 >= 4
    } else if k == 6 {
        byte % 4 >= 2
    } else {
        byte % 2 >= 1
    }
}

/// The first `len` bits of a byte string, the highest bit of each byte
/// first.
pub open spec fn unpacked(bytes: Seq<u8>, len: nat) -> Seq<bool> {
    Seq::new(len, |i: int| bit_of_byte(bytes[i / 8], i % 8))
}

/// The bits of the values on a stack, the top of the stack first.
pub open spec fn pending_bits(stack: Seq<&Value>) -> Seq<bool>
    decreases stack.len(),
{
    if stack.len() == 0 {
        Seq::empty()
    } else {
        stack.last().bits() + pending_bits(stack.drop_last())
    }
}

/// The number of nodes of the values on a stack.
pub open spec fn pending_size(stack: Seq<&Value>) -> nat
    decreases stack.len(),
{
    if stack.len() == 0 {
        0
    } else {
        stack.last().size() + pending_size(stack.drop_last())
    }
}

/// Pushing a value on a stack puts its bits before those of the stack, and
/// adds its size.
pub proof fn lemma_pending_push(stack: Seq<&Value>, v: &Value)
    ensures
        pending_bits(stack.push(v)) == v.bits() + pending_bits(stack),
        pending_size(stack.push(v)) == v.size() + pending_size(stack),
{
    assert(stack.push(v).drop_last() =~= stack);
}

/// Packing a bit string into bytes and taking as many bits of the bytes
/// again gives the bit string back.
pub proof fn lemma_unpacked_packed(bits: Seq<bool>)
    ensures
        unpacked(packed(bits), bits.len()) == bits,
{
    let bytes = packed(bits);
    assert forall|i: int| 0 <= i < bits.len() implies bit_of_byte(bytes[i / 8], i % 8)
        == bits[i] by {
        let k = i / 8;
        assert(bytes[k] == byte_from(bits, 8 * k));
        let b0 = bit_at(bits, 8 * k);
        let b1 = bit_at(bits, 8 * k + 1);
        let b2 = bit_at(bits, 8 * k + 2);
        let b3 = bit_at(bits, 8 * k + 3);
        let b4 = bit_at(bits, 8 * k + 4);
        let b5 = bit_at(bits, 8 * k + 5);
        let b6 = bit_at(bits, 8 * k + 6);
        let b7 = bit_at(bits, 8 * k + 7);
        let sum = 128 * b0 + 64 * b1 + 32 * b2 + 16 * b3 + 8 * b4 + 4 * b5 + 2 * b6 + b7;
        assert(0 <= sum < 256);
        assert(bytes[k] as int == sum);
        assert(bit_at(bits, i) == if bits[i] {
            1int
        } else {
            0int
        });
    }
    assert(unpacked(packed(bits), bits.len()) =~= bits);
}

/// Tells whether bit `k` of a byte is set; bit 0 is the highest.
pub fn bit_of(byte: u8, k: usize) -> (b: bool)
    ensures
        b == bit_of_byte(byte, k as int),
{
    if k == 0 {
        byte >= 128
    } else if k == 1 {
        byte % 128 >= 64
    } else if k == 2 {
        byte % 64 >= 32
    } else if k == 3 {
        byte % 32 >= 16
    } else if k == 4 {
        byte % 16 >= 8
    } else if k == 5 {
        byte % 8 >= 4
    } else if k == 6 {
        byte % 4 >= 2
    } else {
        byte % 2 >= 1
    }
}

/// The bit at position `i + j` of a bit string as a number, zero behind its
/// end.
fn bit(bits: &Vec<bool>, i: usize, j: usize) -> (b: u8)
    requires
        i < bits@.len(),
    ensures
        b == bit_at(bits@, i + j),
{
    if j < bits.len() - i && bits[i + j] {
        1
    } else {
        0
    }
}

impl Value {
    /// The bit string that the value encodes: a left value gives the bit 0
    /// and a right value the bit 1, each followed by the bits of what it
    /// wraps; a product gives the bits of its left part, then those of its
    /// right part.
    pub open spec fn bits(self) -> Seq<bool>
        decreases self,
    {
        match self {
            Value::Unit => Seq::empty(),
            Value::SumL(v) => seq![false] + v.bits(),
            Value::SumR(v) => seq![true] + v.bits(),
            Value::Prod(l, r) => l.bits() + r.bits(),
            Value::Bits(b) => b@,
        }
    }

    /// The number of nodes of the value.
    pub open spec fn size(self) -> nat
        decreases self,
    {
        match self {
            Value::Unit => 1,
            Value::SumL(v) => 1 + v.size(),
            Value::SumR(v) => 1 + v.size(),
            Value::Prod(l, r) => 1 + l.size() + r.size(),
            Value::Bits(_) => 1,
        }
    }

    /// A second handle on the same value. Its parts are shared, not copied.
    pub fn share(&self) -> (v: Value)
        ensures
            v == *self,
    {
        match self {
            Value::Unit => Value::Unit,
            Value::SumL(v) => Value::SumL(v.clone()),
            Value::SumR(v) => Value::SumR(v.clone()),
            Value::Prod(l, r) => Value::Prod(l.clone(), r.clone()),
            Value::Bits(b) => Value::Bits(b.clone()),
        }
    }

    /// The bit string that the first `len` bits of a byte string are, where
    /// the byte string has as many.
    pub fn from_bytes_len(bytes: &[u8], len: usize) -> (value: Option<Value>)
        ensures
            value is Some <==> len <= 8 * bytes@.len(),
            value matches Some(v) ==> v is Bits && v.bits() == unpacked(bytes@, len as nat),
    {
        if len / 8 > bytes.len() || (len / 8 == bytes.len() && len % 8 != 0) {
            return None;
        }
        let mut bits: Vec<bool> = Vec::new();
        let mut i: usize = 0;
        while i < len
            invariant
                i <= len <= 8 * bytes@.len(),
                bits@.len() == i,
                forall|j: int| 0 <= j < i ==> bits@[j] == bit_of_byte(bytes@[j / 8], j % 8),
            decreases len - i,
        {
            bits.push(bit_of(bytes[i / 8], i % 8));
            i += 1;
        }
        assert(bits@ =~= unpacked(bytes@, len as nat));
        Some(Value::Bits(Arc::new(bits)))
    }

    /// The bit string that the value encodes.
    pub fn to_bits(&self) -> (bits: Vec<bool>)
        ensures
            bits@ == self.bits(),
    {
        let mut bits: Vec<bool> = Vec::new();
        let mut stack: Vec<&Value> = Vec::new();
        proof {
            lemma_pending_push(stack@, self);
        }
        stack.push(self);
        assert(bits@ + pending_bits(stack@) =~= self.bits());
        while stack.len() > 0
            invariant
                bits@ + pending_bits(stack@) == self.bits(),
            decreases pending_size(stack@),
        {
            let ghost old_bits = bits@;
            let ghost old_stack = stack@;
            let value = stack.pop().unwrap();
            let ghost rest = stack@;
            assert(rest =~= old_stack.drop_last());
            match value {
                Value::Unit => {
                    assert(bits@ + pending_bits(stack@) =~= old_bits + pending_bits(old_stack));
                },
                Value::SumL(v) => {
                    bits.push(false);
                    proof {
                        lemma_pending_push(rest, &**v);
                    }
                    stack.push(&**v);
                    assert(bits@ + pending_bits(stack@) =~= old_bits + pending_bits(old_stack));
                },
                Value::SumR(v) => {
                    bits.push(true);
                    proof {
                        lemma_pending_push(rest, &**v);
                    }
                    stack.push(&**v);
                    assert(bits@ + pending_bits(stack@) =~= old_bits + pending_bits(old_stack));
                },
                Value::Prod(l, r) => {
                    proof {
                        lemma_pending_push(rest, &**r);
                        lemma_pending_push(rest.push(&**r), &**l);
                    }
                    stack.push(&**r);
                    stack.push(&**l);
                    assert(bits@ + pending_bits(stack@) =~= old_bits + pending_bits(old_stack));
                },
                Value::Bits(b) => {
                    let mut k: usize = 0;
                    while k < b.len()
                        invariant
                            k <= b@.len(),
                            bits@ == old_bits + b@.subrange(0, k as int),
                        decreases b@.len() - k,
                    {
                        bits.push(b[k]);
                        k += 1;
                        assert(bits@ =~= old_bits + b@.subrange(0, k as int));
                    }
                    assert(b@.subrange(0, k as int) =~= b@);
                    assert(bits@ + pending_bits(stack@) =~= old_bits + pending_bits(old_stack));
                },
            }
        }
        assert(bits@ =~= bits@ + pending_bits(stack@));
        bits
    }

    /// Encode value as big-endian byte string.
    /// Trailing zeroes are added as padding if underlying bit string has length not divisible by 8.
    /// The length of said bit string is returned as second argument
    pub fn to_bytes_len(&self) -> (encoding: (Vec<u8>, usize))
        ensures
            encoding.0@ == packed(self.bits()),
            encoding.1 == self.bits().len(),
            unpacked(encoding.0@, encoding.1 as nat) == self.bits(),
    {
        let bits = self.to_bits();
        let n = bits.len();
        let count: usize = n / 8 + if n % 8 == 0 {
            0
        } else {
            1
        };
        let mut bytes: Vec<u8> = Vec::new();
        let mut k: usize = 0;
        while k < count
            invariant
                n == bits@.len(),
                count == (n + 7) / 8,
                k <= count,
                bytes@.len() == k,
                forall|j: int| 0 <= j < bytes@.len() ==> bytes@[j] == byte_from(bits@, 8 * j),
            decreases count - k,
        {
            let i: usize = 8 * k;
            let byte: u8 = 128 * bit(&bits, i, 0) + 64 * bit(&bits, i, 1) + 32 * bit(&bits, i, 2)
                + 16 * bit(&bits, i, 3) + 8 * bit(&bits, i, 4) + 4 * bit(&bits, i, 5) + 2 * bit(
                &bits,
                i,
                6,
            ) + bit(&bits, i, 7);
            bytes.push(byte);
            k += 1;
        }
        assert(bytes@ =~= packed(bits@));
        proof {
            lemma_unpacked_packed(bits@);
        }
        (bytes, n)
    }
}

} // verus!
