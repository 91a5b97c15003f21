//! Bit sequences: their arithmetic meaning, how they pack into bytes, and the
//! bit vector (`bitvec`'s `BitVec<u8, Msb0>`) that holds them at run time.

use bitvec::order::Msb0;
use bitvec::vec::BitVec;
use vstd::prelude::*;

verus! {

/// Two to the power `n`.
pub open spec fn two_pow(n: nat) -> nat
    decreases n,
{
    if n == 0 {
        1
    } else {
        2 * two_pow((n - 1) as nat)
    }
}

/// The `n` low bits of `x`, most significant first.
pub open spec fn to_bits(x: nat, n: nat) -> Seq<bool>
    decreases n,
{
    if n == 0 {
        Seq::empty()
    } else {
        to_bits(x / 2, (n - 1) as nat).push(x % 2 == 1)
    }
}

/// The number whose binary digits, most significant first, are `bits`.
pub open spec fn from_bits(bits: Seq<bool>) -> nat
    decreases bits.len(),
{
    if bits.len() == 0 {
        0
    } else {
        2 * from_bits(bits.drop_last()) + if bits.last() {
            1nat
        } else {
            0nat
        }
    }
}

/// `n` cleared bits.
pub open spec fn zeros(n: nat) -> Seq<bool> {
    Seq::new(n, |i: int| false)
}

/// The number of unused bits in the last byte of `n` packed bits.
pub open spec fn padding_for(n: nat) -> nat {
    ((8 - n % 8) % 8) as nat
}

/// `bits` followed by cleared bits up to the next byte boundary.
pub open spec fn padded(bits: Seq<bool>) -> Seq<bool> {
    bits + zeros(padding_for(bits.len()))
}

/// The bits of `bytes`, each byte most significant bit first.
pub open spec fn unpack(bytes: Seq<u8>) -> Seq<bool> {
    Seq::new(8 * bytes.len(), |i: int| to_bits(bytes[i / 8] as nat, 8)[i % 8])
}

/// `bits` packed eight to a byte, most significant bit first; the unused low
/// bits of the last byte are cleared.
pub open spec fn pack(bits: Seq<bool>) -> Seq<u8> {
    Seq::new(
        padded(bits).len() / 8,
        |i: int| from_bits(padded(bits).subrange(8 * i, 8 * i + 8)) as u8,
    )
}

/// The four bytes of `x`, most significant first.
pub open spec fn be_bytes(x: u32) -> Seq<u8> {
    seq![
        (x / 0x100_0000) as u8,
        ((x / 0x1_0000) % 256) as u8,
        ((x / 0x100) % 256) as u8,
        (x % 256) as u8,
    ]
}

/// The number that four bytes spell, most significant first.
pub open spec fn be_value(bytes: Seq<u8>) -> nat {
    (bytes[0] * 0x100_0000 + bytes[1] * 0x1_0000 + bytes[2] * 0x100 + bytes[3]) as nat
}

/// The four bytes of a number spell the number.
pub proof fn lemma_be_roundtrip(x: u32)
    ensures
        be_bytes(x).len() == 4,
        be_value(be_bytes(x)) == x,
{
    let v = x as int;
    let hi = v / 0x1_0000;
    let lo = v % 0x1_0000;
    assert(v == hi * 0x1_0000 + lo);
    assert(hi == (hi / 0x100) * 0x100 + hi % 0x100);
    assert(lo == (lo / 0x100) * 0x100 + lo % 0x100);
    assert(v / 0x100_0000 == hi / 0x100);
    assert((v / 0x100) % 0x100 == lo / 0x100) by {
        vstd::arithmetic::div_mod::lemma_fundamental_div_mod_converse(
            v,
            0x100,
            hi * 0x100 + lo / 0x100,
            lo % 0x100,
        );
        vstd::arithmetic::div_mod::lemma_fundamental_div_mod_converse(
            hi * 0x100 + lo / 0x100,
            0x100,
            hi,
            lo / 0x100,
        );
    }
    assert(v % 0x100 == lo % 0x100);
}

/// The number that four bytes spell has these four bytes.
pub proof fn lemma_be_bytes_of_value(bytes: Seq<u8>)
    requires
        bytes.len() == 4,
    ensures
        be_value(bytes) <= u32::MAX,
        be_bytes(be_value(bytes) as u32) == bytes,
{
    let b0 = bytes[0] as int;
    let b1 = bytes[1] as int;
    let b2 = bytes[2] as int;
    let b3 = bytes[3] as int;
    let v = be_value(bytes) as int;
    vstd::arithmetic::div_mod::lemma_fundamental_div_mod_converse(
        v,
        0x100_0000,
        b0,
        b1 * 0x1_0000 + b2 * 0x100 + b3,
    );
    vstd::arithmetic::div_mod::lemma_fundamental_div_mod_converse(
        v,
        0x1_0000,
        b0 * 0x100 + b1,
        b2 * 0x100 + b3,
    );
    vstd::arithmetic::div_mod::lemma_fundamental_div_mod_converse(b0 * 0x100 + b1, 0x100, b0, b1);
    vstd::arithmetic::div_mod::lemma_fundamental_div_mod_converse(
        v,
        0x100,
        b0 * 0x1_0000 + b1 * 0x100 + b2,
        b3,
    );
    vstd::arithmetic::div_mod::lemma_fundamental_div_mod_converse(
        b0 * 0x1_0000 + b1 * 0x100 + b2,
        0x100,
        b0 * 0x100 + b1,
        b2,
    );
    assert(be_bytes(be_value(bytes) as u32) =~= bytes);
}

/// The `n` low bits are `n` bits.
pub proof fn lemma_to_bits_len(x: nat, n: nat)
    ensures
        to_bits(x, n).len() == n,
    decreases n,
{
    if n > 0 {
        lemma_to_bits_len(x / 2, (n - 1) as nat);
    }
}

/// Bits spell a number below two to the power of their count.
pub proof fn lemma_from_bits_bound(bits: Seq<bool>)
    ensures
        from_bits(bits) < two_pow(bits.len()),
    decreases bits.len(),
{
    if bits.len() > 0 {
        lemma_from_bits_bound(bits.drop_last());
    }
}

/// The `n` low bits of a number below two to the `n` spell the number.
pub proof fn lemma_from_to_bits(x: nat, n: nat)
    requires
        x < two_pow(n),
    ensures
        from_bits(to_bits(x, n)) == x,
    decreases n,
{
    if n > 0 {
        let rest = to_bits(x / 2, (n - 1) as nat);
        lemma_from_to_bits(x / 2, (n - 1) as nat);
        lemma_to_bits_len(x / 2, (n - 1) as nat);
        assert(to_bits(x, n).drop_last() =~= rest);
    }
}

/// The number that bits spell has these bits as its low bits.
pub proof fn lemma_to_from_bits(bits: Seq<bool>)
    ensures
        to_bits(from_bits(bits), bits.len()) == bits,
    decreases bits.len(),
{
    if bits.len() > 0 {
        lemma_to_from_bits(bits.drop_last());
        assert(from_bits(bits) / 2 == from_bits(bits.drop_last()));
        assert(bits.drop_last().push(bits.last()) =~= bits);
    } else {
        assert(bits =~= Seq::<bool>::empty());
    }
}

/// Appending a bit doubles the number and adds the bit.
pub proof fn lemma_to_bits_push(x: nat, n: nat, bit: bool)
    ensures
        to_bits(
            2 * x + if bit {
                1nat
            } else {
                0nat
            },
            n + 1,
        ) == to_bits(x, n).push(bit),
{
    let y = 2 * x + if bit {
        1nat
    } else {
        0nat
    };
    assert(y / 2 == x);
    assert((y % 2 == 1) == bit);
}

/// Two to the power eight is 256.
pub proof fn lemma_two_pow_8()
    ensures
        two_pow(8) == 256,
{
    reveal_with_fuel(two_pow, 9);
}

/// Padded bits fill whole bytes, with at most seven bits added.
pub proof fn lemma_padded_len(bits: Seq<bool>)
    ensures
        padded(bits).len() == bits.len() + padding_for(bits.len()),
        padded(bits).len() % 8 == 0,
        padded(bits).len() / 8 == (bits.len() + 7) / 8,
        padding_for(bits.len()) <= 7,
{
}

/// The bits of bytes with one more byte are the bits of the bytes, then the
/// byte's bits.
pub proof fn lemma_unpack_push(bytes: Seq<u8>, byte: u8)
    ensures
        unpack(bytes.push(byte)) == unpack(bytes) + to_bits(byte as nat, 8),
{
    lemma_to_bits_len(byte as nat, 8);
    let l = unpack(bytes.push(byte));
    let r = unpack(bytes) + to_bits(byte as nat, 8);
    assert(l.len() == r.len());
    assert forall|i: int| 0 <= i < l.len() implies l[i] == r[i] by {
        if i < 8 * bytes.len() {
            assert(bytes.push(byte)[i / 8] == bytes[i / 8]);
        } else {
            assert(i / 8 == bytes.len());
            assert(i % 8 == i - 8 * bytes.len());
        }
    }
    assert(l =~= r);
}

/// Byte `i` of `bytes` is the number that its eight bits spell.
pub proof fn lemma_unpack_chunk(bytes: Seq<u8>, i: int)
    requires
        0 <= i < bytes.len(),
    ensures
        unpack(bytes).subrange(8 * i, 8 * i + 8) == to_bits(bytes[i] as nat, 8),
        from_bits(unpack(bytes).subrange(8 * i, 8 * i + 8)) == bytes[i],
{
    lemma_to_bits_len(bytes[i] as nat, 8);
    let chunk = unpack(bytes).subrange(8 * i, 8 * i + 8);
    let want = to_bits(bytes[i] as nat, 8);
    assert forall|k: int| 0 <= k < 8 implies chunk[k] == want[k] by {
        assert((8 * i + k) / 8 == i);
        assert((8 * i + k) % 8 == k);
    }
    assert(chunk =~= want);
    lemma_two_pow_8();
    lemma_from_to_bits(bytes[i] as nat, 8);
}

/// Bytes whose bits are the padded form of `bits` are `bits` packed.
pub proof fn lemma_pack_of_unpacked(bits: Seq<bool>, bytes: Seq<u8>)
    requires
        padded(bits) == unpack(bytes),
    ensures
        pack(bits) == bytes,
{
    let p = pack(bits);
    assert(p.len() == bytes.len());
    assert forall|i: int| 0 <= i < p.len() implies p[i] == bytes[i] by {
        lemma_unpack_chunk(bytes, i);
    }
    assert(p =~= bytes);
}

/// Packing the bits of bytes gives the bytes back.
pub proof fn lemma_pack_unpack(bytes: Seq<u8>)
    ensures
        pack(unpack(bytes)) == bytes,
{
    assert(padded(unpack(bytes)) =~= unpack(bytes));
    lemma_pack_of_unpacked(unpack(bytes), bytes);
}

/// Unpacking what was packed gives the bits back, followed by the padding.
pub proof fn lemma_unpack_pack(bits: Seq<bool>)
    ensures
        unpack(pack(bits)) == padded(bits),
        unpack(pack(bits)).take(bits.len() as int) == bits,
        pack(bits).len() == (bits.len() + 7) / 8,
{
    lemma_padded_len(bits);
    let u = unpack(pack(bits));
    let p = padded(bits);
    assert(u.len() == p.len());
    assert forall|i: int| 0 <= i < u.len() implies u[i] == p[i] by {
        let j = i / 8;
        let chunk = p.subrange(8 * j, 8 * j + 8);
        lemma_from_bits_bound(chunk);
        lemma_two_pow_8();
        lemma_to_from_bits(chunk);
        assert(pack(bits)[j] as nat == from_bits(chunk));
        assert(chunk[i % 8] == p[i]);
    }
    assert(u =~= p);
    assert(p.take(bits.len() as int) =~= bits);
}

/// A growable sequence of bits: `bitvec`'s `BitVec<u8, Msb0>`, of which
/// nothing is known but what `bit_seq` tells.
#[derive(Debug)]
#[verifier::external_body]
pub struct Bits {
    inner: BitVec<u8, Msb0>,
}

/// The bits that a bit vector holds, in the order of their positions.
pub uninterp spec fn bit_seq(v: Bits) -> Seq<bool>;

impl View for Bits {
    type V = Seq<bool>;

    open spec fn view(&self) -> Seq<bool> {
        bit_seq(*self)
    }
}

/// The largest number of bits that a bit vector holds.
pub open spec fn max_bits() -> nat {
    (usize::MAX / 8) as nat
}

/// `BitVec::new`: a bit vector that holds no bit.
#[verifier::external_body]
pub(crate) fn bits_new() -> (v: Bits)
    ensures
        bit_seq(v) == Seq::<bool>::empty(),
{
    Bits { inner: BitVec::new() }
}

/// `BitVec::len`: the number of bits held, which the vector's encoding keeps
/// within `max_bits()`.
#[verifier::external_body]
pub(crate) fn bits_len(v: &Bits) -> (n: usize)
    ensures
        n == bit_seq(*v).len(),
        n <= max_bits(),
{
    v.inner.len()
}

/// `BitVec::push`: appends one bit. `BitVec` panics when asked to grow beyond
/// `max_bits()`.
#[verifier::external_body]
pub(crate) fn bits_push(v: &mut Bits, bit: bool)
    requires
        bit_seq(*old(v)).len() < max_bits(),
    ensures
        bit_seq(*final(v)) == bit_seq(*old(v)).push(bit),
{
    v.inner.push(bit)
}

/// `BitVec::pop`: removes the last bit and returns it, or returns `None` and
/// changes nothing where there is no bit.
#[verifier::external_body]
pub(crate) fn bits_pop(v: &mut Bits) -> (bit: Option<bool>)
    ensures
        bit_seq(*old(v)).len() == 0 ==> bit is None && bit_seq(*final(v)) == bit_seq(*old(v)),
        bit_seq(*old(v)).len() > 0 ==> bit == Some(bit_seq(*old(v)).last()) && bit_seq(*final(v))
            == bit_seq(*old(v)).drop_last(),
{
    v.inner.pop()
}

/// Indexing a `BitVec`: the bit at position `i`. Indexing panics out of range.
#[verifier::external_body]
pub(crate) fn bits_get(v: &Bits, i: usize) -> (bit: bool)
    requires
        i < bit_seq(*v).len(),
    ensures
        bit == bit_seq(*v)[i as int],
{
    v.inner[i]
}

/// `BitSlice::set`: writes the bit at position `i` and leaves the others.
/// `set` panics out of range.
#[verifier::external_body]
pub(crate) fn bits_set(v: &mut Bits, i: usize, bit: bool)
    requires
        i < bit_seq(*old(v)).len(),
    ensures
        bit_seq(*final(v)) == bit_seq(*old(v)).update(i as int, bit),
{
    v.inner.set(i, bit)
}

/// `BitVec::clone`: a bit vector that holds the same bits.
#[verifier::external_body]
pub(crate) fn bits_clone(v: &Bits) -> (copy: Bits)
    ensures
        bit_seq(copy) == bit_seq(*v),
{
    Bits { inner: v.inner.clone() }
}

/// `BitVec::from_vec`: a bit vector over every bit of `bytes`, each byte most
/// significant bit first. `from_vec` panics where the bits are more than
/// `max_bits()`.
#[verifier::external_body]
pub(crate) fn bits_from_vec(bytes: Vec<u8>) -> (v: Bits)
    requires
        8 * bytes@.len() <= max_bits(),
    ensures
        bit_seq(v) == unpack(bytes@),
{
    Bits { inner: BitVec::from_vec(bytes) }
}

/// The number of bits that a value of `T` takes in memory.
pub fn size_of_bits<T>() -> (bits: usize)
    requires
        vstd::layout::size_of::<T>() * 8 <= usize::MAX,
    ensures
        bits == vstd::layout::size_of::<T>() * 8,
{
    std::mem::size_of::<T>() * 8
}

/// Bit `k` of `byte`, counted from the most significant.
pub fn bit_of_byte(byte: u8, k: u8) -> (bit: bool)
    requires
        k < 8,
    ensures
        bit == to_bits(byte as nat, 8)[k as int],
{
    let s: u8 = 7 - k;
    let shifted: u8 = byte >> s;
    proof {
        let b = byte;
        assert(s < 8 ==> (((b >> s) & 1 == 1) <==> (s == 7 && (b / 128) % 2 == 1) || (s == 6 && (b
            / 64) % 2 == 1) || (s == 5 && (b / 32) % 2 == 1) || (s == 4 && (b / 16) % 2 == 1) || (s
            == 3 && (b / 8) % 2 == 1) || (s == 2 && (b / 4) % 2 == 1) || (s == 1 && (b / 2) % 2
            == 1) || (s == 0 && b % 2 == 1))) by (bit_vector);
        reveal_with_fuel(to_bits, 9);
    }
    shifted & 1 == 1
}

/// The four bytes of `x`, most significant first.
pub fn u32_to_be(x: u32) -> (bytes: [u8; 4])
    ensures
        bytes@ == be_bytes(x),
{
    let bytes: [u8; 4] = [
        (x / 0x100_0000) as u8,
        ((x / 0x1_0000) % 256) as u8,
        ((x / 0x100) % 256) as u8,
        (x % 256) as u8,
    ];
    assert(bytes@ =~= be_bytes(x));
    bytes
}

/// The number that four bytes spell, most significant first.
pub fn u32_from_be(b0: u8, b1: u8, b2: u8, b3: u8) -> (x: u32)
    ensures
        x == be_value(seq![b0, b1, b2, b3]),
{
    let hi: u32 = (b0 as u32) * 0x100_0000 + (b1 as u32) * 0x1_0000;
    hi + (b2 as u32) * 0x100 + (b3 as u32)
}

/// Packs bits into bytes as they arrive.
pub struct BitWriter {
    bytes: Vec<u8>,
    cur: u8,
    filled: u8,
}

impl View for BitWriter {
    type V = Seq<bool>;

    /// The bits written so far.
    closed spec fn view(&self) -> Seq<bool> {
        unpack(self.bytes@) + to_bits(self.cur as nat, self.filled as nat)
    }
}

impl BitWriter {
    /// The byte that is being filled holds fewer than eight bits.
    pub closed spec fn wf(&self) -> bool {
        &&& self.filled < 8
        &&& self.cur < two_pow(self.filled as nat)
    }

    /// A writer that has written nothing.
    pub fn new() -> (w: BitWriter)
        ensures
            w.wf(),
            w@ == Seq::<bool>::empty(),
    {
        let w = BitWriter { bytes: Vec::new(), cur: 0, filled: 0 };
        assert(w@ =~= Seq::<bool>::empty());
        w
    }

    /// Appends one bit.
    pub fn push(&mut self, bit: bool)
        requires
            old(self).wf(),
        ensures
            final(self).wf(),
            final(self)@ == old(self)@.push(bit),
    {
        proof {
            reveal_with_fuel(two_pow, 9);
            lemma_to_bits_push(self.cur as nat, self.filled as nat, bit);
            lemma_to_bits_len(self.cur as nat, self.filled as nat);
        }
        let ghost before = self@;
        let ghost old_bytes = self.bytes@;
        let next: u8 = 2 * self.cur + if bit {
            1u8
        } else {
            0u8
        };
        if self.filled == 7 {
            self.bytes.push(next);
            self.cur = 0;
            self.filled = 0;
            proof {
                lemma_unpack_push(old_bytes, next);
                assert(self@ =~= before.push(bit));
            }
        } else {
            self.cur = next;
            self.filled = self.filled + 1;
            assert(self@ =~= before.push(bit));
        }
    }

    /// Closes the last byte with cleared bits and hands out the bytes with the
    /// number of bits that were added.
    pub fn finish(self) -> (r: (Vec<u8>, u8))
        requires
            self.wf(),
        ensures
            r.0@ == pack(self@),
            r.1 == padding_for(self@.len()),
    {
        let ghost bits = self@;
        let mut bytes = self.bytes;
        proof {
            lemma_to_bits_len(self.cur as nat, self.filled as nat);
        }
        if self.filled == 0 {
            proof {
                assert(bits =~= unpack(bytes@));
                lemma_pack_unpack(bytes@);
            }
            (bytes, 0)
        } else {
            let padding: u8 = 8 - self.filled;
            let mut acc: u8 = self.cur;
            let mut k: u8 = 0;
            proof {
                reveal_with_fuel(two_pow, 9);
                assert(to_bits(acc as nat, self.filled as nat) + zeros(0) =~= to_bits(
                    self.cur as nat,
                    self.filled as nat,
                ));
            }
            while k < padding
                invariant
                    k <= padding,
                    padding == 8 - self.filled,
                    0 < self.filled < 8,
                    acc < two_pow((self.filled + k) as nat),
                    to_bits(acc as nat, (self.filled + k) as nat) == to_bits(
                        self.cur as nat,
                        self.filled as nat,
                    ) + zeros(k as nat),
                decreases padding - k,
            {
                proof {
                    reveal_with_fuel(two_pow, 9);
                    lemma_to_bits_push(acc as nat, (self.filled + k) as nat, false);
                    assert((to_bits(self.cur as nat, self.filled as nat) + zeros(k as nat)).push(
                        false,
                    ) =~= to_bits(self.cur as nat, self.filled as nat) + zeros((k + 1) as nat));
                }
                acc = 2 * acc;
                k = k + 1;
            }
            let ghost old_bytes = bytes@;
            bytes.push(acc);
            proof {
                lemma_unpack_push(old_bytes, acc);
                assert(padding_for(bits.len()) == padding);
                assert(padded(bits) =~= unpack(bytes@));
                lemma_pack_of_unpacked(bits, bytes@);
            }
            (bytes, padding)
        }
    }
}

impl Clone for Bits {
    /// A bit sequence that holds the same bits.
    fn clone(&self) -> (copy: Self)
        ensures
            copy@ == self@,
    {
        bits_clone(self)
    }
}

impl Bits {
    /// An empty bit sequence.
    pub fn new() -> (v: Bits)
        ensures
            v@ == Seq::<bool>::empty(),
    {
        bits_new()
    }

    /// The number of bits.
    pub fn len(&self) -> (n: usize)
        ensures
            n == self@.len(),
            n <= max_bits(),
    {
        bits_len(self)
    }

    /// The bit at position `i`, or `None` past the end.
    pub fn get(&self, i: usize) -> (bit: Option<bool>)
        ensures
            bit == if i < self@.len() {
                Some(self@[i as int])
            } else {
                None
            },
    {
        if i < bits_len(self) {
            Some(bits_get(self, i))
        } else {
            None
        }
    }

    /// The same bits followed by `bit`.
    pub fn extended(&self, bit: bool) -> (v: Bits)
        requires
            self@.len() < max_bits(),
        ensures
            v@ == self@.push(bit),
    {
        let mut v = bits_clone(self);
        bits_push(&mut v, bit);
        v
    }

    /// The bits of `bools`, in order.
    pub fn from_bools(bools: &[bool]) -> (v: Bits)
        requires
            bools@.len() <= max_bits(),
        ensures
            v@ == bools@,
    {
        let mut v = bits_new();
        let mut i: usize = 0;
        while i < bools.len()
            invariant
                i <= bools@.len(),
                bools@.len() <= max_bits(),
                v@ == bools@.take(i as int),
            decreases bools@.len() - i,
        {
            bits_push(&mut v, bools[i]);
            i = i + 1;
            assert(v@ =~= bools@.take(i as int));
        }
        assert(bools@.take(bools@.len() as int) =~= bools@);
        v
    }

    /// The bits as a vector of `bool`.
    pub fn to_bools(&self) -> (bools: Vec<bool>)
        ensures
            bools@ == self@,
    {
        let n = bits_len(self);
        let mut bools: Vec<bool> = Vec::new();
        let mut i: usize = 0;
        while i < n
            invariant
                n == self@.len(),
                i <= n,
                bools@ == self@.take(i as int),
            decreases n - i,
        {
            bools.push(bits_get(self, i));
            i = i + 1;
            assert(bools@ =~= self@.take(i as int));
        }
        assert(self@.take(n as int) =~= self@);
        bools
    }

    /// The bits packed into bytes, most significant bit first, the last byte
    /// filled up with cleared bits.
    pub fn pack(&self) -> (bytes: Vec<u8>)
        ensures
            bytes@ == pack(self@),
    {
        let n = bits_len(self);
        let mut w = BitWriter::new();
        let mut i: usize = 0;
        while i < n
            invariant
                n == self@.len(),
                i <= n,
                w.wf(),
                w@ == self@.take(i as int),
            decreases n - i,
        {
            w.push(bits_get(self, i));
            i = i + 1;
            assert(w@ =~= self@.take(i as int));
        }
        assert(self@.take(n as int) =~= self@);
        let (bytes, _) = w.finish();
        bytes
    }

    /// The bits of `bytes` without the last `padding` of them.
    pub fn unpack(bytes: &[u8], padding: u8) -> (v: Bits)
        requires
            8 * bytes@.len() <= max_bits(),
        ensures
            v@ == unpack(bytes@).take(
                if 8 * bytes@.len() >= padding {
                    8 * bytes@.len() - padding
                } else {
                    0
                },
            ),
    {
        let mut v = bits_from_vec(vstd::slice::slice_to_vec(bytes));
        let ghost all = v@;
        let mut k: u8 = 0;
        assert(all.take(all.len() as int) =~= all);
        while k < padding
            invariant
                k <= padding,
                all == unpack(bytes@),
                v@ == all.take(
                    if all.len() >= k {
                        all.len() - k
                    } else {
                        0
                    },
                ),
            decreases padding - k,
        {
            let ghost before = v@;
            let _ = bits_pop(&mut v);
            k = k + 1;
            assert(v@ =~= all.take(
                if all.len() >= k {
                    all.len() - k
                } else {
                    0
                },
            ));
        }
        v
    }
}

} // verus!
