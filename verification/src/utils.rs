//! The whole way: a text compressed into a container and protected block by
//! block, and back.

use crate::bits::{lemma_unpack_pack, unpack};
use crate::container::{compress, compressed, decompress, decompressed};
use crate::error::CodecError;
use crate::hamming::{
    decoded_block, encoded_block, extracted, flip, lemma_decode_encoded, placed, syndrome,
    with_parity,
};
use crate::roundtrip::lemma_compress_roundtrip;
use vstd::prelude::*;

verus! {

/// `bytes` filled up with zero bytes to a whole number of blocks of seven.
pub open spec fn pad7(bytes: Seq<u8>) -> Seq<u8> {
    bytes + Seq::new(((7 - bytes.len() % 7) % 7) as nat, |i: int| 0u8)
}

/// Block `k` of seven bytes.
pub open spec fn block7(bytes: Seq<u8>, k: int) -> Seq<u8> {
    bytes.subrange(7 * k, 7 * k + 7)
}

/// Block `k` of eight bytes.
pub open spec fn block8(bytes: Seq<u8>, k: int) -> Seq<u8> {
    bytes.subrange(8 * k, 8 * k + 8)
}

/// Each whole block of seven bytes protected as eight, in order.
pub open spec fn protected(bytes: Seq<u8>) -> Seq<u8> {
    Seq::new(8 * (bytes.len() / 7), |i: int| encoded_block(block7(bytes, i / 8))[i % 8])
}

/// What the first `n` blocks of eight bytes decode to: the data of all of
/// them with the number of corrections, or the first block, by its number,
/// that cannot be corrected.
pub open spec fn recovered_upto(bytes: Seq<u8>, n: nat) -> Result<(Seq<u8>, nat), CodecError>
    decreases n,
{
    if n == 0 {
        Ok((Seq::empty(), 0nat))
    } else {
        match recovered_upto(bytes, (n - 1) as nat) {
            Err(e) => Err(e),
            Ok(before) => match decoded_block(block8(bytes, n - 1)) {
                Err(_) => Err(CodecError::UncorrectableBlock((n - 1) as usize)),
                Ok(found) => Ok((before.0 + found.0, before.1 + found.1)),
            },
        }
    }
}

/// What protected bytes decode to. Bytes that are no whole number of blocks
/// of eight are refused.
pub open spec fn recovered(bytes: Seq<u8>) -> Result<(Seq<u8>, nat), CodecError> {
    if bytes.len() % 8 != 0 {
        Err(CodecError::PartialBlock)
    } else {
        recovered_upto(bytes, bytes.len() / 8)
    }
}

/// The block of seven bytes from position `at`, with zero bytes behind the
/// end of `bytes`.
fn block_at(bytes: &[u8], at: usize) -> (block: [u8; 7])
    requires
        at < bytes@.len(),
    ensures
        block@ == pad7(bytes@).subrange(at as int, at + 7) || at + 7 > pad7(bytes@).len(),
        forall|j: int|
            0 <= j < 7 ==> block@[j] == if at + j < bytes@.len() {
                bytes@[at + j]
            } else {
                0u8
            },
{
    let len = bytes.len();
    let b0 = bytes[at];
    let b1 = if len - at > 1 {
        bytes[at + 1]
    } else {
        0
    };
    let b2 = if len - at > 2 {
        bytes[at + 2]
    } else {
        0
    };
    let b3 = if len - at > 3 {
        bytes[at + 3]
    } else {
        0
    };
    let b4 = if len - at > 4 {
        bytes[at + 4]
    } else {
        0
    };
    let b5 = if len - at > 5 {
        bytes[at + 5]
    } else {
        0
    };
    let b6 = if len - at > 6 {
        bytes[at + 6]
    } else {
        0
    };
    let block: [u8; 7] = [b0, b1, b2, b3, b4, b5, b6];
    proof {
        if at + 7 <= pad7(bytes@).len() {
            assert(block@ =~= pad7(bytes@).subrange(at as int, at + 7));
        }
    }
    block
}

/// Protects `bytes` block by block, the last block filled up with zero bytes.
pub fn protect_padded(bytes: &[u8]) -> (out: Vec<u8>)
    ensures
        out@ == protected(pad7(bytes@)),
{
    let ghost padded = pad7(bytes@);
    let ghost want = protected(padded);
    let len = bytes.len();
    let blocks: usize = len / 7 + if len % 7 != 0 {
        1
    } else {
        0
    };
    let mut out: Vec<u8> = Vec::new();
    let mut k: usize = 0;
    assert(out@ =~= want.take(0));
    assert(padded.len() == 7 * blocks);
    while k < blocks
        invariant
            k <= blocks,
            len == bytes@.len(),
            7 * blocks == padded.len(),
            7 * blocks < len + 7,
            padded == pad7(bytes@),
            want == protected(padded),
            out@ == want.take(8 * k),
        decreases blocks - k,
    {
        let block = block_at(bytes, 7 * k);
        let mut code = crate::hamming::encode(block);
        let ghost before = out@;
        proof {
            assert(block@ == block7(padded, k as int));
        }
        out.append(&mut code);
        proof {
            assert(8 * k + 8 <= want.len());
            assert forall|i: int| 0 <= i < 8 * k + 8 implies out@[i] == want[i] by {
                if i >= 8 * k {
                    assert(i / 8 == k);
                    assert(i % 8 == i - 8 * k);
                } else {
                    assert(before[i] == want.take(8 * k)[i]);
                }
            }
            assert(out@ =~= want.take(8 * k + 8));
        }
        k = k + 1;
    }
    proof {
        assert(want.take(8 * blocks) =~= want);
    }
    out
}

/// Protects `bytes` block by block. Bytes that are no whole number of blocks
/// of seven are refused.
pub fn protect(bytes: &[u8]) -> (r: Result<Vec<u8>, CodecError>)
    ensures
        match r {
            Ok(out) => bytes@.len() % 7 == 0 && out@ == protected(bytes@),
            Err(e) => bytes@.len() % 7 != 0 && e == CodecError::PartialBlock,
        },
{
    if bytes.len() % 7 != 0 {
        return Err(CodecError::PartialBlock);
    }
    assert(pad7(bytes@) =~= bytes@);
    Ok(protect_padded(bytes))
}

/// Checks protected bytes block by block and corrects one wrong bit in each:
/// the number of corrections and, where `repair` is set, the data.
pub fn recover(bytes: &[u8], repair: bool) -> (r: Result<(Option<Vec<u8>>, usize), CodecError>)
    ensures
        match r {
            Ok(found) => {
                &&& recovered(bytes@) is Ok
                &&& found.1 == recovered(bytes@)->Ok_0.1
                &&& found.0 is Some == repair
                &&& repair ==> found.0->0@ == recovered(bytes@)->Ok_0.0
            },
            Err(e) => recovered(bytes@) == Err::<(Seq<u8>, nat), CodecError>(e),
        },
{
    let len = bytes.len();
    if len % 8 != 0 {
        return Err(CodecError::PartialBlock);
    }
    let blocks = len / 8;
    let mut data: Vec<u8> = Vec::new();
    let mut passes: usize = 0;
    let mut k: usize = 0;
    assert(data@ =~= Seq::<u8>::empty());
    while k < blocks
        invariant
            k <= blocks,
            len == bytes@.len(),
            blocks == len / 8,
            len % 8 == 0,
            passes <= k,
            recovered_upto(bytes@, k as nat) == Ok::<(Seq<u8>, nat), CodecError>(
                (recovered_upto(bytes@, k as nat)->Ok_0.0, passes as nat),
            ),
            repair ==> data@ == recovered_upto(bytes@, k as nat)->Ok_0.0,
        decreases blocks - k,
    {
        let at = 8 * k;
        let block: [u8; 8] = [
            bytes[at],
            bytes[at + 1],
            bytes[at + 2],
            bytes[at + 3],
            bytes[at + 4],
            bytes[at + 5],
            bytes[at + 6],
            bytes[at + 7],
        ];
        assert(block@ =~= block8(bytes@, k as int));
        match crate::hamming::decode(block, repair) {
            Err(_) => {
                proof {
                    lemma_recovered_error(bytes@, (k + 1) as nat, blocks as nat);
                }
                return Err(CodecError::UncorrectableBlock(k));
            },
            Ok(found) => {
                if let Some(mut part) = found.0 {
                    data.append(&mut part);
                }
                proof {
                    assert(found.1 <= 1);
                }
                passes = passes + found.1;
            },
        }
        k = k + 1;
    }
    if repair {
        Ok((Some(data), passes))
    } else {
        Ok((None, passes))
    }
}

/// Compresses `text` into a container and protects the container block by
/// block, the last block filled up with zero bytes. The container does not
/// tell its length, so the zero bytes reach `decode` as coded data: only a
/// container of a whole number of blocks comes back as the text it was made
/// of.
pub fn encode(text: &str) -> (out: Vec<u8>)
    requires
        text@.len() > 0,
    ensures
        out@ == protected(pad7(compressed(text@))),
{
    let container = compress(text);
    protect_padded(container.as_slice())
}

/// Checks and corrects protected bytes block by block and, where `repair` is
/// set, reads the text from the container that their data is. Gives the
/// number of corrections with the text.
pub fn decode(bytes: &[u8], repair: bool) -> (r: Result<(Option<String>, usize), CodecError>)
    requires
        64 * bytes@.len() <= usize::MAX,
    ensures
        match recovered(bytes@) {
            Err(e) => r == Err::<(Option<String>, usize), CodecError>(e),
            Ok(found) => if !repair {
                r == Ok::<(Option<String>, usize), CodecError>((None, found.1 as usize))
            } else {
                match decompressed(found.0) {
                    Err(e) => r == Err::<(Option<String>, usize), CodecError>(e),
                    Ok(text) => r is Ok && r->Ok_0.1 == found.1 && r->Ok_0.0 is Some
                        && r->Ok_0.0->0@ == text,
                }
            },
        },
{
    match recover(bytes, repair) {
        Err(e) => Err(e),
        Ok(found) => match found.0 {
            None => Ok((None, found.1)),
            Some(data) => {
                proof {
                    lemma_recovered_len(bytes@, bytes@.len() / 8);
                }
                match decompress(data.as_slice()) {
                    Err(e) => Err(e),
                    Ok(text) => Ok((Some(text), found.1)),
                }
            },
        },
    }
}

/// Seven bytes of data come from each block of eight.
pub proof fn lemma_recovered_len(bytes: Seq<u8>, n: nat)
    requires
        8 * n <= bytes.len(),
    ensures
        recovered_upto(bytes, n) is Ok ==> recovered_upto(bytes, n)->Ok_0.0.len() == 7 * n
            && recovered_upto(bytes, n)->Ok_0.1 <= n,
    decreases n,
{
    if n > 0 {
        lemma_recovered_len(bytes, (n - 1) as nat);
        let frame = unpack(block8(bytes, n - 1));
        let s = syndrome(frame);
        lemma_unpack_pack(extracted(frame));
        if 1 <= s <= 64 {
            lemma_unpack_pack(extracted(flip(frame, s - 1)));
        }
    }
}

/// A block that cannot be corrected stops the decoding of all that follow.
pub proof fn lemma_recovered_error(bytes: Seq<u8>, m: nat, n: nat)
    requires
        m <= n,
        recovered_upto(bytes, m) is Err,
    ensures
        recovered_upto(bytes, n) == recovered_upto(bytes, m),
    decreases n,
{
    if m < n {
        lemma_recovered_error(bytes, m, (n - 1) as nat);
    }
}

/// A protected block is eight bytes.
pub proof fn lemma_encoded_block_len(block: Seq<u8>)
    requires
        block.len() == 7,
    ensures
        encoded_block(block).len() == 8,
{
    lemma_unpack_pack(with_parity(placed(unpack(block))));
}

/// Block `k` of protected bytes is block `k` of the bytes, protected.
pub proof fn lemma_protected_block(bytes: Seq<u8>, k: int)
    requires
        0 <= k,
        7 * k + 7 <= bytes.len(),
    ensures
        block8(protected(bytes), k) == encoded_block(block7(bytes, k)),
{
    let block = block7(bytes, k);
    lemma_encoded_block_len(block);
    let code = block8(protected(bytes), k);
    assert(8 * k + 8 <= protected(bytes).len());
    assert forall|i: int| 0 <= i < 8 implies code[i] == encoded_block(block)[i] by {
        let at = 8 * k + i;
        assert(at / 8 == k);
        assert(at % 8 == i);
        assert(protected(bytes)[at] == encoded_block(block7(bytes, at / 8))[at % 8]);
    }
    assert(code =~= encoded_block(block));
}

/// Protected blocks decode to the bytes that were protected, with no
/// correction.
pub proof fn lemma_recover_protected(bytes: Seq<u8>, n: nat)
    requires
        7 * n <= bytes.len(),
    ensures
        recovered_upto(protected(bytes), n) == Ok::<(Seq<u8>, nat), CodecError>(
            (bytes.take(7 * (n as int)), 0nat),
        ),
    decreases n,
{
    if n == 0 {
        assert(bytes.take(0) =~= Seq::<u8>::empty());
    } else {
        lemma_recover_protected(bytes, (n - 1) as nat);
        let block = block7(bytes, n - 1);
        lemma_decode_encoded(block);
        lemma_protected_block(bytes, n - 1);
        assert(bytes.take(7 * (n - 1)) + block =~= bytes.take(7 * (n as int)));
    }
}

/// Bytes that are a whole number of blocks, protected, decode to themselves
/// with no correction.
pub proof fn lemma_recover_whole(bytes: Seq<u8>)
    requires
        bytes.len() % 7 == 0,
    ensures
        pad7(bytes) == bytes,
        recovered(protected(bytes)) == Ok::<(Seq<u8>, nat), CodecError>((bytes, 0nat)),
{
    assert(pad7(bytes) =~= bytes);
    let n = bytes.len() / 7;
    lemma_recover_protected(bytes, n);
    assert(bytes.take(7 * (n as int)) =~= bytes);
    assert(protected(bytes).len() == 8 * n);
}

/// What `encode` makes of a text whose container is a whole number of blocks
/// decodes to the text, with no correction.
pub proof fn lemma_pipeline_roundtrip(text: Seq<char>)
    requires
        text.len() > 0,
        compressed(text).len() % 7 == 0,
    ensures
        recovered(protected(pad7(compressed(text)))) == Ok::<(Seq<u8>, nat), CodecError>(
            (compressed(text), 0nat),
        ),
        decompressed(compressed(text)) == Ok::<Seq<char>, CodecError>(text),
{
    lemma_recover_whole(compressed(text));
    lemma_compress_roundtrip(text);
}

} // verus!
