//! A single-error-correcting block code: seven bytes of data in a frame of
//! 64 bits with seven parity bits.
//!
//! Positions of a frame count from 0, the most significant bit of the first
//! byte. The parity bits stand at positions 0, 1, 3, 7, 15, 31 and 63;
//! position 2 is always cleared; the other 56 positions hold the data in
//! order. Check `j` covers the positions `i` for which bit `j` of `i + 1` is
//! set, and holds where an even number of covered bits is set. The checks
//! that fail, each with the weight two to the `j`, add up to the syndrome: for
//! a frame with one wrong bit, the wrong bit's position plus one.

use crate::bits::{
    bits_get, bits_new, bits_push, bits_set, lemma_pack_unpack, lemma_unpack_pack, pack, padded,
    two_pow, unpack, BitWriter, Bits,
};
use crate::error::CodecError;
use vstd::prelude::*;

verus! {

/// The number of checks.
pub const CHECKS: usize = 7;

/// The number of corrections after which a frame is given up.
pub const MAX_PASSES: usize = 2;

/// Binary digit `j` of `x`, counted from the least significant.
pub open spec fn digit(x: int, j: nat) -> bool
    decreases j,
{
    if j == 0 {
        x % 2 == 1
    } else {
        digit(x / 2, (j - 1) as nat)
    }
}

/// Check `j` covers position `i`.
pub open spec fn covers(j: nat, i: int) -> bool {
    digit(i + 1, j)
}

/// Position `i` holds no data: a parity bit or the cleared bit.
pub open spec fn is_reserved(i: int) -> bool {
    i == 0 || i == 1 || i == 2 || i == 3 || i == 7 || i == 15 || i == 31 || i == 63
}

/// The frame position of data bit `k`.
pub open spec fn frame_index(k: int) -> int {
    if k < 3 {
        k + 4
    } else if k < 10 {
        k + 5
    } else if k < 25 {
        k + 6
    } else {
        k + 7
    }
}

/// The data bit that frame position `i` holds, for a position that holds one.
pub open spec fn data_index(i: int) -> int {
    if i < 7 {
        i - 4
    } else if i < 15 {
        i - 5
    } else if i < 31 {
        i - 6
    } else {
        i - 7
    }
}

/// Whether an odd number of the set bits among the first `n` positions is
/// covered by check `j`.
pub open spec fn check(frame: Seq<bool>, j: nat, n: int) -> bool
    decreases n,
{
    if n <= 0 {
        false
    } else {
        check(frame, j, n - 1) != (frame[n - 1] && covers(j, n - 1))
    }
}

/// The weights of the failing checks among the first `j`, added up.
pub open spec fn syndrome_upto(frame: Seq<bool>, j: nat) -> nat
    decreases j,
{
    if j == 0 {
        0
    } else {
        syndrome_upto(frame, (j - 1) as nat) + if check(frame, (j - 1) as nat, 64) {
            two_pow((j - 1) as nat)
        } else {
            0
        }
    }
}

/// The syndrome of a frame.
pub open spec fn syndrome(frame: Seq<bool>) -> nat {
    syndrome_upto(frame, 7)
}

/// The frame with the 56 bits of `data` at their places and every other
/// position cleared.
pub open spec fn placed(data: Seq<bool>) -> Seq<bool> {
    Seq::new(
        64,
        |i: int|
            if is_reserved(i) {
                false
            } else {
                data[data_index(i)]
            },
    )
}

/// The frame with each parity bit set to what its check finds.
pub open spec fn with_parity(frame: Seq<bool>) -> Seq<bool> {
    frame.update(0, check(frame, 0, 64)).update(1, check(frame, 1, 64)).update(
        3,
        check(frame, 2, 64),
    ).update(7, check(frame, 3, 64)).update(15, check(frame, 4, 64)).update(
        31,
        check(frame, 5, 64),
    ).update(63, check(frame, 6, 64))
}

/// The 56 data bits of a frame.
pub open spec fn extracted(frame: Seq<bool>) -> Seq<bool> {
    Seq::new(56, |k: int| frame[frame_index(k)])
}

/// The frame with the bit at position `i` inverted.
pub open spec fn flip(frame: Seq<bool>, i: int) -> Seq<bool> {
    frame.update(i, !frame[i])
}

/// The eight bytes that protect the seven bytes of `block`.
pub open spec fn encoded_block(block: Seq<u8>) -> Seq<u8> {
    pack(with_parity(placed(unpack(block))))
}

/// The bytes of `code` with bit `i` inverted.
pub open spec fn flipped(code: Seq<u8>, i: int) -> Seq<u8> {
    pack(flip(unpack(code), i))
}

/// What eight bytes decode to: the seven bytes of data with the number of
/// corrections, none for a syndrome of zero and one for a syndrome that
/// points into the frame. A syndrome that points behind the frame cannot be
/// corrected.
pub open spec fn decoded_block(code: Seq<u8>) -> Result<(Seq<u8>, nat), CodecError> {
    let frame = unpack(code);
    let s = syndrome(frame);
    if s == 0 {
        Ok((pack(extracted(frame)), 0nat))
    } else if s <= 64 {
        Ok((pack(extracted(flip(frame, s - 1))), 1nat))
    } else {
        Err(CodecError::UncorrectableBlock(0))
    }
}

/// Writing one bit changes a check just where the bit changes and the check
/// covers its position.
pub proof fn lemma_check_update(frame: Seq<bool>, i: int, bit: bool, j: nat, n: int)
    requires
        0 <= i < frame.len(),
        0 <= n <= frame.len(),
    ensures
        check(frame.update(i, bit), j, n) == (check(frame, j, n) != (i < n && covers(j, i)
            && frame[i] != bit)),
    decreases n,
{
    if n > 0 {
        lemma_check_update(frame, i, bit, j, n - 1);
    }
}

/// The seven binary digits of a sum of seven weighted digits.
proof fn lemma_digits_of_sum(s: int, b0: int, b1: int, b2: int, b3: int, b4: int, b5: int, b6: int)
    requires
        0 <= b0 <= 1,
        0 <= b1 <= 1,
        0 <= b2 <= 1,
        0 <= b3 <= 1,
        0 <= b4 <= 1,
        0 <= b5 <= 1,
        0 <= b6 <= 1,
        s == b0 + 2 * b1 + 4 * b2 + 8 * b3 + 16 * b4 + 32 * b5 + 64 * b6,
    ensures
        digit(s, 0) == (b0 == 1),
        digit(s, 1) == (b1 == 1),
        digit(s, 2) == (b2 == 1),
        digit(s, 3) == (b3 == 1),
        digit(s, 4) == (b4 == 1),
        digit(s, 5) == (b5 == 1),
        digit(s, 6) == (b6 == 1),
{
    reveal_with_fuel(digit, 8);
    let q1 = s / 2;
    assert(q1 == b1 + 2 * b2 + 4 * b3 + 8 * b4 + 16 * b5 + 32 * b6);
    let q2 = q1 / 2;
    assert(q2 == b2 + 2 * b3 + 4 * b4 + 8 * b5 + 16 * b6);
    let q3 = q2 / 2;
    assert(q3 == b3 + 2 * b4 + 4 * b5 + 8 * b6);
    let q4 = q3 / 2;
    assert(q4 == b4 + 2 * b5 + 4 * b6);
    let q5 = q4 / 2;
    assert(q5 == b5 + 2 * b6);
    let q6 = q5 / 2;
    assert(q6 == b6);
}

/// A number below 128 is the sum of its seven weighted binary digits.
proof fn lemma_sum_of_digits(x: int)
    requires
        0 <= x < 128,
    ensures
        x == (if digit(x, 0) { 1int } else { 0int }) + (if digit(x, 1) { 2int } else { 0int }) + (
        if digit(x, 2) { 4int } else { 0int }) + (if digit(x, 3) { 8int } else { 0int }) + (
        if digit(x, 4) { 16int } else { 0int }) + (if digit(x, 5) { 32int } else { 0int }) + (
        if digit(x, 6) { 64int } else { 0int }),
{
    reveal_with_fuel(digit, 8);
    let q1 = x / 2;
    let q2 = q1 / 2;
    let q3 = q2 / 2;
    let q4 = q3 / 2;
    let q5 = q4 / 2;
    let q6 = q5 / 2;
    assert(x == 2 * q1 + x % 2);
    assert(q1 == 2 * q2 + q1 % 2);
    assert(q2 == 2 * q3 + q2 % 2);
    assert(q3 == 2 * q4 + q3 % 2);
    assert(q4 == 2 * q5 + q4 % 2);
    assert(q5 == 2 * q6 + q5 % 2);
    assert(q6 == 0 || q6 == 1);
}

/// The syndrome as the sum of the weights of its failing checks.
proof fn lemma_syndrome_sum(frame: Seq<bool>)
    ensures
        syndrome(frame) == (if check(frame, 0, 64) { 1int } else { 0int }) + (if check(
            frame,
            1,
            64,
        ) { 2int } else { 0int }) + (if check(frame, 2, 64) { 4int } else { 0int }) + (if check(
            frame,
            3,
            64,
        ) { 8int } else { 0int }) + (if check(frame, 4, 64) { 16int } else { 0int }) + (if check(
            frame,
            5,
            64,
        ) { 32int } else { 0int }) + (if check(frame, 6, 64) { 64int } else { 0int }),
{
    reveal_with_fuel(syndrome_upto, 8);
    reveal_with_fuel(two_pow, 8);
}

/// The checks of a frame are the binary digits of its syndrome.
pub proof fn lemma_syndrome_checks(frame: Seq<bool>)
    ensures
        syndrome(frame) < 128,
        forall|j: nat| j < 7 ==> check(frame, j, 64) == #[trigger] covers(j, syndrome(frame) - 1),
{
    lemma_syndrome_sum(frame);
    let s = syndrome(frame) as int;
    let b0: int = if check(frame, 0, 64) { 1 } else { 0 };
    let b1: int = if check(frame, 1, 64) { 1 } else { 0 };
    let b2: int = if check(frame, 2, 64) { 1 } else { 0 };
    let b3: int = if check(frame, 3, 64) { 1 } else { 0 };
    let b4: int = if check(frame, 4, 64) { 1 } else { 0 };
    let b5: int = if check(frame, 5, 64) { 1 } else { 0 };
    let b6: int = if check(frame, 6, 64) { 1 } else { 0 };
    assert(s == b0 + 2 * b1 + 4 * b2 + 8 * b3 + 16 * b4 + 32 * b5 + 64 * b6);
    lemma_digits_of_sum(s, b0, b1, b2, b3, b4, b5, b6);
    assert forall|j: nat| j < 7 implies check(frame, j, 64) == #[trigger] covers(j, s - 1) by {
        if j == 0 {
        } else if j == 1 {
        } else if j == 2 {
        } else if j == 3 {
        } else if j == 4 {
        } else if j == 5 {
        } else {
        }
    }
}

/// A frame whose checks are the binary digits of `x` has the syndrome `x`.
pub proof fn lemma_syndrome_value(frame: Seq<bool>, x: int)
    requires
        0 <= x < 128,
        forall|j: nat| j < 7 ==> check(frame, j, 64) == #[trigger] covers(j, x - 1),
    ensures
        syndrome(frame) == x,
{
    lemma_syndrome_sum(frame);
    lemma_sum_of_digits(x);
    assert(check(frame, 0, 64) == covers(0, x - 1));
    assert(check(frame, 1, 64) == covers(1, x - 1));
    assert(check(frame, 2, 64) == covers(2, x - 1));
    assert(check(frame, 3, 64) == covers(3, x - 1));
    assert(check(frame, 4, 64) == covers(4, x - 1));
    assert(check(frame, 5, 64) == covers(5, x - 1));
    assert(check(frame, 6, 64) == covers(6, x - 1));
}

/// Inverting one bit of a frame inverts the checks that cover its position.
pub proof fn lemma_flip_checks(frame: Seq<bool>, i: int)
    requires
        frame.len() == 64,
        0 <= i < 64,
    ensures
        forall|j: nat|
            j < 7 ==> #[trigger] check(flip(frame, i), j, 64) == (check(frame, j, 64) != covers(
                j,
                i,
            )),
{
    assert forall|j: nat| j < 7 implies #[trigger] check(flip(frame, i), j, 64) == (check(
        frame,
        j,
        64,
    ) != covers(j, i)) by {
        lemma_check_update(frame, i, !frame[i], j, 64);
    }
}

/// Each parity position is covered by its own check alone.
proof fn lemma_parity_positions()
    ensures
        forall|j: nat| j < 7 ==> (#[trigger] covers(j, 0) <==> j == 0),
        forall|j: nat| j < 7 ==> (#[trigger] covers(j, 1) <==> j == 1),
        forall|j: nat| j < 7 ==> (#[trigger] covers(j, 3) <==> j == 2),
        forall|j: nat| j < 7 ==> (#[trigger] covers(j, 7) <==> j == 3),
        forall|j: nat| j < 7 ==> (#[trigger] covers(j, 15) <==> j == 4),
        forall|j: nat| j < 7 ==> (#[trigger] covers(j, 31) <==> j == 5),
        forall|j: nat| j < 7 ==> (#[trigger] covers(j, 63) <==> j == 6),
{
    reveal_with_fuel(two_pow, 8);
    lemma_power_digits(1, 0);
    lemma_power_digits(2, 1);
    lemma_power_digits(4, 2);
    lemma_power_digits(8, 3);
    lemma_power_digits(16, 4);
    lemma_power_digits(32, 5);
    lemma_power_digits(64, 6);
}

/// A power of two has the one binary digit of its exponent.
proof fn lemma_power_digits(x: int, k: nat)
    requires
        k < 7,
        x == two_pow(k),
    ensures
        forall|j: nat| j < 7 ==> (#[trigger] digit(x, j) <==> j == k),
{
    reveal_with_fuel(two_pow, 8);
    reveal_with_fuel(digit, 8);
    assert forall|j: nat| j < 7 implies (#[trigger] digit(x, j) <==> j == k) by {
        if j == 0 {
        } else if j == 1 {
        } else if j == 2 {
        } else if j == 3 {
        } else if j == 4 {
        } else if j == 5 {
        } else {
        }
    }
}

/// With its parity bits set, a frame whose parity positions were cleared
/// passes every check.
pub proof fn lemma_with_parity(frame: Seq<bool>)
    requires
        frame.len() == 64,
        !frame[0] && !frame[1] && !frame[3] && !frame[7] && !frame[15] && !frame[31] && !frame[63],
    ensures
        forall|j: nat| j < 7 ==> !#[trigger] check(with_parity(frame), j, 64),
        syndrome(with_parity(frame)) == 0,
        with_parity(frame).len() == 64,
        forall|i: int|
            0 <= i < 64 && !(i == 0 || i == 1 || i == 3 || i == 7 || i == 15 || i == 31 || i
                == 63) ==> #[trigger] with_parity(frame)[i] == frame[i],
{
    lemma_parity_positions();
    let f0 = frame;
    let f1 = f0.update(0, check(frame, 0, 64));
    let f2 = f1.update(1, check(frame, 1, 64));
    let f3 = f2.update(3, check(frame, 2, 64));
    let f4 = f3.update(7, check(frame, 3, 64));
    let f5 = f4.update(15, check(frame, 4, 64));
    let f6 = f5.update(31, check(frame, 5, 64));
    let f7 = f6.update(63, check(frame, 6, 64));
    assert forall|j: nat| j < 7 implies !#[trigger] check(with_parity(frame), j, 64) by {
        lemma_check_update(f0, 0, check(frame, 0, 64), j, 64);
        lemma_check_update(f1, 1, check(frame, 1, 64), j, 64);
        lemma_check_update(f2, 3, check(frame, 2, 64), j, 64);
        lemma_check_update(f3, 7, check(frame, 3, 64), j, 64);
        lemma_check_update(f4, 15, check(frame, 4, 64), j, 64);
        lemma_check_update(f5, 31, check(frame, 5, 64), j, 64);
        lemma_check_update(f6, 63, check(frame, 6, 64), j, 64);
        assert(covers(j, 0) <==> j == 0);
        assert(covers(j, 1) <==> j == 1);
        assert(covers(j, 3) <==> j == 2);
        assert(covers(j, 7) <==> j == 3);
        assert(covers(j, 15) <==> j == 4);
        assert(covers(j, 31) <==> j == 5);
        assert(covers(j, 63) <==> j == 6);
    }
    assert forall|j: nat| j < 7 implies check(with_parity(frame), j, 64) == #[trigger] covers(
        j,
        0 - 1,
    ) by {
        assert(!check(with_parity(frame), j, 64));
        lemma_zero_digits(j);
    }
    lemma_syndrome_value(with_parity(frame), 0);
}

/// The data of a protected frame is the data that was placed in it.
pub proof fn lemma_coded_frame(data: Seq<bool>)
    requires
        data.len() == 56,
    ensures
        with_parity(placed(data)).len() == 64,
        syndrome(with_parity(placed(data))) == 0,
        forall|j: nat| j < 7 ==> !#[trigger] check(with_parity(placed(data)), j, 64),
        extracted(with_parity(placed(data))) == data,
{
    let frame = placed(data);
    lemma_with_parity(frame);
    let coded = with_parity(frame);
    assert forall|k: int| 0 <= k < 56 implies extracted(coded)[k] == data[k] by {
        let i = frame_index(k);
        assert(coded[i] == frame[i]);
        assert(data_index(i) == k);
    }
    assert(extracted(coded) =~= data);
}

/// Decoding a protected block gives the block, with no correction.
pub proof fn lemma_decode_encoded(block: Seq<u8>)
    requires
        block.len() == 7,
    ensures
        decoded_block(encoded_block(block)) == Ok::<(Seq<u8>, nat), CodecError>((block, 0nat)),
{
    let data = unpack(block);
    let coded = with_parity(placed(data));
    lemma_coded_frame(data);
    lemma_unpack_pack(coded);
    assert(padded(coded) =~= coded);
    lemma_pack_unpack(block);
}

/// Decoding a protected block with one bit inverted gives the block, with one
/// correction.
pub proof fn lemma_decode_one_flip(block: Seq<u8>, i: int)
    requires
        block.len() == 7,
        0 <= i < 64,
    ensures
        decoded_block(flipped(encoded_block(block), i)) == Ok::<(Seq<u8>, nat), CodecError>(
            (block, 1nat),
        ),
{
    let data = unpack(block);
    let coded = with_parity(placed(data));
    lemma_coded_frame(data);
    lemma_unpack_pack(coded);
    assert(padded(coded) =~= coded);
    lemma_pack_unpack(block);
    let noisy = flip(coded, i);
    lemma_unpack_pack(noisy);
    assert(padded(noisy) =~= noisy);
    assert(unpack(flipped(encoded_block(block), i)) == noisy);
    lemma_flip_checks(coded, i);
    assert forall|j: nat| j < 7 implies check(noisy, j, 64) == #[trigger] covers(j, i + 1 - 1) by {
        assert(check(flip(coded, i), j, 64) == (check(coded, j, 64) != covers(j, i)));
    }
    lemma_syndrome_value(noisy, i + 1);
    assert(flip(noisy, i) =~= coded);
}

/// Decoding a protected block with two bits inverted never reports that
/// nothing was wrong.
pub proof fn lemma_decode_two_flips(block: Seq<u8>, i: int, k: int)
    requires
        block.len() == 7,
        0 <= i < 64,
        0 <= k < 64,
        i != k,
    ensures
        match decoded_block(flipped(flipped(encoded_block(block), i), k)) {
            Ok(found) => found.1 == 1,
            Err(e) => e == CodecError::UncorrectableBlock(0),
        },
{
    let data = unpack(block);
    let coded = with_parity(placed(data));
    lemma_coded_frame(data);
    lemma_unpack_pack(coded);
    assert(padded(coded) =~= coded);
    let once = flip(coded, i);
    lemma_unpack_pack(once);
    assert(padded(once) =~= once);
    let twice = flip(once, k);
    lemma_unpack_pack(twice);
    assert(padded(twice) =~= twice);
    assert(unpack(flipped(flipped(encoded_block(block), i), k)) == twice);
    lemma_flip_checks(coded, i);
    lemma_flip_checks(once, k);
    lemma_syndrome_checks(twice);
    if syndrome(twice) == 0 {
        assert forall|j: nat| j < 7 implies covers(j, i + 1 - 1) == #[trigger] covers(
            j,
            k + 1 - 1,
        ) by {
            assert(check(flip(coded, i), j, 64) == (check(coded, j, 64) != covers(j, i)));
            assert(check(flip(once, k), j, 64) == (check(once, j, 64) != covers(j, k)));
            assert(check(twice, j, 64) == covers(j, 0 - 1));
            lemma_zero_digits(j);
        }
        lemma_same_digits(i + 1, k + 1);
    }
}

/// Numbers below 128 with the same seven binary digits are the same.
proof fn lemma_same_digits(x: int, y: int)
    requires
        0 <= x < 128,
        0 <= y < 128,
        forall|j: nat| j < 7 ==> covers(j, x - 1) == #[trigger] covers(j, y - 1),
    ensures
        x == y,
{
    assert(covers(0, x - 1) == covers(0, y - 1));
    assert(covers(1, x - 1) == covers(1, y - 1));
    assert(covers(2, x - 1) == covers(2, y - 1));
    assert(covers(3, x - 1) == covers(3, y - 1));
    assert(covers(4, x - 1) == covers(4, y - 1));
    assert(covers(5, x - 1) == covers(5, y - 1));
    assert(covers(6, x - 1) == covers(6, y - 1));
    lemma_sum_of_digits(x);
    lemma_sum_of_digits(y);
}

/// Zero has no binary digit.
proof fn lemma_zero_digits(j: nat)
    ensures
        !digit(0, j),
    decreases j,
{
    if j > 0 {
        lemma_zero_digits((j - 1) as nat);
    }
}

/// Correcting the bit that the syndrome points at leaves a frame that passes
/// every check.
pub proof fn lemma_corrected(frame: Seq<bool>)
    requires
        frame.len() == 64,
        1 <= syndrome(frame) <= 64,
    ensures
        syndrome(flip(frame, syndrome(frame) - 1)) == 0,
{
    let at = syndrome(frame) - 1;
    lemma_syndrome_checks(frame);
    lemma_flip_checks(frame, at);
    assert forall|j: nat| j < 7 implies check(flip(frame, at), j, 64) == #[trigger] covers(
        j,
        0 - 1,
    ) by {
        assert(check(flip(frame, at), j, 64) == (check(frame, j, 64) != covers(j, at)));
        assert(check(frame, j, 64) == covers(j, syndrome(frame) - 1));
        lemma_zero_digits(j);
    }
    lemma_syndrome_value(flip(frame, at), 0);
}

/// The number of data bits that stand below frame position `i`.
pub open spec fn data_below(i: int) -> int {
    if i <= 4 {
        0
    } else if i <= 7 {
        i - 4
    } else if i <= 15 {
        i - 5
    } else if i <= 31 {
        i - 6
    } else if i <= 63 {
        i - 7
    } else {
        56
    }
}

/// Whether position `i` holds no data.
fn reserved(i: usize) -> (r: bool)
    ensures
        r == is_reserved(i as int),
{
    i == 0 || i == 1 || i == 2 || i == 3 || i == 7 || i == 15 || i == 31 || i == 63
}

/// Whether check `j` covers position `i`.
fn covers_position(j: usize, i: usize) -> (r: bool)
    requires
        j < 7,
        i < 64,
    ensures
        r == covers(j as nat, i as int),
{
    let mut x: usize = i + 1;
    let mut k: usize = 0;
    while k < j
        invariant
            k <= j,
            j < 7,
            x <= 64,
            digit(i + 1, j as nat) == digit(x as int, (j - k) as nat),
        decreases j - k,
    {
        x = x / 2;
        k = k + 1;
    }
    x % 2 == 1
}

/// What check `j` finds in a frame.
fn check_frame(frame: &Bits, j: usize) -> (odd: bool)
    requires
        frame@.len() == 64,
        j < 7,
    ensures
        odd == check(frame@, j as nat, 64),
{
    let mut odd = false;
    let mut i: usize = 0;
    while i < 64
        invariant
            i <= 64,
            j < 7,
            frame@.len() == 64,
            odd == check(frame@, j as nat, i as int),
        decreases 64 - i,
    {
        let bit = bits_get(frame, i);
        let covered = covers_position(j, i);
        odd = odd != (bit && covered);
        i = i + 1;
    }
    odd
}

/// The syndrome of a frame.
fn syndrome_of(frame: &Bits) -> (s: usize)
    requires
        frame@.len() == 64,
    ensures
        s == syndrome(frame@),
        s < 128,
{
    let mut s: usize = 0;
    let mut weight: usize = 1;
    let mut j: usize = 0;
    while j < CHECKS
        invariant
            j <= 7,
            frame@.len() == 64,
            weight == two_pow(j as nat),
            s < weight,
            weight <= 128,
            s == syndrome_upto(frame@, j as nat),
        decreases 7 - j,
    {
        proof {
            reveal_with_fuel(two_pow, 9);
        }
        if check_frame(frame, j) {
            s = s + weight;
        }
        j = j + 1;
        if j < CHECKS {
            weight = 2 * weight;
        } else {
            proof {
                assert(two_pow(7) == 128);
            }
            weight = 128;
        }
    }
    s
}

/// The data bits of a frame, packed into seven bytes.
fn extract(frame: &Bits) -> (data: Vec<u8>)
    requires
        frame@.len() == 64,
    ensures
        data@ == pack(extracted(frame@)),
{
    let ghost want = extracted(frame@);
    let mut w = BitWriter::new();
    let mut i: usize = 0;
    assert(w@ =~= want.take(0));
    while i < 64
        invariant
            i <= 64,
            frame@.len() == 64,
            want == extracted(frame@),
            w.wf(),
            w@ == want.take(data_below(i as int)),
        decreases 64 - i,
    {
        if !reserved(i) {
            let bit = bits_get(frame, i);
            w.push(bit);
            proof {
                let k = data_below(i as int);
                assert(frame_index(k) == i);
                assert(want[k] == bit);
                assert(want.take(k + 1) =~= want.take(k).push(bit));
            }
        }
        i = i + 1;
    }
    assert(want.take(56) =~= want);
    let (data, _) = w.finish();
    data
}

/// Protects seven bytes as eight: the data in a frame with its parity bits
/// set.
pub fn encode(block: [u8; 7]) -> (code: Vec<u8>)
    ensures
        code@ == encoded_block(block@),
        code@.len() == 8,
{
    let data = Bits::unpack(block.as_slice(), 0);
    assert(data@ =~= unpack(block@));
    let ghost want = placed(data@);
    let mut next = bits_new();
    let mut prev: usize = 0;
    let mut index: usize = 0;
    assert(next@ =~= want.take(0));
    while index < 64
        invariant
            index <= 64,
            data@.len() == 56,
            want == placed(data@),
            prev == data_below(index as int),
            next@ == want.take(index as int),
        decreases 64 - index,
    {
        if reserved(index) {
            bits_push(&mut next, false);
        } else {
            let bit = bits_get(&data, prev);
            bits_push(&mut next, bit);
            prev = prev + 1;
        }
        index = index + 1;
        assert(next@ =~= want.take(index as int));
    }
    assert(want.take(64) =~= want);
    let c0 = check_frame(&next, 0);
    let c1 = check_frame(&next, 1);
    let c2 = check_frame(&next, 2);
    let c3 = check_frame(&next, 3);
    let c4 = check_frame(&next, 4);
    let c5 = check_frame(&next, 5);
    let c6 = check_frame(&next, 6);
    bits_set(&mut next, 0, c0);
    bits_set(&mut next, 1, c1);
    bits_set(&mut next, 3, c2);
    bits_set(&mut next, 7, c3);
    bits_set(&mut next, 15, c4);
    bits_set(&mut next, 31, c5);
    bits_set(&mut next, 63, c6);
    assert(next@ == with_parity(want));
    proof {
        lemma_unpack_pack(next@);
    }
    next.pack()
}

/// Checks eight bytes and corrects one wrong bit: the number of corrections
/// and, where `repair` is set, the seven bytes of data. A frame whose
/// syndrome points behind it, as two wrong bits can make it, is refused.
pub fn decode(code: [u8; 8], repair: bool) -> (r: Result<(Option<Vec<u8>>, usize), CodecError>)
    ensures
        match r {
            Ok(found) => {
                &&& decoded_block(code@) is Ok
                &&& found.1 == decoded_block(code@)->Ok_0.1
                &&& found.0 is Some == repair
                &&& repair ==> found.0->0@ == decoded_block(code@)->Ok_0.0
            },
            Err(e) => decoded_block(code@) == Err::<(Seq<u8>, nat), CodecError>(e),
        },
{
    let mut next = Bits::unpack(code.as_slice(), 0);
    assert(next@ =~= unpack(code@));
    let ghost start = next@;
    let mut s = syndrome_of(&next);
    let mut passes: usize = 0;
    while s != 0
        invariant
            next@.len() == 64,
            start == unpack(code@),
            start.len() == 64,
            s == syndrome(next@),
            passes <= 1,
            passes == 0 ==> next@ == start,
            passes == 1 ==> 1 <= syndrome(start) <= 64 && next@ == flip(
                start,
                syndrome(start) - 1,
            ) && s == 0,
        decreases MAX_PASSES - passes,
    {
        if passes >= MAX_PASSES || s > 64 {
            return Err(CodecError::UncorrectableBlock(0));
        }
        let at = s - 1;
        let bit = bits_get(&next, at);
        bits_set(&mut next, at, !bit);
        passes = passes + 1;
        proof {
            lemma_corrected(start);
        }
        s = syndrome_of(&next);
    }
    let data = if repair {
        Some(extract(&next))
    } else {
        None
    };
    Ok((data, passes))
}

/// The eight bytes of `code` with the bit at position `i` inverted.
pub fn flip_bit(code: [u8; 8], i: usize) -> (noisy: Vec<u8>)
    requires
        i < 64,
    ensures
        noisy@ == flipped(code@, i as int),
        noisy@.len() == 8,
{
    let mut next = Bits::unpack(code.as_slice(), 0);
    assert(next@ =~= unpack(code@));
    let bit = bits_get(&next, i);
    bits_set(&mut next, i, !bit);
    proof {
        lemma_unpack_pack(next@);
    }
    next.pack()
}

} // verus!
