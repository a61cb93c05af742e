//! The two-to-one hash of the Merkle tree and the sampling of query indices.
use crate::field::{le_bytes, le_nat, modulus, FieldElement};
use crate::transcript::{
    append_u64, challenge_output, challenge_wide, log_append, log_challenge, transcript_log,
    u64_le_bytes, TranscriptOp,
};
use merlin::Transcript;
use vstd::arithmetic::power::pow;
use vstd::prelude::*;

verus! {

/// The Keccak-f[1600] permutation of a state of 25 lanes.
pub uninterp spec fn keccak_f1600(state: Seq<u64>) -> Seq<u64>;

/// Lane `i` of a byte string: its bytes `8i .. 8i + 8`, least significant first.
pub open spec fn lane(bytes: Seq<u8>, i: int) -> nat {
    le_nat(bytes.subrange(8 * i, 8 * i + 8))
}

/// The state that absorbs two field elements: the four lanes of the first
/// one's encoding, the four lanes of the second one's, and zeros.
pub open spec fn hash_input(a: nat, b: nat) -> Seq<u64> {
    Seq::new(
        25,
        |i: int|
            if i < 4 {
                lane(le_bytes(a, 32), i) as u64
            } else if i < 8 {
                lane(le_bytes(b, 32), i - 4) as u64
            } else {
                0u64
            },
    )
}

/// Byte `j` of a lane, counted from the least significant.
pub open spec fn lane_byte(w: u64, j: u64) -> u8 {
    ((w >> (8 * j)) & 0xff) as u8
}

/// The 64 bytes that are read from a permuted state: lanes 15 down to 8, each
/// from its most significant byte down.
pub open spec fn digest_bytes(state: Seq<u64>) -> Seq<u8> {
    Seq::new(64, |k: int| lane_byte(state[(127 - k) / 8], ((127 - k) % 8) as u64))
}

/// The field element that a permuted state yields: its digest bytes reduced
/// modulo the field order.
pub open spec fn digest_value(state: Seq<u64>) -> nat {
    le_nat(digest_bytes(state)) % modulus()
}

/// The hash of two field elements.
pub open spec fn hash_value(a: nat, b: nat) -> nat {
    digest_value(keccak_f1600(hash_input(a, b)))
}

/// The number that a byte string denotes, most significant byte first.
pub open spec fn be_nat(bytes: Seq<u8>) -> nat
    decreases bytes.len(),
{
    if bytes.len() == 0 {
        0
    } else {
        be_nat(bytes.drop_last()) * 256 + bytes.last() as nat
    }
}

/// The index below `size` that random bytes select: the number of their last
/// eight, most significant byte first, reduced modulo `size`.
pub open spec fn index_of_bytes(bytes: Seq<u8>, size: nat) -> nat {
    be_nat(bytes.subrange(bytes.len() - 8, bytes.len() as int)) % size
}

/// The number of a byte string modulo `256^k` is the number of its last `k`
/// bytes.
pub proof fn lemma_be_nat_low(bytes: Seq<u8>, k: nat)
    requires
        k <= bytes.len(),
    ensures
        be_nat(bytes) % (pow(256, k) as nat) == be_nat(
            bytes.subrange(bytes.len() - k, bytes.len() as int),
        ),
    decreases k,
{
    let n = bytes.len() as int;
    let tail = bytes.subrange(n - k, n);
    if k == 0 {
        vstd::arithmetic::power::lemma_pow0(256);
    } else {
        let shorter = bytes.drop_last();
        let q = be_nat(shorter) as int;
        let r = bytes.last() as int;
        let m = pow(256, (k - 1) as nat);
        lemma_be_nat_low(shorter, (k - 1) as nat);
        vstd::arithmetic::power::lemma_pow_positive(256, (k - 1) as nat);
        vstd::arithmetic::power::lemma_pow_adds(256, (k - 1) as nat, 1);
        vstd::arithmetic::power::lemma_pow1(256);
        assert(tail.drop_last() =~= shorter.subrange(n - k, n - 1));
        assert(tail.last() == bytes.last());
        vstd::arithmetic::div_mod::lemma_fundamental_div_mod(q, m);
        vstd::arithmetic::div_mod::lemma_mod_bound(q, m);
        let low = 256 * (q % m) + r;
        assert(q * 256 + r == (q / m) * (m * 256) + low) by (nonlinear_arith)
            requires
                q == m * (q / m) + q % m,
                low == 256 * (q % m) + r,
        ;
        assert(0 <= low < m * 256) by (nonlinear_arith)
            requires
                0 <= q % m < m,
                0 <= r < 256,
                low == 256 * (q % m) + r,
        ;
        vstd::arithmetic::div_mod::lemma_fundamental_div_mod_converse_mod(
            q * 256 + r,
            m * 256,
            q / m,
            low,
        );
    }
}

/// Whether an index with the same residue modulo `reduced` was already picked.
pub open spec fn residue_taken(picked: Seq<usize>, index: nat, reduced: nat) -> bool {
    exists|j: int| 0 <= j < picked.len() && picked[j] as nat % reduced == index % reduced
}

/// What the sampling loop arrives at from a given state: the indices, unless
/// the counter runs out first, and the history of the transcript afterwards.
pub open spec fn sample_from(
    log: Seq<TranscriptOp>,
    counter: nat,
    picked: Seq<usize>,
    num: nat,
    max: nat,
    reduced: nat,
) -> (Option<Seq<usize>>, Seq<TranscriptOp>)
    decreases u64::MAX - counter,
{
    if picked.len() >= num {
        (Some(picked), log)
    } else if counter >= u64::MAX {
        (None, log)
    } else {
        let absorbed = log_append(log, "counter"@, u64_le_bytes(counter as u64));
        let index = index_of_bytes(challenge_output(absorbed, "index"@, 64), max);
        let squeezed = log_challenge(absorbed, "index"@);
        if residue_taken(picked, index, reduced) {
            sample_from(squeezed, counter + 1, picked, num, max, reduced)
        } else {
            sample_from(squeezed, counter + 1, picked.push(index as usize), num, max, reduced)
        }
    }
}

/// The indices that sampling draws from a transcript with the given history.
pub open spec fn sampled_indices(
    log: Seq<TranscriptOp>,
    num: nat,
    max: nat,
    reduced: nat,
) -> Option<Seq<usize>> {
    sample_from(log, 0, Seq::empty(), num, max, reduced).0
}

/// The history of the transcript after sampling.
pub open spec fn log_after_sampling(
    log: Seq<TranscriptOp>,
    num: nat,
    max: nat,
    reduced: nat,
) -> Seq<TranscriptOp> {
    sample_from(log, 0, Seq::empty(), num, max, reduced).1
}

/// Whether the indices are below `max` and no two of them agree modulo
/// `reduced`.
pub open spec fn distinct_residues(picked: Seq<usize>, max: nat, reduced: nat) -> bool {
    &&& forall|i: int| 0 <= i < picked.len() ==> (#[trigger] picked[i]) < max
    &&& forall|i: int, j: int|
        0 <= i < j < picked.len() ==> (#[trigger] picked[i]) as nat % reduced != (
        #[trigger] picked[j]) as nat % reduced
}

/// Sampling ends with as many indices as were asked for, or with none.
pub proof fn lemma_sample_length(
    log: Seq<TranscriptOp>,
    counter: nat,
    picked: Seq<usize>,
    num: nat,
    max: nat,
    reduced: nat,
)
    requires
        picked.len() <= num,
        counter <= u64::MAX,
    ensures
        sample_from(log, counter, picked, num, max, reduced).0 is Some ==> sample_from(
            log,
            counter,
            picked,
            num,
            max,
            reduced,
        ).0->0.len() == num,
    decreases u64::MAX - counter,
{
    if picked.len() < num && counter < u64::MAX {
        let absorbed = log_append(log, "counter"@, u64_le_bytes(counter as u64));
        let index = index_of_bytes(challenge_output(absorbed, "index"@, 64), max);
        let squeezed = log_challenge(absorbed, "index"@);
        if residue_taken(picked, index, reduced) {
            lemma_sample_length(squeezed, counter + 1, picked, num, max, reduced);
        } else {
            lemma_sample_length(
                squeezed,
                counter + 1,
                picked.push(index as usize),
                num,
                max,
                reduced,
            );
        }
    }
}

/// The lane that eight bytes of an encoding make.
fn pack_lane(bytes: &[u8; 32], i: usize) -> (w: u64)
    requires
        i < 4,
    ensures
        w == lane(bytes@, i as int),
{
    let mut acc: u64 = 0;
    let mut k: usize = 0;
    let ghost word = bytes@.subrange(8 * i as int, 8 * i as int + 8);
    proof {
        vstd::arithmetic::power::lemma_pow0(256);
    }
    while k < 8
        invariant
            k <= 8,
            i < 4,
            word == bytes@.subrange(8 * i as int, 8 * i as int + 8),
            acc == le_nat(word.subrange(8 - k as int, 8)),
            acc < pow(256, k as nat),
        decreases 8 - k,
    {
        let byte = bytes[8 * i + 7 - k];
        proof {
            let tail = word.subrange(8 - k as int, 8);
            let longer = word.subrange(7 - k as int, 8);
            assert(longer.drop_first() =~= tail);
            assert(longer[0] == byte);
            vstd::arithmetic::power::lemma_pow_adds(256, k as nat, 1);
            vstd::arithmetic::power::lemma_pow1(256);
            lemma_pow256_bound(k as nat);
            assert(acc * 256 + 255 < pow(256, k as nat) * 256)
                by (nonlinear_arith)
                requires
                    acc < pow(256, k as nat),
            ;
        }
        acc = acc * 256 + byte as u64;
        k += 1;
    }
    assert(word.subrange(0, 8) =~= word);
    acc
}

/// Powers of 256 up to the eighth fit in 64 bits.
proof fn lemma_pow256_bound(k: nat)
    requires
        k <= 8,
    ensures
        pow(256, k) <= 0x1_0000_0000_0000_0000,
        k < 8 ==> pow(256, k) * 256 <= 0x1_0000_0000_0000_0000,
    decreases k,
{
    reveal(pow);
    if k > 0 {
        lemma_pow256_bound((k - 1) as nat);
    }
    if k < 8 {
        reveal_with_fuel(pow, 10);
    }
}

/// The state that absorbs two field elements.
pub fn hash_input_state(a: &FieldElement, b: &FieldElement) -> (state: [u64; 25])
    ensures
        state@ == hash_input(a@, b@),
{
    let left = a.to_repr();
    let right = b.to_repr();
    let mut state = [0u64;25];
    let mut i: usize = 0;
    while i < 4
        invariant
            i <= 4,
            left@ == le_bytes(a@, 32),
            right@ == le_bytes(b@, 32),
            forall|j: int| 0 <= j < i ==> state@[j] == lane(left@, j) as u64,
            forall|j: int| 4 <= j < 4 + i ==> state@[j] == lane(right@, j - 4) as u64,
            forall|j: int| i <= j < 4 ==> state@[j] == 0,
            forall|j: int| 4 + i <= j < 25 ==> state@[j] == 0,
        decreases 4 - i,
    {
        let l = pack_lane(&left, i);
        let r = pack_lane(&right, i);
        state[i] = l;
        state[i + 4] = r;
        i += 1;
    }
    assert(state@ =~= hash_input(a@, b@));
    state
}

/// The field element that a permuted state yields.
pub fn digest_to_field(state: &[u64; 25]) -> (r: FieldElement)
    ensures
        r@ == digest_value(state@),
{
    let mut bytes = [0u8;64];
    let mut k: usize = 0;
    while k < 64
        invariant
            k <= 64,
            forall|m: int| 0 <= m < k ==> bytes@[m] == digest_bytes(state@)[m],
        decreases 64 - k,
    {
        let position = 127 - k;
        let word = state[position / 8];
        let shift = (8 * (position % 8)) as u64;
        let byte = ((word >> shift) & 0xff) as u8;
        bytes[k] = byte;
        k += 1;
    }
    assert(bytes@ =~= digest_bytes(state@));
    FieldElement::from_bytes_wide(&bytes)
}

/// The hash of two field elements: Keccak-f[1600] on the state that absorbs
/// both encodings, read back as a field element.
pub fn hash_two(values: &[FieldElement; 2]) -> (r: FieldElement)
    ensures
        r@ == hash_value(values@[0]@, values@[1]@),
{
    let mut state = hash_input_state(&values[0], &values[1]);
    keccak_permute(&mut state);
    digest_to_field(&state)
}

/// The step of the accumulator that reads bytes most significant first.
proof fn lemma_shift_in_byte(acc: u64, b: u8)
    ensures
        ((acc << 8) ^ (b as u64)) as int == (acc as int * 256 + b as int) % 0x1_0000_0000_0000_0000,
{
    assert(((acc << 8) ^ (b as u64)) == (((acc as int) * 256 + (b as int))
        % 0x1_0000_0000_0000_0000) as u64) by (bit_vector);
}

/// The index below `size` that 64 random bytes select.
pub fn sample_index(random_bytes: [u8; 64], size: usize) -> (r: usize)
    requires
        size > 0,
    ensures
        r == index_of_bytes(random_bytes@, size as nat),
        r < size,
{
    proof {
        lemma_be_nat_low(random_bytes@, 8);
        assert(pow(256, 8) == 0x1_0000_0000_0000_0000) by {
            reveal_with_fuel(pow, 9);
        }
    }
    let mut acc: u64 = 0;
    let mut i: usize = 0;
    while i < 64
        invariant
            i <= 64,
            acc == be_nat(random_bytes@.subrange(0, i as int)) % 0x1_0000_0000_0000_0000,
        decreases 64 - i,
    {
        let b = random_bytes[i];
        proof {
            let before = random_bytes@.subrange(0, i as int);
            let after = random_bytes@.subrange(0, i as int + 1);
            assert(after.drop_last() =~= before);
            assert(after.last() == b);
            lemma_shift_in_byte(acc, b);
            vstd::arithmetic::div_mod::lemma_mul_mod_noop_left(
                be_nat(before) as int,
                256,
                0x1_0000_0000_0000_0000,
            );
            vstd::arithmetic::div_mod::lemma_add_mod_noop(
                be_nat(before) as int * 256,
                b as int,
                0x1_0000_0000_0000_0000,
            );
            vstd::arithmetic::div_mod::lemma_add_mod_noop(
                acc as int * 256,
                b as int,
                0x1_0000_0000_0000_0000,
            );
        }
        acc = acc << 8 ^ (b as u64);
        i += 1;
    }
    assert(random_bytes@.subrange(0, 64) =~= random_bytes@);
    (acc % (size as u64)) as usize
}

/// Whether a residue is among those already taken.
fn contains_residue(reduced_indices: &Vec<usize>, residue: usize) -> (found: bool)
    ensures
        found <==> exists|j: int| 0 <= j < reduced_indices@.len() && reduced_indices@[j] == residue,
{
    let mut j: usize = 0;
    while j < reduced_indices.len()
        invariant
            j <= reduced_indices@.len(),
            forall|m: int| 0 <= m < j ==> reduced_indices@[m] != residue,
        decreases reduced_indices@.len() - j,
    {
        if reduced_indices[j] == residue {
            return true;
        }
        j += 1;
    }
    false
}

/// Draws `num_indices` indices below `max_index` from the transcript, no two
/// of which agree modulo `reduced_max_index`.
///
/// Each draw absorbs a counter and squeezes 64 bytes; a draw whose residue was
/// seen before is dropped. The result is `None` only if the counter would pass
/// `u64::MAX` before enough indices were found.
pub fn sample_indices(
    num_indices: usize,
    max_index: usize,
    reduced_max_index: usize,
    transcript: &mut Transcript,
) -> (r: Option<Vec<usize>>)
    requires
        num_indices <= reduced_max_index,
        num_indices == 0 || max_index > 0,
    ensures
        match r {
            Some(indices) => sampled_indices(
                transcript_log(*old(transcript)),
                num_indices as nat,
                max_index as nat,
                reduced_max_index as nat,
            ) == Some(indices@) && indices@.len() == num_indices && distinct_residues(
                indices@,
                max_index as nat,
                reduced_max_index as nat,
            ),
            None => sampled_indices(
                transcript_log(*old(transcript)),
                num_indices as nat,
                max_index as nat,
                reduced_max_index as nat,
            ) is None,
        },
        transcript_log(*final(transcript)) == log_after_sampling(
            transcript_log(*old(transcript)),
            num_indices as nat,
            max_index as nat,
            reduced_max_index as nat,
        ),
{
    let mut indices: Vec<usize> = Vec::new();
    let mut reduced_indices: Vec<usize> = Vec::new();
    let mut counter: u64 = 0;
    let ghost start = transcript_log(*transcript);
    while indices.len() < num_indices
        invariant
            start == transcript_log(*old(transcript)),
            num_indices <= reduced_max_index,
            num_indices == 0 || max_index > 0,
            indices@.len() <= num_indices,
            reduced_indices@.len() == indices@.len(),
            forall|j: int|
                0 <= j < indices@.len() ==> reduced_indices@[j] == indices@[j] % reduced_max_index,
            distinct_residues(indices@, max_index as nat, reduced_max_index as nat),
            sample_from(
                start,
                0,
                Seq::empty(),
                num_indices as nat,
                max_index as nat,
                reduced_max_index as nat,
            ) == sample_from(
                transcript_log(*transcript),
                counter as nat,
                indices@,
                num_indices as nat,
                max_index as nat,
                reduced_max_index as nat,
            ),
        decreases u64::MAX - counter,
    {
        if counter == u64::MAX {
            assert(sample_from(
                transcript_log(*transcript),
                counter as nat,
                indices@,
                num_indices as nat,
                max_index as nat,
                reduced_max_index as nat,
            ) == (None::<Seq<usize>>, transcript_log(*transcript)));
            return None;
        }
        let ghost picked = indices@;
        append_u64(transcript, "counter", counter);
        let random_bytes = challenge_wide(transcript, "index");
        let index = sample_index(random_bytes, max_index);
        let reduced_index = index % reduced_max_index;
        counter += 1;
        let taken = contains_residue(&reduced_indices, reduced_index);
        proof {
            if taken {
                let j = choose|j: int|
                    0 <= j < reduced_indices@.len() && reduced_indices@[j] == reduced_index;
                assert(picked[j] as nat % (reduced_max_index as nat) == index as nat % (
                reduced_max_index as nat));
            } else {
                assert forall|j: int| 0 <= j < picked.len() implies picked[j] as nat % (
                reduced_max_index as nat) != index as nat % (reduced_max_index as nat) by {
                    assert(reduced_indices@[j] == picked[j] % reduced_max_index);
                }
            }
            assert(taken == residue_taken(picked, index as nat, reduced_max_index as nat));
        }
        if !taken {
            reduced_indices.push(reduced_index);
            indices.push(index);
        }
    }
    Some(indices)
}

/// `keccak::f1600`: the Keccak-f[1600] permutation, in place.
#[verifier::external_body]
fn keccak_permute(state: &mut [u64; 25])
    ensures
        final(state)@ == keccak_f1600(old(state)@),
{
    keccak::f1600(state)
}

} // verus!
