use vstd::prelude::*;

use vstd::arithmetic::div_mod::{lemma_fundamental_div_mod, lemma_fundamental_div_mod_converse};
use vstd::arithmetic::mul::lemma_mul_inequality;
use vstd::pervasive::VecAdditionalExecFns;
use vstd::slice::slice_subrange;

verus! {

/// Number of integers in one codec block.
pub const NUM_DOCS_PER_BLOCK: usize = 128;

/// Worst-case size of one encoded block: one width byte plus four bytes for
/// each of the block's values.
pub const COMPRESSED_BLOCK_MAX_SIZE: usize = NUM_DOCS_PER_BLOCK * 4 + 1;

/// Number of bytes used to store each value of a block whose largest value
/// is `max`: the smallest width that covers it.
pub open spec fn width_for(max: u32) -> nat {
    if max == 0 {
        0
    } else if max < 0x100 {
        1
    } else if max < 0x1_0000 {
        2
    } else if max < 0x100_0000 {
        3
    } else {
        4
    }
}

/// Whether `v` is representable in `c` little-endian bytes.
pub open spec fn fits(v: u32, c: nat) -> bool {
    if c == 0 {
        v == 0
    } else if c == 1 {
        v < 0x100
    } else if c == 2 {
        v < 0x1_0000
    } else if c == 3 {
        v < 0x100_0000
    } else {
        true
    }
}

/// Largest value of a sequence; 0 when the sequence is empty.
pub open spec fn seq_max(s: Seq<u32>) -> u32
    decreases s.len(),
{
    if s.len() == 0 {
        0u32
    } else if s.last() >= seq_max(s.drop_last()) {
        s.last()
    } else {
        seq_max(s.drop_last())
    }
}

/// Byte `k` of the little-endian representation of `v`.
pub open spec fn byte_of(v: u32, k: nat) -> u8 {
    if k == 0 {
        (v & 0xff) as u8
    } else if k == 1 {
        ((v >> 8u32) & 0xff) as u8
    } else if k == 2 {
        ((v >> 16u32) & 0xff) as u8
    } else {
        ((v >> 24u32) & 0xff) as u8
    }
}

/// The packed section of a block: each value as `c` little-endian bytes.
pub open spec fn packed(vals: Seq<u32>, c: nat) -> Seq<u8> {
    Seq::new(vals.len() * c, |p: int| byte_of(vals[p / c as int], (p % c as int) as nat))
}

/// One encoded block: the byte width of the stored values, then the values
/// packed at that width.
pub open spec fn block_encoding(vals: Seq<u32>) -> Seq<u8> {
    seq![width_for(seq_max(vals)) as u8] + packed(vals, width_for(seq_max(vals)))
}

/// The value of at most four little-endian bytes.
pub open spec fn le_val(s: Seq<u8>) -> int {
    (if s.len() >= 1 {
        s[0] as int
    } else {
        0
    }) + (if s.len() >= 2 {
        0x100 * (s[1] as int)
    } else {
        0
    }) + (if s.len() >= 3 {
        0x1_0000 * (s[2] as int)
    } else {
        0
    }) + (if s.len() >= 4 {
        0x100_0000 * (s[3] as int)
    } else {
        0
    })
}

/// Number of bytes the block at the front of `data` occupies.
pub open spec fn encoded_len(data: Seq<u8>) -> int {
    1 + NUM_DOCS_PER_BLOCK * (data[0] as int)
}

/// `data` starts with a well-formed encoded block.
pub open spec fn decodable(data: Seq<u8>) -> bool {
    data.len() >= 1 && data[0] <= 4 && data.len() >= encoded_len(data)
}

/// The `i`-th raw value stored in the block at the front of `data`.
pub open spec fn stored_val(data: Seq<u8>, i: int) -> u32 {
    le_val(
        data.subrange(1 + i * (data[0] as int), 1 + (i + 1) * (data[0] as int)),
    ) as u32
}

/// All raw values of the block at the front of `data` (unsorted mode).
pub open spec fn decode_unsorted_spec(data: Seq<u8>) -> Seq<u32> {
    Seq::new(NUM_DOCS_PER_BLOCK as nat, |i: int| stored_val(data, i))
}

/// Sum of the first `n` stored values, read as deltas.
pub open spec fn delta_sum(data: Seq<u8>, n: int) -> int
    decreases n,
{
    if n <= 0 {
        0
    } else {
        delta_sum(data, n - 1) + stored_val(data, n - 1)
    }
}

/// The block at the front of `data` reconstructed from `offset` plus prefix
/// sums of the stored deltas (sorted mode).
pub open spec fn decode_sorted_spec(data: Seq<u8>, offset: u32) -> Seq<u32> {
    Seq::new(NUM_DOCS_PER_BLOCK as nat, |i: int| (offset + delta_sum(data, i + 1)) as u32)
}

/// A sorted-mode stream is decodable against `offset` when its prefix sums
/// stay within `u32`.
pub open spec fn decodable_sorted(data: Seq<u8>, offset: u32) -> bool {
    decodable(data) && offset + delta_sum(data, NUM_DOCS_PER_BLOCK as int) <= u32::MAX
}

/// `vals` is non-decreasing.
pub open spec fn is_sorted(vals: Seq<u32>) -> bool {
    forall|i: int, j: int| 0 <= i <= j < vals.len() ==> vals[i] <= vals[j]
}

/// The deltas of a non-decreasing block relative to `offset`.
pub open spec fn deltas(vals: Seq<u32>, offset: u32) -> Seq<u32> {
    Seq::new(
        vals.len(),
        |i: int|
            if i == 0 {
                (vals[0] - offset) as u32
            } else {
                (vals[i] - vals[i - 1]) as u32
            },
    )
}

/// The encoding of a non-decreasing block: its deltas, packed.
pub open spec fn encode_sorted_spec(vals: Seq<u32>, offset: u32) -> Seq<u8> {
    block_encoding(deltas(vals, offset))
}

/// The encoding of an arbitrary block: its raw values, packed.
pub open spec fn encode_unsorted_spec(vals: Seq<u32>) -> Seq<u8> {
    block_encoding(vals)
}

/// Every element of a sequence is bounded by its maximum.
pub proof fn lemma_seq_max_bound(s: Seq<u32>)
    ensures
        forall|i: int| 0 <= i < s.len() ==> s[i] <= seq_max(s),
    decreases s.len(),
{
    if s.len() > 0 {
        lemma_seq_max_bound(s.drop_last());
        assert forall|i: int| 0 <= i < s.len() implies s[i] <= seq_max(s) by {
            if i < s.len() - 1 {
                assert(s.drop_last()[i] == s[i]);
            }
        }
    }
}

/// A sequence of the little-endian bytes of `v` reads back as `v`.
proof fn lemma_le_val_of_byte_seq(v: u32, s: Seq<u8>)
    requires
        s.len() <= 4,
        fits(v, s.len() as nat),
        forall|k: int| 0 <= k < s.len() ==> s[k] == byte_of(v, k as nat),
    ensures
        le_val(s) == v,
{
    if s.len() == 0 {
    } else if s.len() == 1 {
        assert(v < 0x100 ==> ((v & 0xff) as u8) == v) by (bit_vector);
    } else if s.len() == 2 {
        assert(v < 0x1_0000 ==> ((v & 0xff) as u8) + 0x100 * (((v >> 8u32) & 0xff) as u8)
            == v) by (bit_vector);
    } else if s.len() == 3 {
        assert(v < 0x100_0000 ==> ((v & 0xff) as u8) + 0x100 * (((v >> 8u32) & 0xff) as u8)
            + 0x1_0000 * (((v >> 16u32) & 0xff) as u8) == v) by (bit_vector);
    } else {
        assert(((v & 0xff) as u8) + 0x100 * (((v >> 8u32) & 0xff) as u8) + 0x1_0000 * (((v
            >> 16u32) & 0xff) as u8) + 0x100_0000 * (((v >> 24u32) & 0xff) as u8) == v)
            by (bit_vector);
    }
}

/// The delta sums of a stream grow with the number of deltas taken.
pub proof fn lemma_delta_sum_monotone(data: Seq<u8>, i: int, j: int)
    requires
        0 <= i <= j,
    ensures
        delta_sum(data, i) <= delta_sum(data, j),
    decreases j - i,
{
    if i < j {
        lemma_delta_sum_monotone(data, i, j - 1);
    }
}

/// The values a block encoding stores are exactly the encoded values.
proof fn lemma_stored_vals(vals: Seq<u32>)
    requires
        vals.len() == NUM_DOCS_PER_BLOCK,
    ensures
        decodable(block_encoding(vals)),
        block_encoding(vals)[0] == width_for(seq_max(vals)) as u8,
        encoded_len(block_encoding(vals)) == block_encoding(vals).len(),
        forall|i: int|
            0 <= i < NUM_DOCS_PER_BLOCK ==> stored_val(block_encoding(vals), i) == vals[i],
{
    let c = width_for(seq_max(vals));
    let ci = c as int;
    let e = block_encoding(vals);
    lemma_seq_max_bound(vals);
    assert(e.len() == 1 + 128 * ci);
    assert forall|i: int| 0 <= i < NUM_DOCS_PER_BLOCK implies stored_val(e, i) == vals[i] by {
        if c == 0 {
            assert(vals[i] <= seq_max(vals));
            assert(stored_val(e, i) == 0);
        } else {
            lemma_mul_inequality(i + 1, 128, ci);
            assert(0 <= i * ci) by (nonlinear_arith)
                requires
                    0 <= i,
                    0 <= ci,
            ;
            assert((i + 1) * ci == i * ci + ci) by (nonlinear_arith);
            let sub = e.subrange(1 + i * ci, 1 + (i + 1) * ci);
            assert forall|k: int| 0 <= k < ci implies sub[k] == byte_of(vals[i], k as nat) by {
                let p = i * ci + k;
                lemma_fundamental_div_mod_converse(p, ci, i, k);
                assert(sub[k] == e[1 + p]);
                assert(e[1 + p] == packed(vals, c)[p]);
                assert(packed(vals, c)[p] == byte_of(vals[p / ci], (p % ci) as nat));
            }
            assert(fits(vals[i], c));
            lemma_le_val_of_byte_seq(vals[i], sub);
        }
    }
}

/// Round trip of the unsorted mode: a block of raw values decodes, from its
/// own encoding, to exactly those values, and the whole encoding is consumed.
pub proof fn lemma_round_trip_unsorted(vals: Seq<u32>)
    requires
        vals.len() == NUM_DOCS_PER_BLOCK,
    ensures
        decodable(encode_unsorted_spec(vals)),
        encoded_len(encode_unsorted_spec(vals)) == encode_unsorted_spec(vals).len(),
        decode_unsorted_spec(encode_unsorted_spec(vals)) == vals,
{
    lemma_stored_vals(vals);
    assert(decode_unsorted_spec(encode_unsorted_spec(vals)) =~= vals);
}

/// The running delta sums of a non-decreasing block's encoding land back on
/// the original values.
proof fn lemma_delta_sums(vals: Seq<u32>, offset: u32, n: int)
    requires
        vals.len() == NUM_DOCS_PER_BLOCK,
        is_sorted(vals),
        offset <= vals[0],
        0 <= n <= NUM_DOCS_PER_BLOCK,
    ensures
        offset + delta_sum(encode_sorted_spec(vals, offset), n) == (if n == 0 {
            offset as int
        } else {
            vals[n - 1] as int
        }),
    decreases n,
{
    lemma_stored_vals(deltas(vals, offset));
    if n > 0 {
        lemma_delta_sums(vals, offset, n - 1);
        assert(stored_val(encode_sorted_spec(vals, offset), n - 1) == deltas(vals, offset)[n
            - 1]);
    }
}

/// Round trip of the sorted mode: a non-decreasing block decodes, from its
/// own encoding and the same offset, to exactly the original values.
pub proof fn lemma_round_trip_sorted(vals: Seq<u32>, offset: u32)
    requires
        vals.len() == NUM_DOCS_PER_BLOCK,
        is_sorted(vals),
        offset <= vals[0],
    ensures
        decodable_sorted(encode_sorted_spec(vals, offset), offset),
        encoded_len(encode_sorted_spec(vals, offset)) == encode_sorted_spec(vals, offset).len(),
        decode_sorted_spec(encode_sorted_spec(vals, offset), offset) == vals,
{
    let e = encode_sorted_spec(vals, offset);
    lemma_stored_vals(deltas(vals, offset));
    lemma_delta_sums(vals, offset, NUM_DOCS_PER_BLOCK as int);
    assert forall|i: int| 0 <= i < NUM_DOCS_PER_BLOCK implies decode_sorted_spec(e, offset)[i]
        == vals[i] by {
        lemma_delta_sums(vals, offset, i + 1);
    }
    assert(decode_sorted_spec(e, offset) =~= vals);
}

/// Decoding reads only the block at the front of the stream: appending more
/// bytes changes neither the consumed length nor the decoded values.
pub proof fn lemma_decode_prefix(data: Seq<u8>, tail: Seq<u8>)
    requires
        decodable(data),
    ensures
        decodable(data + tail),
        encoded_len(data + tail) == encoded_len(data),
        forall|i: int|
            0 <= i < NUM_DOCS_PER_BLOCK ==> stored_val(data + tail, i) == stored_val(data, i),
        decode_unsorted_spec(data + tail) == decode_unsorted_spec(data),
        forall|offset: u32|
            decode_sorted_spec(data + tail, offset) == decode_sorted_spec(data, offset),
        forall|offset: u32|
            decodable_sorted(data, offset) ==> decodable_sorted(data + tail, offset),
        (data + tail).subrange(encoded_len(data), (data + tail).len() as int) == tail
            || data.len() > encoded_len(data),
{
    let s = data + tail;
    let ci = data[0] as int;
    assert(s[0] == data[0]);
    assert forall|i: int| 0 <= i < NUM_DOCS_PER_BLOCK implies stored_val(s, i) == stored_val(
        data,
        i,
    ) by {
        lemma_mul_inequality(i + 1, 128, ci);
        assert(0 <= i * ci) by (nonlinear_arith)
            requires
                0 <= i,
                0 <= ci,
        ;
        assert((i + 1) * ci == i * ci + ci) by (nonlinear_arith);
        assert(s.subrange(1 + i * ci, 1 + (i + 1) * ci) =~= data.subrange(
            1 + i * ci,
            1 + (i + 1) * ci,
        ));
    }
    assert(decode_unsorted_spec(s) =~= decode_unsorted_spec(data));
    assert forall|n: int| 0 <= n <= NUM_DOCS_PER_BLOCK implies delta_sum(s, n) == delta_sum(
        data,
        n,
    ) by {
        lemma_delta_sum_prefix(data, tail, n);
    }
    assert forall|offset: u32| #[trigger] decode_sorted_spec(s, offset) == decode_sorted_spec(
        data,
        offset,
    ) by {
        assert(decode_sorted_spec(s, offset) =~= decode_sorted_spec(data, offset));
    }
    if data.len() == encoded_len(data) {
        assert(s.subrange(encoded_len(data), s.len() as int) =~= tail);
    }
}

/// Delta sums agree on any extension of the stream.
proof fn lemma_delta_sum_prefix(data: Seq<u8>, tail: Seq<u8>, n: int)
    requires
        decodable(data),
        0 <= n <= NUM_DOCS_PER_BLOCK,
    ensures
        delta_sum(data + tail, n) == delta_sum(data, n),
    decreases n,
{
    if n > 0 {
        lemma_delta_sum_prefix(data, tail, n - 1);
        let s = data + tail;
        let ci = data[0] as int;
        let i = n - 1;
        lemma_mul_inequality(i + 1, 128, ci);
        assert(0 <= i * ci) by (nonlinear_arith)
            requires
                0 <= i,
                0 <= ci,
        ;
        assert((i + 1) * ci == i * ci + ci) by (nonlinear_arith);
        assert(s.subrange(1 + i * ci, 1 + (i + 1) * ci) =~= data.subrange(
            1 + i * ci,
            1 + (i + 1) * ci,
        ));
        assert(stored_val(s, i) == stored_val(data, i));
    }
}

/// Two consecutively encoded non-decreasing blocks, concatenated, decode
/// back to both blocks: the first decode consumes exactly the first block's
/// bytes and what remains is exactly the second block's encoding.
pub proof fn lemma_stream_framing_sorted(v1: Seq<u32>, off1: u32, v2: Seq<u32>, off2: u32)
    requires
        v1.len() == NUM_DOCS_PER_BLOCK,
        v2.len() == NUM_DOCS_PER_BLOCK,
        is_sorted(v1),
        is_sorted(v2),
        off1 <= v1[0],
        off2 <= v2[0],
    ensures
        ({
            let e1 = encode_sorted_spec(v1, off1);
            let e2 = encode_sorted_spec(v2, off2);
            let s = e1 + e2;
            &&& decodable_sorted(s, off1)
            &&& encoded_len(s) == e1.len()
            &&& decode_sorted_spec(s, off1) == v1
            &&& s.subrange(encoded_len(s), s.len() as int) == e2
            &&& decodable_sorted(e2, off2)
            &&& decode_sorted_spec(e2, off2) == v2
        }),
{
    let e1 = encode_sorted_spec(v1, off1);
    let e2 = encode_sorted_spec(v2, off2);
    lemma_round_trip_sorted(v1, off1);
    lemma_round_trip_sorted(v2, off2);
    lemma_decode_prefix(e1, e2);
}

/// Two consecutively encoded raw blocks, concatenated, decode back to both
/// blocks, the first decode consuming exactly the first block's bytes.
pub proof fn lemma_stream_framing_unsorted(v1: Seq<u32>, v2: Seq<u32>)
    requires
        v1.len() == NUM_DOCS_PER_BLOCK,
        v2.len() == NUM_DOCS_PER_BLOCK,
    ensures
        ({
            let e1 = encode_unsorted_spec(v1);
            let e2 = encode_unsorted_spec(v2);
            let s = e1 + e2;
            &&& decodable(s)
            &&& encoded_len(s) == e1.len()
            &&& decode_unsorted_spec(s) == v1
            &&& s.subrange(encoded_len(s), s.len() as int) == e2
            &&& decodable(e2)
            &&& decode_unsorted_spec(e2) == v2
        }),
{
    let e1 = encode_unsorted_spec(v1);
    let e2 = encode_unsorted_spec(v2);
    lemma_round_trip_unsorted(v1);
    lemma_round_trip_unsorted(v2);
    lemma_decode_prefix(e1, e2);
}

/// A vector of `n` bytes, all zero.
fn filled_bytes(n: usize) -> (r: Vec<u8>)
    ensures
        r@.len() == n,
        forall|i: int| 0 <= i < n ==> r@[i] == 0u8,
{
    let mut r: Vec<u8> = Vec::new();
    let mut i: usize = 0;
    while i < n
        invariant
            i <= n,
            r@.len() == i,
            forall|j: int| 0 <= j < i ==> r@[j] == 0u8,
        decreases n - i,
    {
        r.push(0u8);
        i = i + 1;
    }
    r
}

/// A vector of `n` integers, all `val`.
fn filled_u32(n: usize, val: u32) -> (r: Vec<u32>)
    ensures
        r@.len() == n,
        forall|i: int| 0 <= i < n ==> r@[i] == val,
{
    let mut r: Vec<u32> = Vec::new();
    let mut i: usize = 0;
    while i < n
        invariant
            i <= n,
            r@.len() == i,
            forall|j: int| 0 <= j < i ==> r@[j] == val,
        decreases n - i,
    {
        r.push(val);
        i = i + 1;
    }
    r
}

/// The smallest byte width covering `max`.
fn width_of(max: u32) -> (c: u8)
    ensures
        c as nat == width_for(max),
{
    if max == 0 {
        0
    } else if max < 0x100 {
        1
    } else if max < 0x1_0000 {
        2
    } else if max < 0x100_0000 {
        3
    } else {
        4
    }
}

/// The largest value of a slice; 0 when it is empty.
fn slice_max(vals: &[u32]) -> (m: u32)
    ensures
        m == seq_max(vals@),
{
    let mut m: u32 = 0;
    let mut i: usize = 0;
    while i < vals.len()
        invariant
            i <= vals@.len(),
            m == seq_max(vals@.take(i as int)),
        decreases vals@.len() - i,
    {
        proof {
            assert(vals@.take(i as int + 1).drop_last() =~= vals@.take(i as int));
            assert(vals@.take(i as int + 1).last() == vals@[i as int]);
        }
        if vals[i] > m {
            m = vals[i];
        }
        i = i + 1;
    }
    proof {
        assert(vals@.take(vals@.len() as int) =~= vals@);
    }
    m
}

/// The largest delta of a non-decreasing slice relative to `offset`.
fn max_delta(vals: &[u32], offset: u32) -> (m: u32)
    requires
        vals@.len() > 0,
        is_sorted(vals@),
        offset <= vals@[0],
    ensures
        m == seq_max(deltas(vals@, offset)),
{
    let mut m: u32 = 0;
    let mut prev = offset;
    let mut i: usize = 0;
    while i < vals.len()
        invariant
            i <= vals@.len(),
            vals@.len() > 0,
            is_sorted(vals@),
            offset <= vals@[0],
            prev == (if i == 0 {
                offset
            } else {
                vals@[i - 1]
            }),
            m == seq_max(deltas(vals@, offset).take(i as int)),
        decreases vals@.len() - i,
    {
        proof {
            assert(deltas(vals@, offset).take(i as int + 1).drop_last() =~= deltas(
                vals@,
                offset,
            ).take(i as int));
            assert(deltas(vals@, offset).take(i as int + 1).last() == deltas(vals@, offset)[i
                as int]);
        }
        let d = vals[i] - prev;
        if d > m {
            m = d;
        }
        prev = vals[i];
        i = i + 1;
    }
    proof {
        assert(deltas(vals@, offset).take(vals@.len() as int) =~= deltas(vals@, offset));
    }
    m
}

/// Writes the `c` little-endian bytes of `v` at `pos`, leaving every other
/// byte unchanged.
fn write_value_bytes(output: &mut Vec<u8>, pos: usize, v: u32, c: u8)
    requires
        c <= 4,
        old(output)@.len() == COMPRESSED_BLOCK_MAX_SIZE,
        pos + c as int <= old(output)@.len(),
    ensures
        final(output)@.len() == old(output)@.len(),
        forall|j: int|
            pos <= j < pos + c as int ==> #[trigger] final(output)@[j] == byte_of(
                v,
                (j - pos) as nat,
            ),
        forall|j: int|
            0 <= j < old(output)@.len() && !(pos <= j < pos + c as int) ==> final(output)@[j]
                == old(output)@[j],
{
    if c >= 1 {
        output.set(pos, (v & 0xff) as u8);
    }
    if c >= 2 {
        output.set(pos + 1, ((v >> 8) & 0xff) as u8);
    }
    if c >= 3 {
        output.set(pos + 2, ((v >> 16) & 0xff) as u8);
    }
    if c >= 4 {
        output.set(pos + 3, ((v >> 24) & 0xff) as u8);
    }
}

/// Reads back the value of the `c` little-endian bytes at `pos`.
fn read_value(data: &[u8], pos: usize, c: u8) -> (v: u32)
    requires
        c <= 4,
        pos + c as int <= data@.len(),
    ensures
        v as int == le_val(data@.subrange(pos as int, pos as int + c as int)),
{
    if c == 0 {
        0
    } else if c == 1 {
        let b0 = data[pos];
        b0 as u32
    } else if c == 2 {
        let b0 = data[pos];
        let b1 = data[pos + 1];
        let v = (b0 as u32) | ((b1 as u32) << 8);
        proof {
            assert((b0 as u32) | ((b1 as u32) << 8u32) == b0 + 0x100 * b1) by (bit_vector);
        }
        v
    } else if c == 3 {
        let b0 = data[pos];
        let b1 = data[pos + 1];
        let b2 = data[pos + 2];
        let v = (b0 as u32) | ((b1 as u32) << 8) | ((b2 as u32) << 16);
        proof {
            assert((b0 as u32) | ((b1 as u32) << 8u32) | ((b2 as u32) << 16u32) == b0 + 0x100
                * b1 + 0x1_0000 * b2) by (bit_vector);
        }
        v
    } else {
        let b0 = data[pos];
        let b1 = data[pos + 1];
        let b2 = data[pos + 2];
        let b3 = data[pos + 3];
        let v = (b0 as u32) | ((b1 as u32) << 8) | ((b2 as u32) << 16) | ((b3 as u32) << 24);
        proof {
            assert((b0 as u32) | ((b1 as u32) << 8u32) | ((b2 as u32) << 16u32) | ((b3 as u32)
                << 24u32) == b0 + 0x100 * b1 + 0x1_0000 * b2 + 0x100_0000 * b3) by (bit_vector);
        }
        v
    }
}

/// Packs `vals` at width `c` into `output` behind the width byte, and proves
/// that the written prefix is exactly `block_encoding` of the values.
fn pack_block(
    output: &mut Vec<u8>,
    vals: &[u32],
    c: u8,
    Ghost(spec_vals): Ghost<Seq<u32>>,
) -> (len: usize)
    requires
        old(output)@.len() == COMPRESSED_BLOCK_MAX_SIZE,
        vals@.len() == NUM_DOCS_PER_BLOCK,
        vals@ == spec_vals,
        c as nat == width_for(seq_max(spec_vals)),
    ensures
        final(output)@.len() == COMPRESSED_BLOCK_MAX_SIZE,
        len == block_encoding(spec_vals).len(),
        len <= COMPRESSED_BLOCK_MAX_SIZE,
        final(output)@.subrange(0, len as int) == block_encoding(spec_vals),
{
    let ghost ci = c as int;
    output.set(0, c);
    let cu = c as usize;
    let mut i: usize = 0;
    while i < NUM_DOCS_PER_BLOCK
        invariant
            output@.len() == COMPRESSED_BLOCK_MAX_SIZE,
            vals@.len() == NUM_DOCS_PER_BLOCK,
            vals@ == spec_vals,
            i <= NUM_DOCS_PER_BLOCK,
            cu == c as usize,
            ci == c as int,
            c as nat == width_for(seq_max(spec_vals)),
            output@[0] == c,
            forall|p: int, q: int|
                0 <= p < i && 0 <= q < ci ==> output@[1 + p * ci + q] == #[trigger] byte_of(
                    spec_vals[p],
                    q as nat,
                ),
        decreases NUM_DOCS_PER_BLOCK - i,
    {
        proof {
            assert(i * ci + ci <= 128 * ci) by (nonlinear_arith)
                requires
                    0 <= i < 128,
                    0 <= ci,
            ;
            assert(128 * ci <= 512);
            lemma_seq_max_bound(spec_vals);
            assert(fits(spec_vals[i as int], c as nat));
        }
        let pos = 1 + i * cu;
        let ghost before = output@;
        write_value_bytes(output, pos, vals[i], c);
        proof {
            assert forall|p: int, q: int| 0 <= p < i + 1 && 0 <= q < ci implies output@[1 + p * ci
                + q] == #[trigger] byte_of(spec_vals[p], q as nat) by {
                if p < i {
                    assert(p * ci + q < i * ci) by (nonlinear_arith)
                        requires
                            0 <= p < i,
                            0 <= q < ci,
                    ;
                    assert(output@[1 + p * ci + q] == before[1 + p * ci + q]);
                } else {
                    assert(output@[pos + q] == byte_of(spec_vals[p], q as nat));
                }
            }
        }
        i = i + 1;
    }
    let len = 1 + NUM_DOCS_PER_BLOCK * cu;
    proof {
        let target = block_encoding(spec_vals);
        assert(target.len() == 1 + 128 * ci);
        assert forall|p: int| 0 <= p < target.len() implies output@.subrange(
            0,
            len as int,
        )[p] == target[p] by {
            if p >= 1 {
                let q = p - 1;
                lemma_fundamental_div_mod(q, ci);
                assert(q / ci < 128) by {
                    if q / ci >= 128 {
                        lemma_mul_inequality(128, q / ci, ci);
                        assert(ci * (q / ci) == (q / ci) * ci) by (nonlinear_arith);
                    }
                }
                assert(0 <= q / ci);
                assert(output@[1 + (q / ci) * ci + (q % ci)] == byte_of(
                    spec_vals[q / ci],
                    (q % ci) as nat,
                ));
                assert(ci * (q / ci) == (q / ci) * ci) by (nonlinear_arith);
                assert(q == (q / ci) * ci + (q % ci));
                assert(target[p] == packed(spec_vals, c as nat)[q]);
            }
        }
        assert(output@.subrange(0, len as int) =~= target);
    }
    len
}

/// Encodes one block of values at a time into an owned fixed-size buffer;
/// the valid prefix of `output` after a call is the encoded block.
pub struct BlockEncoder {
    pub output: Vec<u8>,
    pub output_len: usize,
}

impl BlockEncoder {
    /// The encoder's buffer always has the worst-case capacity.
    pub open spec fn wf(&self) -> bool {
        self.output@.len() == COMPRESSED_BLOCK_MAX_SIZE
    }

    pub fn new() -> (r: BlockEncoder)
        ensures
            r.wf(),
            r.output_len == 0,
    {
        BlockEncoder { output: filled_bytes(COMPRESSED_BLOCK_MAX_SIZE), output_len: 0 }
    }

    /// Encodes one non-decreasing block against `offset`; returns the number
    /// of bytes written at the front of `self.output`, never more than
    /// `COMPRESSED_BLOCK_MAX_SIZE`.
    pub fn compress_block_sorted(&mut self, vals: &[u32], offset: u32) -> (len: usize)
        requires
            old(self).wf(),
            vals@.len() == NUM_DOCS_PER_BLOCK,
            is_sorted(vals@),
            offset <= vals@[0],
        ensures
            final(self).wf(),
            len == encode_sorted_spec(vals@, offset).len(),
            len <= COMPRESSED_BLOCK_MAX_SIZE,
            final(self).output@.subrange(0, len as int) == encode_sorted_spec(vals@, offset),
            final(self).output_len == len,
    {
        let m = max_delta(vals, offset);
        let c = width_of(m);
        let ghost ci = c as int;
        self.output.set(0, c);
        let cu = c as usize;
        let mut prev = offset;
        let mut i: usize = 0;
        while i < NUM_DOCS_PER_BLOCK
            invariant
                self.output@.len() == COMPRESSED_BLOCK_MAX_SIZE,
                vals@.len() == NUM_DOCS_PER_BLOCK,
                is_sorted(vals@),
                offset <= vals@[0],
                i <= NUM_DOCS_PER_BLOCK,
                cu == c as usize,
                ci == c as int,
                c as nat == width_for(seq_max(deltas(vals@, offset))),
                self.output@[0] == c,
                prev == (if i == 0 {
                    offset
                } else {
                    vals@[i - 1]
                }),
                forall|p: int, q: int|
                    0 <= p < i && 0 <= q < ci ==> self.output@[1 + p * ci + q] == #[trigger] byte_of(
                        deltas(vals@, offset)[p],
                        q as nat,
                    ),
            decreases NUM_DOCS_PER_BLOCK - i,
        {
            proof {
                assert(i * ci + ci <= 128 * ci) by (nonlinear_arith)
                    requires
                        0 <= i < 128,
                        0 <= ci,
                ;
                assert(128 * ci <= 512);
                lemma_seq_max_bound(deltas(vals@, offset));
                assert(deltas(vals@, offset)[i as int] <= seq_max(deltas(vals@, offset)));
                assert(fits(deltas(vals@, offset)[i as int], c as nat));
            }
            let pos = 1 + i * cu;
            let d = vals[i] - prev;
            proof {
                assert(d == deltas(vals@, offset)[i as int]);
            }
            let ghost before = self.output@;
            write_value_bytes(&mut self.output, pos, d, c);
            proof {
                assert forall|p: int, q: int| 0 <= p < i + 1 && 0 <= q < ci implies self.output@[1
                    + p * ci + q] == #[trigger] byte_of(deltas(vals@, offset)[p], q as nat) by {
                    if p < i {
                        assert(p * ci + q < i * ci) by (nonlinear_arith)
                            requires
                                0 <= p < i,
                                0 <= q < ci,
                        ;
                        assert(self.output@[1 + p * ci + q] == before[1 + p * ci + q]);
                    } else {
                        assert(self.output@[pos + q] == byte_of(
                            deltas(vals@, offset)[p],
                            q as nat,
                        ));
                    }
                }
            }
            prev = vals[i];
            i = i + 1;
        }
        let len = 1 + NUM_DOCS_PER_BLOCK * cu;
        proof {
            let target = encode_sorted_spec(vals@, offset);
            let ds = deltas(vals@, offset);
            assert(target.len() == 1 + 128 * ci);
            assert forall|p: int| 0 <= p < target.len() implies self.output@.subrange(
                0,
                len as int,
            )[p] == target[p] by {
                if p >= 1 {
                    let q = p - 1;
                    lemma_fundamental_div_mod(q, ci);
                    assert(q / ci < 128) by {
                        if q / ci >= 128 {
                            lemma_mul_inequality(128, q / ci, ci);
                            assert(ci * (q / ci) == (q / ci) * ci) by (nonlinear_arith);
                        }
                    }
                    assert(0 <= q / ci);
                    assert(self.output@[1 + (q / ci) * ci + (q % ci)] == byte_of(
                        ds[q / ci],
                        (q % ci) as nat,
                    ));
                    assert(ci * (q / ci) == (q / ci) * ci) by (nonlinear_arith);
                    assert(q == (q / ci) * ci + (q % ci));
                    assert(target[p] == packed(ds, c as nat)[q]);
                }
            }
            assert(self.output@.subrange(0, len as int) =~= target);
        }
        self.output_len = len;
        len
    }

    /// Encodes one block of raw values; returns the number of bytes written
    /// at the front of `self.output`.
    pub fn compress_block_unsorted(&mut self, vals: &[u32]) -> (len: usize)
        requires
            old(self).wf(),
            vals@.len() == NUM_DOCS_PER_BLOCK,
        ensures
            final(self).wf(),
            len == encode_unsorted_spec(vals@).len(),
            len <= COMPRESSED_BLOCK_MAX_SIZE,
            final(self).output@.subrange(0, len as int) == encode_unsorted_spec(vals@),
            final(self).output_len == len,
    {
        let m = slice_max(vals);
        let c = width_of(m);
        let len = pack_block(&mut self.output, vals, c, Ghost(vals@));
        self.output_len = len;
        len
    }
}

/// Decodes one block at a time into an owned fixed-size buffer; after a
/// call, the first `output_len` integers of `output` are the block.
pub struct BlockDecoder {
    pub output: Vec<u32>,
    pub output_len: usize,
}

impl BlockDecoder {
    /// The decoder's buffer has its fixed capacity and the claimed number of
    /// valid values never exceeds it.
    pub open spec fn wf(&self) -> bool {
        self.output@.len() == COMPRESSED_BLOCK_MAX_SIZE && self.output_len
            <= COMPRESSED_BLOCK_MAX_SIZE
    }

    pub fn new() -> (r: BlockDecoder)
        ensures
            r.wf(),
            r.output_len == 0,
            forall|i: int| 0 <= i < COMPRESSED_BLOCK_MAX_SIZE ==> r.output@[i] == 0u32,
    {
        BlockDecoder::with_val(0u32)
    }

    /// A decoder whose buffer starts filled with `val`.
    pub fn with_val(val: u32) -> (r: BlockDecoder)
        ensures
            r.wf(),
            r.output_len == 0,
            forall|i: int| 0 <= i < COMPRESSED_BLOCK_MAX_SIZE ==> r.output@[i] == val,
    {
        BlockDecoder { output: filled_u32(COMPRESSED_BLOCK_MAX_SIZE, val), output_len: 0 }
    }

    /// Decodes the non-decreasing block at the front of `compressed_data`
    /// against `offset`; returns how many bytes of the stream it consumed.
    pub fn uncompress_block_sorted(&mut self, compressed_data: &[u8], offset: u32) -> (consumed:
        usize)
        requires
            old(self).wf(),
            decodable_sorted(compressed_data@, offset),
        ensures
            final(self).wf(),
            consumed == encoded_len(compressed_data@),
            consumed <= compressed_data@.len(),
            final(self).output_len == NUM_DOCS_PER_BLOCK,
            forall|i: int|
                0 <= i < NUM_DOCS_PER_BLOCK ==> final(self).output@[i] == decode_sorted_spec(
                    compressed_data@,
                    offset,
                )[i],
            forall|i: int|
                NUM_DOCS_PER_BLOCK <= i < COMPRESSED_BLOCK_MAX_SIZE ==> final(self).output@[i]
                    == old(self).output@[i],
    {
        let c = compressed_data[0];
        let ghost ci = c as int;
        let cu = c as usize;
        let mut prev = offset;
        let mut i: usize = 0;
        while i < NUM_DOCS_PER_BLOCK
            invariant
                self.output@.len() == COMPRESSED_BLOCK_MAX_SIZE,
                decodable_sorted(compressed_data@, offset),
                c == compressed_data@[0],
                ci == c as int,
                cu == c as usize,
                i <= NUM_DOCS_PER_BLOCK,
                prev as int == offset + delta_sum(compressed_data@, i as int),
                forall|p: int|
                    0 <= p < i ==> self.output@[p] == decode_sorted_spec(
                        compressed_data@,
                        offset,
                    )[p],
                forall|p: int|
                    NUM_DOCS_PER_BLOCK <= p < COMPRESSED_BLOCK_MAX_SIZE ==> self.output@[p]
                        == old(self).output@[p],
            decreases NUM_DOCS_PER_BLOCK - i,
        {
            proof {
                assert(i * ci + ci <= 128 * ci) by (nonlinear_arith)
                    requires
                        0 <= i < 128,
                        0 <= ci,
                ;
                assert((i as int + 1) * ci == i as int * ci + ci) by (nonlinear_arith);
                lemma_delta_sum_monotone(compressed_data@, i as int + 1, 128);
            }
            let pos = 1 + i * cu;
            let v = read_value(compressed_data, pos, c);
            proof {
                assert(v == stored_val(compressed_data@, i as int));
            }
            let next = prev + v;
            self.output.set(i, next);
            prev = next;
            i = i + 1;
        }
        self.output_len = NUM_DOCS_PER_BLOCK;
        1 + NUM_DOCS_PER_BLOCK * cu
    }

    /// Decodes the raw block at the front of `compressed_data`; returns how
    /// many bytes of the stream it consumed.
    pub fn uncompress_block_unsorted(&mut self, compressed_data: &[u8]) -> (consumed: usize)
        requires
            old(self).wf(),
            decodable(compressed_data@),
        ensures
            final(self).wf(),
            consumed == encoded_len(compressed_data@),
            consumed <= compressed_data@.len(),
            final(self).output_len == NUM_DOCS_PER_BLOCK,
            forall|i: int|
                0 <= i < NUM_DOCS_PER_BLOCK ==> final(self).output@[i] == decode_unsorted_spec(
                    compressed_data@,
                )[i],
            forall|i: int|
                NUM_DOCS_PER_BLOCK <= i < COMPRESSED_BLOCK_MAX_SIZE ==> final(self).output@[i]
                    == old(self).output@[i],
    {
        let c = compressed_data[0];
        let ghost ci = c as int;
        let cu = c as usize;
        let mut i: usize = 0;
        while i < NUM_DOCS_PER_BLOCK
            invariant
                self.output@.len() == COMPRESSED_BLOCK_MAX_SIZE,
                decodable(compressed_data@),
                c == compressed_data@[0],
                ci == c as int,
                cu == c as usize,
                i <= NUM_DOCS_PER_BLOCK,
                forall|p: int|
                    0 <= p < i ==> self.output@[p] == decode_unsorted_spec(compressed_data@)[p],
                forall|p: int|
                    NUM_DOCS_PER_BLOCK <= p < COMPRESSED_BLOCK_MAX_SIZE ==> self.output@[p]
                        == old(self).output@[p],
            decreases NUM_DOCS_PER_BLOCK - i,
        {
            proof {
                assert(i * ci + ci <= 128 * ci) by (nonlinear_arith)
                    requires
                        0 <= i < 128,
                        0 <= ci,
                ;
                assert((i as int + 1) * ci == i as int * ci + ci) by (nonlinear_arith);
            }
            let pos = 1 + i * cu;
            let v = read_value(compressed_data, pos, c);
            proof {
                assert(v == stored_val(compressed_data@, i as int));
            }
            self.output.set(i, v);
            i = i + 1;
        }
        self.output_len = NUM_DOCS_PER_BLOCK;
        1 + NUM_DOCS_PER_BLOCK * cu
    }

    /// The decoded values: the valid prefix of the output buffer.
    pub fn output_array(&self) -> (r: &[u32])
        requires
            self.wf(),
        ensures
            r@ == self.output@.subrange(0, self.output_len as int),
    {
        slice_subrange(self.output.as_slice(), 0, self.output_len)
    }

    /// One decoded value, by position in the output buffer.
    pub fn output(&self, idx: usize) -> (r: u32)
        requires
            self.wf(),
            idx < COMPRESSED_BLOCK_MAX_SIZE,
        ensures
            r == self.output@[idx as int],
    {
        self.output[idx]
    }
}

} // verus!
