use vstd::prelude::*;

use crate::DecodeError;

verus! {

/// Number of coefficients in an 8x8 block.
pub const BLOCK_LEN: usize = 64;

/// The zigzag order: entry `k` is the flat position `8 * row + column` of the
/// `k`-th coefficient, from the DC coefficient to the highest frequency.
pub open spec fn zigzag_order() -> Seq<int> {
    seq![
        0, 1, 8, 16, 9, 2, 3, 10, 17, 24, 32, 25, 18, 11, 4, 5,
        12, 19, 26, 33, 40, 48, 41, 34, 27, 20, 13, 6, 7, 14, 21, 28,
        35, 42, 49, 56, 57, 50, 43, 36, 29, 22, 15, 23, 30, 37, 44, 51,
        58, 59, 52, 45, 38, 31, 39, 46, 53, 60, 61, 54, 47, 55, 62, 63,
    ]
}

/// The inverse of the zigzag order: entry `p` is the zigzag index of flat position `p`.
pub open spec fn zigzag_rank() -> Seq<int> {
    seq![
        0, 1, 5, 6, 14, 15, 27, 28, 2, 4, 7, 13, 16, 26, 29, 42,
        3, 8, 12, 17, 25, 30, 41, 43, 9, 11, 18, 24, 31, 40, 44, 53,
        10, 19, 23, 32, 39, 45, 52, 54, 20, 22, 33, 38, 46, 51, 55, 60,
        21, 34, 37, 47, 50, 56, 59, 61, 35, 36, 48, 49, 57, 58, 62, 63,
    ]
}

/// The coefficient of `m` at flat position `p`.
pub open spec fn cell(m: [[i32; 8]; 8], p: int) -> i32 {
    m@[p / 8]@[p % 8]
}

/// The zigzag sequence of a matrix.
pub open spec fn to_linear(m: [[i32; 8]; 8]) -> Seq<i32> {
    Seq::new(64, |k: int| cell(m, zigzag_order()[k]))
}

/// The two tables are inverse permutations of `0..64`.
pub proof fn lemma_zigzag_permutation()
    ensures
        forall|k: int|
            0 <= k < 64 ==> 0 <= #[trigger] zigzag_order()[k] < 64 && zigzag_rank()[zigzag_order()[k]]
                == k,
        forall|p: int|
            0 <= p < 64 ==> 0 <= #[trigger] zigzag_rank()[p] < 64 && zigzag_order()[zigzag_rank()[p]]
                == p,
{
}

fn zigzag_order_table() -> (t: [usize; 64])
    ensures
        forall|k: int| 0 <= k < 64 ==> t@[k] == zigzag_order()[k],
{
    [
        0, 1, 8, 16, 9, 2, 3, 10, 17, 24, 32, 25, 18, 11, 4, 5,
        12, 19, 26, 33, 40, 48, 41, 34, 27, 20, 13, 6, 7, 14, 21, 28,
        35, 42, 49, 56, 57, 50, 43, 36, 29, 22, 15, 23, 30, 37, 44, 51,
        58, 59, 52, 45, 38, 31, 39, 46, 53, 60, 61, 54, 47, 55, 62, 63,
    ]
}

fn zigzag_rank_table() -> (t: [usize; 64])
    ensures
        forall|p: int| 0 <= p < 64 ==> t@[p] == zigzag_rank()[p],
{
    [
        0, 1, 5, 6, 14, 15, 27, 28, 2, 4, 7, 13, 16, 26, 29, 42,
        3, 8, 12, 17, 25, 30, 41, 43, 9, 11, 18, 24, 31, 40, 44, 53,
        10, 19, 23, 32, 39, 45, 52, 54, 20, 22, 33, 38, 46, 51, 55, 60,
        21, 34, 37, 47, 50, 56, 59, 61, 35, 36, 48, 49, 57, 58, 62, 63,
    ]
}

/// Rebuilds the 8x8 matrix from its 64-entry zigzag sequence.
pub fn decode(input: &[i32]) -> (r: Result<[[i32; 8]; 8], DecodeError>)
    ensures
        input@.len() == 64 <==> r is Ok,
        r is Err ==> r == Err::<[[i32; 8]; 8], DecodeError>(DecodeError::InvalidZigzagLength),
        r matches Ok(m) ==> to_linear(m) == input@,
{
    if input.len() != BLOCK_LEN {
        return Err(DecodeError::InvalidZigzagLength);
    }
    proof {
        lemma_zigzag_permutation();
    }
    let rank = zigzag_rank_table();
    let mut m: [[i32; 8]; 8] = [[0i32; 8]; 8];
    let mut r: usize = 0;
    while r < 8
        invariant
            r <= 8,
            input@.len() == 64,
            forall|p: int| 0 <= p < 64 ==> rank@[p] == zigzag_rank()[p],
            forall|i: int, j: int|
                0 <= i < r && 0 <= j < 8 ==> #[trigger] m@[i]@[j] == input@[zigzag_rank()[8 * i + j]],
        decreases 8 - r,
    {
        let mut row: [i32; 8] = [0i32; 8];
        let mut c: usize = 0;
        while c < 8
            invariant
                r < 8,
                c <= 8,
                input@.len() == 64,
                forall|p: int| 0 <= p < 64 ==> rank@[p] == zigzag_rank()[p],
                forall|j: int| 0 <= j < c ==> #[trigger] row@[j] == input@[zigzag_rank()[8 * r + j]],
            decreases 8 - c,
        {
            row[c] = input[rank[8 * r + c]];
            c = c + 1;
        }
        m[r] = row;
        r = r + 1;
    }
    let ghost out = m;
    assert forall|k: int| 0 <= k < 64 implies #[trigger] to_linear(out)[k] == input@[k] by {
        let p = zigzag_order()[k];
        assert(0 <= p < 64 && zigzag_rank()[p] == k);
        assert(8 * (p / 8) + p % 8 == p);
    }
    assert(to_linear(out) =~= input@);
    Ok(m)
}

/// The zigzag sequence of an 8x8 matrix.
pub fn encode(input: &[[i32; 8]; 8]) -> (r: Vec<i32>)
    ensures
        r@ == to_linear(*input),
{
    let order = zigzag_order_table();
    proof {
        lemma_zigzag_permutation();
    }
    let mut out: Vec<i32> = Vec::new();
    let mut k: usize = 0;
    while k < BLOCK_LEN
        invariant
            k <= 64,
            out@.len() == k,
            forall|i: int| 0 <= i < 64 ==> order@[i] == zigzag_order()[i],
            forall|i: int| 0 <= i < k ==> #[trigger] out@[i] == cell(*input, zigzag_order()[i]),
        decreases 64 - k,
    {
        let p = order[k];
        out.push(input[p / 8][p % 8]);
        k = k + 1;
    }
    assert(out@ =~= to_linear(*input));
    out
}

/// Reading a matrix in zigzag order and writing it back gives the same matrix.
pub proof fn lemma_zigzag_round_trip(m: [[i32; 8]; 8], back: [[i32; 8]; 8])
    requires
        to_linear(back) == to_linear(m),
    ensures
        back == m,
{
    lemma_zigzag_permutation();
    assert forall|i: int, j: int| 0 <= i < 8 && 0 <= j < 8 implies back@[i]@[j] == m@[i]@[j] by {
        let p = 8 * i + j;
        let k = zigzag_rank()[p];
        assert(p / 8 == i && p % 8 == j);
        assert(0 <= k < 64 && zigzag_order()[k] == p);
        assert(to_linear(back)[k] == cell(back, p));
        assert(to_linear(m)[k] == cell(m, p));
    }
    assert forall|i: int| 0 <= i < 8 implies back@[i] == m@[i] by {
        assert(back@[i]@ =~= m@[i]@);
    }
    assert(back@ =~= m@);
}

/// Run-length pairs of `s`, where `zeros` zeros came just before it.
pub open spec fn rl_encode_from(s: Seq<i32>, zeros: int) -> Seq<(i32, i32)>
    decreases s.len(),
{
    if s.len() == 0 {
        if zeros > 0 {
            seq![(0i32, 0i32)]
        } else {
            Seq::empty()
        }
    } else if s[0] == 0 {
        rl_encode_from(s.drop_first(), zeros + 1)
    } else {
        seq![(zeros as i32, s[0])] + rl_encode_from(s.drop_first(), 0)
    }
}

/// Run-length pairs of `s`: one `(preceding zeros, value)` pair per non-zero value,
/// and a final `(0, 0)` end-of-block pair where `s` ends in zeros.
pub open spec fn rl_encode(s: Seq<i32>) -> Seq<(i32, i32)> {
    rl_encode_from(s, 0)
}

/// Places the values of `pairs` into `out`, the first at `pos` plus its zero run.
/// A value whose place falls outside the block is dropped.
pub open spec fn rl_decode_from(pairs: Seq<(i32, i32)>, pos: int, out: Seq<i32>) -> Seq<i32>
    decreases pairs.len(),
{
    if pairs.len() == 0 {
        out
    } else {
        let at = pos + pairs[0].0;
        let next = if 0 <= at < 64 {
            out.update(at, pairs[0].1)
        } else {
            out
        };
        rl_decode_from(pairs.drop_first(), at + 1, next)
    }
}

/// The 64 coefficients that `pairs` stands for, zero where no pair writes.
pub open spec fn rl_decode(pairs: Seq<(i32, i32)>) -> Seq<i32> {
    rl_decode_from(pairs, 0, Seq::new(64, |i: int| 0i32))
}

/// Compresses a coefficient sequence into `(zero_run, value)` pairs.
pub fn run_length_encoded(input: Vec<i32>) -> (r: Vec<(i32, i32)>)
    requires
        input@.len() <= i32::MAX,
    ensures
        r@ == rl_encode(input@),
{
    let mut zero_count: i32 = 0;
    let mut v: Vec<(i32, i32)> = Vec::new();
    let mut i: usize = 0;
    assert(input@.skip(0) =~= input@);
    assert(v@ + rl_encode(input@) =~= rl_encode(input@));
    while i < input.len()
        invariant
            i <= input@.len() <= i32::MAX,
            0 <= zero_count <= i,
            v@ + rl_encode_from(input@.skip(i as int), zero_count as int) == rl_encode(input@),
        decreases input@.len() - i,
    {
        let x = input[i];
        let ghost rest = input@.skip(i as int);
        assert(rest.drop_first() =~= input@.skip(i + 1));
        if x == 0 {
            zero_count = zero_count + 1;
        } else {
            assert(v@ + seq![(zero_count, x)] + rl_encode_from(input@.skip(i + 1), 0) =~= v@
                + rl_encode_from(rest, zero_count as int));
            v.push((zero_count, x));
            zero_count = 0;
        }
        i = i + 1;
    }
    if zero_count > 0 {
        v.push((0, 0));
    }
    assert(v@ =~= rl_encode(input@));
    v
}

/// Expands `(zero_run, value)` pairs back into 64 coefficients.
pub fn run_length_decoded(coded: Vec<(i32, i32)>) -> (r: Vec<i32>)
    ensures
        r@ == rl_decode(coded@),
{
    let mut v: Vec<i32> = Vec::new();
    while v.len() < BLOCK_LEN
        invariant
            v@.len() <= 64,
            forall|j: int| 0 <= j < v@.len() ==> v@[j] == 0,
        decreases 64 - v@.len(),
    {
        v.push(0);
    }
    assert(v@ =~= Seq::new(64, |i: int| 0i32));
    let mut pos: i128 = 0;
    let mut i: usize = 0;
    assert(coded@.skip(0) =~= coded@);
    while i < coded.len()
        invariant
            i <= coded@.len(),
            v@.len() == 64,
            -(i as int) * 0x1_0000_0000 <= pos <= (i as int) * 0x1_0000_0000,
            rl_decode_from(coded@.skip(i as int), pos as int, v@) == rl_decode(coded@),
        decreases coded@.len() - i,
    {
        let (run, value) = coded[i];
        assert(coded@.skip(i as int).drop_first() =~= coded@.skip(i + 1));
        let at: i128 = pos + run as i128;
        if 0 <= at && at < 64 {
            v.set(at as usize, value);
        }
        pos = at + 1;
        i = i + 1;
    }
    v
}

/// In a block of 64 coefficients, expanding the run-length pairs gives the block back.
pub proof fn lemma_run_length_round_trip(s: Seq<i32>)
    requires
        s.len() == 64,
    ensures
        rl_decode(rl_encode(s)) == s,
{
    assert(s.skip(0) =~= s);
    lemma_round_trip_from(s, 0, 0, Seq::new(64, |i: int| 0i32));
}

proof fn lemma_round_trip_from(s: Seq<i32>, i: int, z: int, out: Seq<i32>)
    requires
        s.len() == 64,
        0 <= z <= i <= 64,
        forall|j: int| i - z <= j < i ==> s[j] == 0,
        out.len() == 64,
        forall|j: int| 0 <= j < i - z ==> out[j] == s[j],
        forall|j: int| i - z <= j < 64 ==> out[j] == 0,
    ensures
        rl_decode_from(rl_encode_from(s.skip(i), z), i - z, out) == s,
    decreases 64 - i,
{
    let rest = s.skip(i);
    if i == 64 {
        assert(rest.len() == 0);
        if z > 0 {
            let pairs = rl_encode_from(rest, z);
            assert(pairs == seq![(0i32, 0i32)]);
            assert(pairs.drop_first() =~= Seq::<(i32, i32)>::empty());
            assert(out.update(i - z, 0) =~= s);
            assert(rl_decode_from(pairs.drop_first(), i - z + 1, out.update(i - z, 0)) == out.update(
                i - z,
                0,
            ));
        } else {
            assert(out =~= s);
        }
    } else {
        assert(rest.drop_first() =~= s.skip(i + 1));
        assert(rest[0] == s[i]);
        if s[i] == 0 {
            lemma_round_trip_from(s, i + 1, z + 1, out);
        } else {
            let tail = rl_encode_from(s.skip(i + 1), 0);
            let pairs = seq![(z as i32, s[i])] + tail;
            assert(rl_encode_from(rest, z) == pairs);
            assert(pairs[0] == (z as i32, s[i]));
            assert(pairs.drop_first() =~= tail);
            let next = out.update(i, s[i]);
            lemma_round_trip_from(s, i + 1, 0, next);
            assert(rl_decode_from(pairs, i - z, out) == rl_decode_from(tail, i + 1, next));
        }
    }
}

} // verus!
