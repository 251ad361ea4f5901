//! The byte layout shared with the device: boards are nine little-endian
//! 32-bit words (36 bytes), evaluations one sign-flipped word each. These
//! are the bytes a driver writes into a slab before a dispatch and reads
//! back through a mapped view.

use crate::board::GpuBoard;
use crate::chess::EvalScore;
use vstd::prelude::*;

verus! {

broadcast use vstd::array::group_array_axioms;

/// Byte `k` of the little-endian encoding of `w`.
pub open spec fn byte_of_word(w: u32, k: int) -> u8 {
    ((w >> (8 * k as u32)) & 0xFF) as u8
}

/// The word encoded by four little-endian bytes.
pub open spec fn word_of_bytes(b0: u8, b1: u8, b2: u8, b3: u8) -> u32 {
    (b0 as u32) | ((b1 as u32) << 8) | ((b2 as u32) << 16) | ((b3 as u32) << 24)
}

/// The word at byte offset `o` of a byte sequence.
pub open spec fn word_at(bs: Seq<u8>, o: int) -> u32
    recommends
        0 <= o,
        o + 4 <= bs.len(),
{
    word_of_bytes(bs[o], bs[o + 1], bs[o + 2], bs[o + 3])
}

/// A word survives the little-endian byte round trip.
pub proof fn lemma_word_roundtrip(w: u32)
    ensures
        word_of_bytes(
            byte_of_word(w, 0),
            byte_of_word(w, 1),
            byte_of_word(w, 2),
            byte_of_word(w, 3),
        ) == w,
{
    assert((((w >> 0) & 0xFF) as u8 as u32) | ((((w >> 8) & 0xFF) as u8 as u32) << 8) | ((((w
        >> 16) & 0xFF) as u8 as u32) << 16) | ((((w >> 24) & 0xFF) as u8 as u32) << 24) == w)
        by (bit_vector);
}

/// The first `n` bytes of one board's device encoding.
pub open spec fn board_bytes_upto(b: GpuBoard, n: int) -> Seq<u8>
    recommends
        0 <= n <= 36,
{
    Seq::new(n as nat, |i: int| byte_of_word(b.0@[i / 4], i % 4))
}

/// The 36-byte device encoding of one board.
pub open spec fn board_bytes(b: GpuBoard) -> Seq<u8> {
    board_bytes_upto(b, 36)
}

/// The device encoding of the first `n` bytes of a run of boards.
pub open spec fn boards_bytes_upto(bs: Seq<GpuBoard>, n: int) -> Seq<u8>
    recommends
        0 <= n <= bs.len() * 36,
{
    Seq::new(n as nat, |i: int| board_bytes(bs[i / 36])[i % 36])
}

/// The device encoding of a run of boards, one after the other.
pub open spec fn boards_bytes(bs: Seq<GpuBoard>) -> Seq<u8> {
    boards_bytes_upto(bs, bs.len() * 36 as int)
}

/// Splitting an index by a positive constant chunk size.
proof fn lemma_chunk_index(i: int, j: int, c: int, k: int)
    requires
        c > 0,
        0 <= k < c,
        i == j * c + k,
        j >= 0,
    ensures
        i / c == j,
        i % c == k,
{
    vstd::arithmetic::div_mod::lemma_fundamental_div_mod_converse_div(i, c, j, k);
    vstd::arithmetic::div_mod::lemma_fundamental_div_mod_converse_mod(i, c, j, k);
    assert(i == c * j + k) by (nonlinear_arith)
        requires
            i == j * c + k,
    ;
}

/// Append the four little-endian bytes of `w`.
pub fn push_word_bytes(out: &mut Vec<u8>, w: u32)
    ensures
        final(out)@.len() == old(out)@.len() + 4,
        final(out)@ == old(out)@ + Seq::new(4, |k: int| byte_of_word(w, k)),
{
    let b0 = (w & 0xFF) as u8;
    let b1 = ((w >> 8) & 0xFF) as u8;
    let b2 = ((w >> 16) & 0xFF) as u8;
    let b3 = ((w >> 24) & 0xFF) as u8;
    proof {
        assert((w & 0xFF) == ((w >> 0) & 0xFF)) by (bit_vector);
    }
    out.push(b0);
    out.push(b1);
    out.push(b2);
    out.push(b3);
    proof {
        assert(final(out)@ =~= old(out)@ + Seq::new(4, |k: int| byte_of_word(w, k)));
    }
}

/// Append the 36-byte encoding of one board.
fn push_board_bytes(out: &mut Vec<u8>, b: &GpuBoard)
    ensures
        final(out)@.len() == old(out)@.len() + 36,
        final(out)@ == old(out)@ + board_bytes(*b),
{
    let ghost base = out@;
    let mut w: usize = 0;
    while w < 9
        invariant
            w <= 9,
            out@.len() == base.len() + w * 4,
            out@ == base + board_bytes_upto(*b, w * 4),
        decreases 9 - w,
    {
        push_word_bytes(out, b.0[w]);
        proof {
            assert forall|i: int| 0 <= i < (w + 1) * 4 implies #[trigger] board_bytes_upto(
                *b,
                (w + 1) * 4,
            )[i] == (if i < w * 4 {
                board_bytes_upto(*b, w * 4)[i]
            } else {
                Seq::new(4, |k: int| byte_of_word(b.0@[w as int], k))[i - w * 4]
            }) by {
                if i >= w * 4 {
                    lemma_chunk_index(i, w as int, 4, i - w * 4);
                }
            }
            assert(out@ =~= base + board_bytes_upto(*b, (w + 1) * 4));
        }
        w = w + 1;
    }
    proof {
        assert(out@ =~= base + board_bytes(*b));
    }
}

/// Encode a run of boards for upload into a slab.
pub fn encode_boards(boards: &Vec<GpuBoard>) -> (r: Vec<u8>)
    requires
        boards@.len() * 36 <= usize::MAX,
    ensures
        r@ == boards_bytes(boards@),
        r@.len() == boards@.len() * 36,
{
    let mut out: Vec<u8> = Vec::new();
    let mut i: usize = 0;
    while i < boards.len()
        invariant
            i <= boards@.len(),
            boards@.len() * 36 <= usize::MAX,
            out@.len() == i * 36,
            out@ == boards_bytes_upto(boards@, i * 36),
        decreases boards@.len() - i,
    {
        proof {
            assert(i * 36 + 36 <= boards@.len() * 36) by (nonlinear_arith)
                requires
                    i < boards@.len(),
            ;
        }
        push_board_bytes(&mut out, &boards[i]);
        proof {
            assert forall|k: int| 0 <= k < (i + 1) * 36 implies #[trigger] boards_bytes_upto(
                boards@,
                (i + 1) * 36,
            )[k] == (if k < i * 36 {
                boards_bytes_upto(boards@, i * 36)[k]
            } else {
                board_bytes(boards@[i as int])[k - i * 36]
            }) by {
                if k >= i * 36 {
                    lemma_chunk_index(k, i as int, 36, k - i * 36);
                }
            }
            assert(out@ =~= boards_bytes_upto(boards@, (i + 1) * 36));
        }
        i = i + 1;
    }
    proof {
        assert(out@ =~= boards_bytes(boards@));
    }
    out
}

/// Read the word at byte offset `o`.
fn read_word(bytes: &Vec<u8>, o: usize) -> (r: u32)
    requires
        o + 4 <= bytes@.len(),
    ensures
        r == word_at(bytes@, o as int),
{
    let n = bytes.len();
    proof {
        assert(o + 4 <= n);
    }
    let b0 = bytes[o] as u32;
    let b1 = bytes[o + 1] as u32;
    let b2 = bytes[o + 2] as u32;
    let b3 = bytes[o + 3] as u32;
    b0 | (b1 << 8) | (b2 << 16) | (b3 << 24)
}

/// Decode the boards read back from a slab: every 36 bytes are one
/// board's nine words.
pub fn decode_boards(bytes: &Vec<u8>) -> (r: Vec<GpuBoard>)
    requires
        bytes@.len() % 36 == 0,
    ensures
        r@.len() == bytes@.len() / 36,
        forall|k: int, w: int|
            0 <= k < r@.len() && 0 <= w < 9 ==> (#[trigger] r@[k].0@[w]) == word_at(
                bytes@,
                k * 36 + 4 * w,
            ),
{
    let n = bytes.len() / 36;
    proof {
        vstd::arithmetic::div_mod::lemma_fundamental_div_mod(bytes@.len() as int, 36);
    }
    let mut r: Vec<GpuBoard> = Vec::new();
    let mut k: usize = 0;
    while k < n
        invariant
            k <= n,
            n == bytes@.len() / 36,
            n * 36 <= bytes@.len(),
            bytes@.len() <= usize::MAX,
            r@.len() == k,
            forall|k2: int, w: int|
                0 <= k2 < k && 0 <= w < 9 ==> (#[trigger] r@[k2].0@[w]) == word_at(
                    bytes@,
                    k2 * 36 + 4 * w,
                ),
        decreases n - k,
    {
        proof {
            assert(k * 36 + 36 <= n * 36) by (nonlinear_arith)
                requires
                    k < n,
            ;
        }
        let base = k * 36;
        let words: [u32; 9] = [
            read_word(bytes, base),
            read_word(bytes, base + 4),
            read_word(bytes, base + 8),
            read_word(bytes, base + 12),
            read_word(bytes, base + 16),
            read_word(bytes, base + 20),
            read_word(bytes, base + 24),
            read_word(bytes, base + 28),
            read_word(bytes, base + 32),
        ];
        r.push(GpuBoard(words));
        k = k + 1;
    }
    proof {
        vstd::arithmetic::div_mod::lemma_fundamental_div_mod(bytes@.len() as int, 36);
    }
    r
}

/// Decode the evaluations read back from a slab: one sign-flipped word
/// per board.
pub fn decode_evals(bytes: &Vec<u8>) -> (r: Vec<EvalScore>)
    requires
        bytes@.len() % 4 == 0,
    ensures
        r@.len() == bytes@.len() / 4,
        forall|k: int|
            0 <= k < r@.len() ==> (#[trigger] r@[k]).device_word_spec() == word_at(bytes@, k * 4),
{
    let n = bytes.len() / 4;
    proof {
        vstd::arithmetic::div_mod::lemma_fundamental_div_mod(bytes@.len() as int, 4);
    }
    let mut r: Vec<EvalScore> = Vec::new();
    let mut k: usize = 0;
    while k < n
        invariant
            k <= n,
            n == bytes@.len() / 4,
            n * 4 <= bytes@.len(),
            bytes@.len() <= usize::MAX,
            r@.len() == k,
            forall|k2: int|
                0 <= k2 < k ==> (#[trigger] r@[k2]).device_word_spec() == word_at(
                    bytes@,
                    k2 * 4,
                ),
        decreases n - k,
    {
        proof {
            assert(k * 4 + 4 <= n * 4) by (nonlinear_arith)
                requires
                    k < n,
            ;
        }
        let w = read_word(bytes, k * 4);
        r.push(EvalScore::from_device_word(w));
        k = k + 1;
    }
    r
}

/// Round trip: the bytes of an encoded run of boards decode to the same
/// words, board for board.
pub proof fn lemma_boards_roundtrip(bs: Seq<GpuBoard>)
    ensures
        boards_bytes(bs).len() == bs.len() * 36,
        boards_bytes(bs).len() % 36 == 0,
        forall|k: int, w: int|
            0 <= k < bs.len() && 0 <= w < 9 ==> word_at(
                boards_bytes(bs),
                k * 36 + 4 * w,
            ) == (#[trigger] bs[k].0@[w]),
{
    let enc = boards_bytes(bs);
    vstd::arithmetic::div_mod::lemma_mod_multiples_basic(bs.len() as int, 36);
    assert forall|k: int, w: int| 0 <= k < bs.len() && 0 <= w < 9 implies word_at(
        enc,
        k * 36 + 4 * w,
    ) == (#[trigger] bs[k].0@[w]) by {
        let o = k * 36 + 4 * w;
        assert(0 <= o && o + 4 <= bs.len() * 36) by (nonlinear_arith)
            requires
                0 <= k < bs.len(),
                0 <= w < 9,
                o == k * 36 + 4 * w,
        ;
        assert forall|d: int| 0 <= d < 4 implies enc[o + d] == byte_of_word(bs[k].0@[w], d) by {
            lemma_chunk_index(o + d, k, 36, 4 * w + d);
            lemma_chunk_index(4 * w + d, w, 4, d);
        }
        lemma_word_roundtrip(bs[k].0@[w]);
    }
}

} // verus!
