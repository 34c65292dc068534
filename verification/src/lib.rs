//! Base64 codec over caller-supplied buffers: no allocation, exact output
//! sizing, and defined behaviour on malformed input and undersized buffers.

use vstd::arithmetic::div_mod::{lemma_fundamental_div_mod, lemma_small_mod};
use vstd::prelude::*;

pub mod laws;
pub mod model;
pub mod raw;

use model::{decode_len_spec, decode_seq, encode_seq};

verus! {

/// Base64 padding character.
pub const PAD: u8 = 61;

/// Default character table: `A`-`Z`, `a`-`z`, `0`-`9`, `+`, `/`.
pub const STANDARD_TABLE: [u8; 64] = [
    65, 66, 67, 68, 69, 70, 71, 72, 73, 74, 75, 76, 77, 78, 79, 80,
    81, 82, 83, 84, 85, 86, 87, 88, 89, 90, 97, 98, 99, 100, 101, 102,
    103, 104, 105, 106, 107, 108, 109, 110, 111, 112, 113, 114, 115, 116, 117, 118,
    119, 120, 121, 122, 48, 49, 50, 51, 52, 53, 54, 55, 56, 57, 43, 47,
];

/// Alternative table, URL safe: `-` and `_` in place of `+` and `/`.
pub const URL_TABLE: [u8; 64] = [
    65, 66, 67, 68, 69, 70, 71, 72, 73, 74, 76, 75, 77, 78, 79, 80,
    81, 82, 83, 84, 85, 86, 87, 88, 89, 90, 97, 98, 99, 100, 101, 102,
    103, 104, 105, 106, 108, 107, 109, 110, 111, 112, 113, 114, 115, 116, 117, 118,
    119, 120, 121, 122, 48, 49, 50, 51, 52, 53, 54, 55, 56, 57, 45, 95,
];

/// Exact number of bytes that encoding an `n`-byte input produces:
/// four output symbols for every three input bytes, rounded up.
pub open spec fn encode_len_exact(n: nat) -> nat {
    4 * ((n + 2) / 3)
}

/// Value `encode_len` returns for every input, including the pathological
/// sizes on which the multiplication by four wraps around.
pub open spec fn encode_len_spec(n: usize) -> usize {
    let w = vstd::wrapping::usize_specs::wrapping_mul(n, 4);
    ((w / 3 + 3) / 4 * 4) as usize
}

/// The two shapes `encode_len` can take: the exact output size whenever the
/// multiplication by four does not wrap, and a value strictly below the
/// input size when it does, so a single comparison detects the overflow.
#[verifier::rlimit(60)]
pub proof fn lemma_encode_len_cases(n: usize)
    ensures
        4 * n <= usize::MAX ==> encode_len_spec(n) == encode_len_exact(n as nat) >= n,
        4 * n > usize::MAX ==> encode_len_spec(n) < n,
{
    let m = usize::MAX as int + 1;
    let p = 4 * (n as int);
    if 4 * n <= usize::MAX {
        lemma_small_mod((4 * n) as nat, m as nat);
        let q = (n as int) / 3;
        let rr = (n as int) % 3;
        lemma_fundamental_div_mod(n as int, 3);
        assert(rr == 0 || rr == 1 || rr == 2);
        if rr == 0 {
            assert((12 * q) / 3 == 4 * q && (12 * q + 3) / 4 == 3 * q && (3 * q + 2) / 3 == q)
                by (nonlinear_arith)
                requires q >= 0;
        } else if rr == 1 {
            assert((12 * q + 4) / 3 == 4 * q + 1 && (12 * q + 8) / 3 == 4 * q + 2) by (nonlinear_arith)
                requires q >= 0;
            assert((4 * q + 4) / 4 == q + 1 && (3 * q + 3) / 3 == q + 1) by (nonlinear_arith)
                requires q >= 0;
        } else {
            assert((12 * q + 8) / 3 == 4 * q + 2 && (4 * q + 5) / 4 == q + 1 && (3 * q + 4) / 3 == q
                + 1) by (nonlinear_arith)
                requires q >= 0;
        }
    } else {
        let k = p / m;
        let w = p % m;
        lemma_fundamental_div_mod(p, m);
        assert(0 <= w < m) by (nonlinear_arith)
            requires p == m * k + w, w == p % m, m > 0;
        assert(k >= 1) by (nonlinear_arith)
            requires p == m * k + w, 0 <= w < m, p >= m;
        let r3 = w / 3;
        assert(3 * r3 <= w) by (nonlinear_arith)
            requires r3 == w / 3, w >= 0;
        let r4 = (r3 + 3) / 4;
        assert(4 * r4 <= r3 + 3) by (nonlinear_arith)
            requires r4 == (r3 + 3) / 4, r3 + 3 >= 0;
        if n as int <= m - 12 {
            assert(m * k >= m) by (nonlinear_arith)
                requires k >= 1, m > 0;
            assert(w <= 3 * (n as int) - 12);
            assert(encode_len_spec(n) < n);
        } else {
            assert(usize::MAX >= 0xffff_ffff);
            assert(3 * r3 <= m - 1);
            assert(r3 + 3 < n as int);
            assert(encode_len_spec(n) < n);
        }
    }
}

/// Returns number of bytes necessary to encode input of provided size
/// (including padding).
///
/// On overflow returns a wrapped, numerically meaningless value; it is
/// always smaller than the input size in that case, which is how the
/// encoder detects the overflow.
pub fn encode_len(input: usize) -> (r: usize)
    ensures
        r == encode_len_spec(input),
        4 * input <= usize::MAX ==> r == encode_len_exact(input as nat) >= input,
        4 * input > usize::MAX ==> r < input,
{
    proof {
        lemma_encode_len_cases(input);
    }
    let w = input.wrapping_mul(4);
    (w / 3 + 3) / 4 * 4
}

/// Returns number of bytes necessary to decode provided input: zero for an
/// empty input or one whose length is not a multiple of four, otherwise
/// three bytes per four-symbol group, less one per trailing padding
/// character.
pub fn decode_len(input: &[u8]) -> (r: usize)
    ensures
        r == decode_len_spec(input@),
{
    let len = input.len();
    if len == 0 || len % 4 != 0 {
        0
    } else {
        let result = len / 4 * 3;
        proof {
            lemma_fundamental_div_mod(len as int, 4);
        }
        if input[len - 1] != PAD {
            result
        } else if input[len - 2] != PAD {
            result - 1
        } else if input[len - 3] != PAD {
            result - 2
        } else {
            result - 3
        }
    }
}

/// Validates custom character table by requiring user to provide table of
/// specific size containing only ASCII characters.
pub fn assert_valid_character_table(table: &[u8; 64]) -> (r: bool)
    ensures
        r <==> forall|i: int| 0 <= i < 64 ==> table@[i] < 128,
{
    let mut idx: usize = 0;
    while idx < 64
        invariant
            idx <= 64,
            forall|i: int| 0 <= i < idx ==> table@[i] < 128,
        decreases 64 - idx,
    {
        if table[idx] >= 128 {
            return false;
        }
        idx += 1;
    }
    true
}

/// Encoding function writing to slice.
///
/// `src` - Input to encode;
/// `dst` - Output to write;
///
/// Returns `Some` if successful, containing number of bytes written.
/// Returns `None` if data cannot be encoded due to insufficient buffer size
/// or size calculation overflow happens.
pub fn encode(table: &[u8; 64], src: &[u8], dst: &mut [u8]) -> (r: Option<usize>)
    ensures
        final(dst)@.len() == old(dst)@.len(),
        r is Some <==> 4 * src@.len() <= usize::MAX && encode_len_exact(src@.len())
            <= old(dst)@.len(),
        r matches Some(written) ==> {
            &&& written == encode_len_exact(src@.len())
            &&& final(dst)@ == encode_seq(table@, src@) + old(dst)@.skip(written as int)
        },
        r is None ==> final(dst)@ == old(dst)@,
{
    let mut len = dst.len();
    if raw::encode(table, src, dst, &mut len) {
        Some(len)
    } else {
        None
    }
}

/// Decoding function writing to slice.
///
/// `src` - Input to decode;
/// `dst` - Output to write;
///
/// Returns `Some` if successful, containing number of bytes written.
/// Returns `None` on malformed input or insufficient buffer size.
pub fn decode(table: &[u8; 64], src: &[u8], dst: &mut [u8]) -> (r: Option<usize>)
    ensures
        final(dst)@.len() == old(dst)@.len(),
        src@.len() == 0 ==> r == Some(0usize) && final(dst)@ == old(dst)@,
        src@.len() > 0 && decode_len_spec(src@) == 0 ==> r is None && final(dst)@ == old(dst)@,
        src@.len() > 0 && decode_len_spec(src@) > old(dst)@.len() ==> r is None && final(dst)@
            == old(dst)@,
        src@.len() > 0 && 0 < decode_len_spec(src@) <= old(dst)@.len() ==> (match decode_seq(
            table@,
            src@,
        ) {
            Some(out) => r == Some(out.len() as usize)
                && out.len() <= decode_len_spec(src@)
                && final(dst)@ == out + old(dst)@.skip(out.len() as int),
            None => r is None
                && final(dst)@.skip(decode_len_spec(src@) as int) == old(dst)@.skip(
                    decode_len_spec(src@) as int,
                ),
        }),
{
    let mut len = dst.len();
    if raw::decode(table, src, dst, &mut len) {
        Some(len)
    } else {
        None
    }
}

} // verus!
