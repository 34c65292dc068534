//! Low level functions: the raw transforms writing into a caller-owned
//! region described by a slice and an in/out capacity value.

use vstd::arithmetic::div_mod::lemma_fundamental_div_mod;
use vstd::prelude::*;

use crate::model::{
    dbyte0, dbyte1, dbyte2, decode_len_spec, decode_seq, encode_group, encode_seq, group_ok,
    group_stop, group_val, lemma_table_index_of, partial_bytes, table_has, table_index_of,
};
use crate::{encode_len_exact, PAD};

verus! {

/// Raw encoding function.
///
/// `src` - Input to encode;
/// `dst` - Output region to write;
/// `len` - Capacity on entry; on exit the required size after a too-small
///         buffer, the written size after success, and untouched after a
///         size-calculation overflow.
///
/// Returns `true` on success.
/// Returns `false` if the buffer is too small or the required length
/// overflows.
#[verifier::loop_isolation(false)]
#[verifier::rlimit(60)]
pub fn encode(table: &[u8; 64], src: &[u8], dst: &mut [u8], len: &mut usize) -> (r: bool)
    requires
        *old(len) <= old(dst)@.len(),
    ensures
        final(dst)@.len() == old(dst)@.len(),
        4 * src@.len() > usize::MAX ==> !r
            && *final(len) == *old(len)
            && final(dst)@ == old(dst)@,
        4 * src@.len() <= usize::MAX && encode_len_exact(src@.len()) > *old(len) ==> !r
            && *final(len) == encode_len_exact(src@.len())
            && final(dst)@ == old(dst)@,
        4 * src@.len() <= usize::MAX && encode_len_exact(src@.len()) <= *old(len) ==> r
            && *final(len) == encode_len_exact(src@.len())
            && final(dst)@ == encode_seq(table@, src@)
                + old(dst)@.skip(encode_len_exact(src@.len()) as int),
{
    let n = src.len();
    let required = crate::encode_len(n);
    if required < n {
        return false;
    } else if required > *len {
        *len = required;
        return false;
    }
    let mut i: usize = 0;
    let mut c: usize = 0;
    proof {
        lemma_fundamental_div_mod(n as int, 3);
        assert(src@.skip(0) =~= src@);
        assert(dst@.subrange(0, 0) + encode_seq(table@, src@) =~= encode_seq(table@, src@));
    }
    while i + 3 <= n
        invariant
            i <= n,
            i % 3 == 0,
            c == 4 * (i as int / 3),
            c <= required,
            dst@.len() == old(dst)@.len(),
            dst@.skip(required as int) == old(dst)@.skip(required as int),
            encode_seq(table@, src@) == dst@.subrange(0, c as int) + encode_seq(
                table@,
                src@.skip(i as int),
            ),
        decreases n - i,
    {
        proof {
            assert((i as int + 3) / 3 == i as int / 3 + 1) by (nonlinear_arith)
                requires i as int % 3 == 0, i >= 0;
            assert(i as int / 3 + 1 <= (n as int + 2) / 3) by (nonlinear_arith)
                requires i as int + 3 <= n, i as int % 3 == 0, i >= 0;
        }
        let b0 = src[i];
        let b1 = src[i + 1];
        let b2 = src[i + 2];
        let ghost pre = dst@;
        dst[c] = table[(b0 / 4) as usize];
        dst[c + 1] = table[((b0 % 4) * 16 + b1 / 16) as usize];
        dst[c + 2] = table[((b1 % 16) * 4 + b2 / 64) as usize];
        dst[c + 3] = table[(b2 % 64) as usize];
        proof {
            assert(dst@.subrange(0, c as int + 4) =~= pre.subrange(0, c as int) + encode_group(
                table@,
                b0,
                b1,
                b2,
            ));
            assert(dst@.skip(required as int) =~= pre.skip(required as int));
            assert(src@.skip(i as int).skip(3) =~= src@.skip(i as int + 3));
            assert(src@.skip(i as int)[0] == b0 && src@.skip(i as int)[1] == b1 && src@.skip(
                i as int,
            )[2] == b2);
            assert(encode_seq(table@, src@.skip(i as int)) == encode_group(table@, b0, b1, b2)
                + encode_seq(table@, src@.skip(i as int + 3)));
        }
        i += 3;
        c += 4;
    }
    let rem = n - i;
    if rem == 0 {
        proof {
            assert((n as int + 2) / 3 == n as int / 3) by (nonlinear_arith)
                requires n as int % 3 == 0, n >= 0;
            assert(src@.skip(n as int) =~= Seq::<u8>::empty());
            assert(encode_seq(table@, src@) =~= dst@.subrange(0, c as int));
            assert(dst@ =~= encode_seq(table@, src@) + dst@.skip(c as int));
            assert(dst@.skip(c as int) =~= old(dst)@.skip(required as int));
        }
        *len = required;
        return true;
    }
    proof {
        assert((i as int + 3) / 3 == i as int / 3 + 1) by (nonlinear_arith)
            requires i as int % 3 == 0, i >= 0;
        assert((n as int + 2) / 3 == (i as int + 3) / 3) by (nonlinear_arith)
            requires i as int % 3 == 0, i >= 0, i < n <= i + 2;
        assert(c + 4 == required);
    }
    let b0 = src[i];
    let ghost pre = dst@;
    dst[c] = table[(b0 / 4) as usize];
    if rem == 1 {
        dst[c + 1] = table[((b0 % 4) * 16) as usize];
        dst[c + 2] = PAD;
        proof {
            assert(src@.skip(i as int) =~= seq![b0]);
        }
    } else {
        let b1 = src[i + 1];
        dst[c + 1] = table[((b0 % 4) * 16 + b1 / 16) as usize];
        dst[c + 2] = table[((b1 % 16) * 4) as usize];
        proof {
            assert(src@.skip(i as int) =~= seq![b0, b1]);
        }
    }
    dst[c + 3] = PAD;
    proof {
        assert(dst@.subrange(0, c as int + 4) =~= pre.subrange(0, c as int) + encode_seq(
            table@,
            src@.skip(i as int),
        ));
        assert(encode_seq(table@, src@) =~= dst@.subrange(0, required as int));
        assert(dst@ =~= encode_seq(table@, src@) + dst@.skip(required as int));
        assert(dst@.skip(required as int) =~= old(dst)@.skip(required as int));
    }
    *len = required;
    true
}

/// Reverse lookup by linear scan: index of the first occurrence of `ch` in
/// the table, as decoding resolves a symbol to its six-bit value.
fn table_lookup(table: &[u8; 64], ch: u8) -> (r: Option<u8>)
    ensures
        table_index_of(table@, ch) == -1 ==> r is None,
        table_index_of(table@, ch) != -1 ==> r == Some(table_index_of(table@, ch) as u8)
            && table_index_of(table@, ch) < 64,
{
    let mut k: usize = 0;
    while k < 64
        invariant
            k <= 64,
            forall|j: int| 0 <= j < k ==> table@[j] != ch,
        decreases 64 - k,
    {
        if table[k] == ch {
            proof {
                lemma_table_index_of(table@, ch);
                assert(table_has(table@, ch)) by {
                    assert(0 <= k < table@.len() && table@[k as int] == ch);
                }
            }
            return Some(k as u8);
        }
        k += 1;
    }
    proof {
        lemma_table_index_of(table@, ch);
        if table_index_of(table@, ch) != -1 {
            assert(table@[table_index_of(table@, ch)] == ch);
        }
    }
    None
}

/// While decoding, the written prefix of the destination together with what
/// the remaining groups yield makes up the whole result; a failure in the
/// remaining groups is a failure of the whole.
spec fn decode_prefix_inv(table: Seq<u8>, s: Seq<u8>, dst: Seq<u8>, g: int, c: int) -> bool {
    match decode_seq(table, s.skip(4 * g)) {
        Some(rest) => decode_seq(table, s) == Some(dst.subrange(0, c) + rest),
        None => decode_seq(table, s) is None,
    }
}

/// A suffix of an untouched suffix is itself untouched.
proof fn lemma_suffix(a: Seq<u8>, b: Seq<u8>, c: int, d: int)
    requires
        a.len() == b.len(),
        0 <= c <= d <= a.len(),
        a.skip(c) == b.skip(c),
    ensures
        a.skip(d) == b.skip(d),
{
    assert forall|j: int| 0 <= j < a.len() - d implies #[trigger] a.skip(d)[j] == b.skip(d)[j] by {
        assert(a.skip(c)[d - c + j] == b.skip(c)[d - c + j]);
    }
    assert(a.skip(d) =~= b.skip(d));
}

/// Ending the decode with the remaining groups contributing nothing: the
/// result is exactly the prefix written so far.
proof fn lemma_finish(table: Seq<u8>, s: Seq<u8>, dst: Seq<u8>, dst0: Seq<u8>, g: int, c: int)
    requires
        0 <= 4 * g <= s.len(),
        0 <= c <= dst.len(),
        dst.len() == dst0.len(),
        dst.skip(c) == dst0.skip(c),
        decode_prefix_inv(table, s, dst, g, c),
        decode_seq(table, s.skip(4 * g)) == Some(Seq::<u8>::empty()),
    ensures
        decode_seq(table, s) == Some(dst.subrange(0, c)),
        dst == dst.subrange(0, c) + dst0.skip(c),
{
    assert(dst.subrange(0, c) + Seq::<u8>::empty() =~= dst.subrange(0, c));
    assert(dst =~= dst.subrange(0, c) + dst0.skip(c));
}

/// A failing group makes the whole decode fail, and nothing at or beyond
/// the written prefix has been touched.
proof fn lemma_fail(table: Seq<u8>, s: Seq<u8>, dst: Seq<u8>, dst0: Seq<u8>, g: int, c: int, req: int)
    requires
        0 <= 4 * g <= s.len(),
        0 <= c <= req <= dst.len(),
        dst.len() == dst0.len(),
        dst.skip(c) == dst0.skip(c),
        decode_prefix_inv(table, s, dst, g, c),
        decode_seq(table, s.skip(4 * g)) is None,
    ensures
        decode_seq(table, s) is None,
        dst.skip(req) == dst0.skip(req),
{
    lemma_suffix(dst, dst0, c, req);
}

/// The bytes a group contributes always fit below the required length the
/// length calculator reported: a group that is not the last stays three
/// bytes short of it, and the last group's padding is exactly what the
/// calculator subtracted.
proof fn lemma_room(s: Seq<u8>, g: int, stop: int, req: int)
    requires
        s.len() % 4 == 0,
        4 <= s.len(),
        s.len() == 4 * (s.len() as int / 4),
        0 <= g,
        4 * g + 4 <= s.len(),
        req == decode_len_spec(s),
        2 <= stop <= 4,
        stop == 2 ==> s[4 * g + 1] != PAD && s[4 * g + 2] == PAD,
        stop == 3 ==> s[4 * g + 2] != PAD && s[4 * g + 3] == PAD,
        stop == 4 ==> s[4 * g + 3] != PAD,
    ensures
        stop == 2 ==> 3 * g + 1 <= req,
        stop == 3 ==> 3 * g + 2 <= req,
        stop == 4 ==> 3 * g + 3 <= req,
{
    let n = s.len() as int;
    let ng = n / 4;
    assert(g + 1 <= ng);
}

/// After writing the bytes of a final, padded group, the decode result is
/// the whole written prefix.
proof fn lemma_written(
    table: Seq<u8>,
    s: Seq<u8>,
    dst: Seq<u8>,
    pre: Seq<u8>,
    dst0: Seq<u8>,
    g: int,
    c: int,
    extra: int,
)
    requires
        0 <= 4 * g <= s.len(),
        0 <= c,
        0 <= extra,
        c + extra <= dst.len(),
        dst.len() == pre.len() == dst0.len(),
        decode_prefix_inv(table, s, pre, g, c),
        pre.skip(c) == dst0.skip(c),
        decode_seq(table, s.skip(4 * g)) == Some(dst.subrange(c, c + extra)),
        forall|idx: int| 0 <= idx < dst.len() && !(c <= idx < c + extra) ==> dst[idx] == pre[idx],
    ensures
        decode_seq(table, s) == Some(dst.subrange(0, c + extra)),
        dst == dst.subrange(0, c + extra) + dst0.skip(c + extra),
{
    assert(pre.subrange(0, c) =~= dst.subrange(0, c));
    assert(dst.subrange(0, c) + dst.subrange(c, c + extra) =~= dst.subrange(0, c + extra));
    assert forall|j: int| 0 <= j < dst.len() - (c + extra) implies #[trigger] dst.skip(
        c + extra,
    )[j] == dst0.skip(c + extra)[j] by {
        assert(pre.skip(c)[extra + j] == dst0.skip(c)[extra + j]);
    }
    assert(dst.skip(c + extra) =~= dst0.skip(c + extra));
    assert(dst =~= dst.subrange(0, c + extra) + dst0.skip(c + extra));
}

/// Consuming one full group extends the written prefix by three bytes and
/// keeps the rest of the destination untouched.
proof fn lemma_step(
    table: Seq<u8>,
    s: Seq<u8>,
    dst: Seq<u8>,
    pre: Seq<u8>,
    dst0: Seq<u8>,
    g: int,
    c: int,
)
    requires
        s.len() % 4 == 0,
        0 <= g,
        4 * g + 4 <= s.len(),
        0 <= c,
        c + 3 <= dst.len(),
        dst.len() == pre.len() == dst0.len(),
        decode_prefix_inv(table, s, pre, g, c),
        pre.skip(c) == dst0.skip(c),
        group_stop(s.skip(4 * g)) == 4,
        group_ok(table, s.skip(4 * g)),
        dst.subrange(c, c + 3) == seq![
            dbyte0(group_val(table, s.skip(4 * g), 0), group_val(table, s.skip(4 * g), 1)),
            dbyte1(group_val(table, s.skip(4 * g), 1), group_val(table, s.skip(4 * g), 2)),
            dbyte2(group_val(table, s.skip(4 * g), 2), group_val(table, s.skip(4 * g), 3)),
        ],
        forall|idx: int| 0 <= idx < dst.len() && !(c <= idx < c + 3) ==> dst[idx] == pre[idx],
    ensures
        decode_prefix_inv(table, s, dst, g + 1, c + 3),
        dst.skip(c + 3) == dst0.skip(c + 3),
{
    let tail = s.skip(4 * g);
    assert(tail.skip(4) =~= s.skip(4 * (g + 1)));
    assert(pre.subrange(0, c) =~= dst.subrange(0, c));
    assert forall|j: int| 0 <= j < dst.len() - (c + 3) implies #[trigger] dst.skip(c + 3)[j]
        == dst0.skip(c + 3)[j] by {
        assert(pre.skip(c)[3 + j] == dst0.skip(c)[3 + j]);
    }
    assert(dst.skip(c + 3) =~= dst0.skip(c + 3));
    match decode_seq(table, s.skip(4 * (g + 1))) {
        Some(rest) => {
            assert(decode_seq(table, tail) == Some(dst.subrange(c, c + 3) + rest));
            assert(dst.subrange(0, c) + (dst.subrange(c, c + 3) + rest) =~= dst.subrange(
                0,
                c + 3,
            ) + rest);
        },
        None => {
            assert(decode_seq(table, tail) is None);
        },
    }
}

/// Raw decoding function.
///
/// `src` - Input to decode;
/// `dst` - Output region to write;
/// `len` - Capacity on entry; on exit the required size after a too-small
///         buffer, the written size after success, and untouched after a
///         malformed input.
///
/// Returns `true` on success.
/// Returns `false` if the length of `src` is not a non-zero multiple of
/// four, if a scanned symbol is neither padding nor in the table, or if
/// the buffer is smaller than the required size.
#[verifier::loop_isolation(false)]
#[verifier::rlimit(100)]
pub fn decode(table: &[u8; 64], src: &[u8], dst: &mut [u8], len: &mut usize) -> (r: bool)
    requires
        *old(len) <= old(dst)@.len(),
    ensures
        final(dst)@.len() == old(dst)@.len(),
        src@.len() == 0 ==> r
            && *final(len) == 0
            && final(dst)@ == old(dst)@,
        src@.len() > 0 && decode_len_spec(src@) == 0 ==> !r
            && *final(len) == *old(len)
            && final(dst)@ == old(dst)@,
        src@.len() > 0 && decode_len_spec(src@) > *old(len) ==> !r
            && *final(len) == decode_len_spec(src@)
            && final(dst)@ == old(dst)@,
        src@.len() > 0 && 0 < decode_len_spec(src@) <= *old(len) ==> (match decode_seq(
            table@,
            src@,
        ) {
            Some(out) => r
                && *final(len) == out.len()
                && out.len() <= decode_len_spec(src@)
                && final(dst)@ == out + old(dst)@.skip(out.len() as int),
            None => !r
                && *final(len) == *old(len)
                && final(dst)@.skip(decode_len_spec(src@) as int) == old(dst)@.skip(
                    decode_len_spec(src@) as int,
                ),
        }),
{
    let n = src.len();
    let required = crate::decode_len(src);
    if required == 0 {
        if n == 0 {
            *len = 0;
            return true;
        }
        return false;
    }
    if required > *len {
        *len = required;
        return false;
    }
    proof {
        lemma_fundamental_div_mod(n as int, 4);
        assert(src@.skip(0int) =~= src@);
        match decode_seq(table@, src@) {
            Some(rest) => {
                assert(dst@.subrange(0, 0) + rest =~= rest);
            },
            None => {},
        }
    }
    let ngroups = n / 4;
    let mut g: usize = 0;
    let mut c: usize = 0;
    while g < ngroups
        invariant
            n == src@.len(),
            n % 4 == 0,
            4 <= n,
            ngroups == n as int / 4,
            n == 4 * ngroups,
            g <= ngroups,
            c == 3 * g,
            c <= required,
            0 < required,
            required == decode_len_spec(src@),
            required <= *len,
            *len == *old(len),
            *len <= dst@.len(),
            dst@.len() == old(dst)@.len(),
            dst@.skip(c as int) == old(dst)@.skip(c as int),
            decode_prefix_inv(table@, src@, dst@, g as int, c as int),
        decreases ngroups - g,
    {
        let base_i = 4 * g;
        let ghost tail = src@.skip(4 * g as int);
        proof {
            assert(tail.len() == n - 4 * g);
            assert(forall|j: int| 0 <= j < tail.len() ==> tail[j] == src@[4 * (g as int) + j]);
        }
        let ch0 = src[base_i];
        if ch0 == PAD {
            proof {
                assert(group_stop(tail) == 0);
                assert(partial_bytes(table@, tail, 0) =~= Seq::<u8>::empty());
                lemma_finish(table@, src@, dst@, old(dst)@, g as int, c as int);
            }
            *len = c;
            return true;
        }
        let v0 = match table_lookup(table, ch0) {
            Some(v) => v,
            None => {
                proof {
                    assert(0 < group_stop(tail));
                    assert(!table_has(table@, ch0)) by {
                        lemma_table_index_of(table@, ch0);
                        if table_has(table@, ch0) {
                            assert(table_index_of(table@, ch0) != -1);
                        }
                    }
                    assert(!group_ok(table@, tail));
                    lemma_fail(table@, src@, dst@, old(dst)@, g as int, c as int, required as int);
                }
                return false;
            },
        };
        proof {
            lemma_table_index_of(table@, ch0);
            assert(table_has(table@, ch0));
        }
        let ch1 = src[base_i + 1];
        if ch1 == PAD {
            proof {
                assert(group_stop(tail) == 1);
                assert(partial_bytes(table@, tail, 1) =~= Seq::<u8>::empty());
                lemma_finish(table@, src@, dst@, old(dst)@, g as int, c as int);
            }
            *len = c;
            return true;
        }
        let v1 = match table_lookup(table, ch1) {
            Some(v) => v,
            None => {
                proof {
                    assert(1 < group_stop(tail));
                    assert(!table_has(table@, ch1)) by {
                        lemma_table_index_of(table@, ch1);
                        if table_has(table@, ch1) {
                            assert(table_index_of(table@, ch1) != -1);
                        }
                    }
                    assert(!group_ok(table@, tail));
                    lemma_fail(table@, src@, dst@, old(dst)@, g as int, c as int, required as int);
                }
                return false;
            },
        };
        proof {
            lemma_table_index_of(table@, ch1);
            assert(table_has(table@, ch1));
            assert(group_val(table@, tail, 0) == v0 && v0 < 64);
            assert(group_val(table@, tail, 1) == v1 && v1 < 64);
        }
        let ch2 = src[base_i + 2];
        if ch2 == PAD {
            proof {
                assert(group_stop(tail) == 2);
                assert(decode_seq(table@, tail) == Some(partial_bytes(table@, tail, 2)));
                lemma_room(src@, g as int, 2, required as int);
            }
            let ghost pre = dst@;
            dst[c] = v0 * 4 + v1 / 16;
            proof {
                assert(dst@.subrange(c as int, c as int + 1) =~= partial_bytes(table@, tail, 2));
                lemma_written(table@, src@, dst@, pre, old(dst)@, g as int, c as int, 1);
            }
            *len = c + 1;
            return true;
        }
        let v2 = match table_lookup(table, ch2) {
            Some(v) => v,
            None => {
                proof {
                    assert(2 < group_stop(tail));
                    assert(!table_has(table@, ch2)) by {
                        lemma_table_index_of(table@, ch2);
                        if table_has(table@, ch2) {
                            assert(table_index_of(table@, ch2) != -1);
                        }
                    }
                    assert(!group_ok(table@, tail));
                    lemma_fail(table@, src@, dst@, old(dst)@, g as int, c as int, required as int);
                }
                return false;
            },
        };
        proof {
            lemma_table_index_of(table@, ch2);
            assert(table_has(table@, ch2));
            assert(group_val(table@, tail, 2) == v2 && v2 < 64);
        }
        let ch3 = src[base_i + 3];
        if ch3 == PAD {
            proof {
                assert(group_stop(tail) == 3);
                assert(decode_seq(table@, tail) == Some(partial_bytes(table@, tail, 3)));
                lemma_room(src@, g as int, 3, required as int);
            }
            let ghost pre = dst@;
            dst[c] = v0 * 4 + v1 / 16;
            dst[c + 1] = (v1 % 16) * 16 + v2 / 4;
            proof {
                assert(dst@.subrange(c as int, c as int + 2) =~= partial_bytes(table@, tail, 3));
                lemma_written(table@, src@, dst@, pre, old(dst)@, g as int, c as int, 2);
            }
            *len = c + 2;
            return true;
        }
        let v3 = match table_lookup(table, ch3) {
            Some(v) => v,
            None => {
                proof {
                    assert(3 < group_stop(tail));
                    assert(!table_has(table@, ch3)) by {
                        lemma_table_index_of(table@, ch3);
                        if table_has(table@, ch3) {
                            assert(table_index_of(table@, ch3) != -1);
                        }
                    }
                    assert(!group_ok(table@, tail));
                    lemma_fail(table@, src@, dst@, old(dst)@, g as int, c as int, required as int);
                }
                return false;
            },
        };
        proof {
            lemma_table_index_of(table@, ch3);
            assert(table_has(table@, ch3));
            assert(group_val(table@, tail, 3) == v3 && v3 < 64);
            assert(group_stop(tail) == 4);
            lemma_room(src@, g as int, 4, required as int);
        }
        let ghost pre = dst@;
        dst[c] = v0 * 4 + v1 / 16;
        dst[c + 1] = (v1 % 16) * 16 + v2 / 4;
        dst[c + 2] = (v2 % 4) * 64 + v3;
        proof {
            assert(dst@.subrange(c as int, c as int + 3) =~= seq![
                dbyte0(group_val(table@, tail, 0), group_val(table@, tail, 1)),
                dbyte1(group_val(table@, tail, 1), group_val(table@, tail, 2)),
                dbyte2(group_val(table@, tail, 2), group_val(table@, tail, 3)),
            ]);
            lemma_step(table@, src@, dst@, pre, old(dst)@, g as int, c as int);
        }
        g += 1;
        c += 3;
    }
    proof {
        assert(src@.skip(4 * (ngroups as int)) =~= Seq::<u8>::empty());
        lemma_finish(table@, src@, dst@, old(dst)@, ngroups as int, c as int);
    }
    *len = c;
    true
}

} // verus!
