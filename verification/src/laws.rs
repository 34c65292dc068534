//! Laws the codec obeys, proved once and for all over the model that the
//! executable functions are specified against.

use vstd::prelude::*;

use crate::model::{
    dbyte0, dbyte1, dbyte2, decode_len_spec, decode_seq, encode_seq, group_ok, group_stop,
    lemma_encode_seq_len, lemma_index_of_distinct, partial_bytes, sextet0, sextet1, sextet2,
    sextet3, table_has,
};
use crate::PAD;

verus! {

/// No two entries of the table collide, so the reverse lookup is the exact
/// inverse of the forward lookup.
pub open spec fn table_distinct(table: Seq<u8>) -> bool {
    forall|p: int, q: int| 0 <= p < q < table.len() ==> table[p] != table[q]
}

/// The padding character stays outside the table, so no content symbol can
/// be mistaken for padding.
pub open spec fn table_no_padding(table: Seq<u8>) -> bool {
    forall|k: int| 0 <= k < table.len() ==> table[k] != PAD
}

/// Reassembling bytes from the six-bit values the encoder extracted gives
/// the original bytes back, for every variant of the final group.
proof fn lemma_sextet_inverse(b0: u8, b1: u8, b2: u8)
    ensures
        dbyte0(sextet0(b0), sextet1(b0, b1)) == b0,
        dbyte1(sextet1(b0, b1), sextet2(b1, b2)) == b1,
        dbyte2(sextet2(b1, b2), sextet3(b2)) == b2,
        dbyte0(sextet0(b0), ((b0 % 4) * 16) as u8) == b0,
        dbyte1(sextet1(b0, b1), ((b1 % 16) * 4) as u8) == b1,
{
    assert(((b0 % 4) * 16 + b1 / 16) / 16 == b0 % 4) by (nonlinear_arith)
        requires b0 < 256, b1 < 256;
    assert((b0 / 4) * 4 + b0 % 4 == b0) by (nonlinear_arith)
        requires b0 < 256;
    assert(((b0 % 4) * 16 + b1 / 16) % 16 == b1 / 16) by (nonlinear_arith)
        requires b0 < 256, b1 < 256;
    assert(((b1 % 16) * 4 + b2 / 64) / 4 == b1 % 16) by (nonlinear_arith)
        requires b1 < 256, b2 < 256;
    assert((b1 / 16) * 16 + b1 % 16 == b1) by (nonlinear_arith)
        requires b1 < 256;
    assert(((b1 % 16) * 4 + b2 / 64) % 4 == b2 / 64) by (nonlinear_arith)
        requires b1 < 256, b2 < 256;
    assert((b2 / 64) * 64 + b2 % 64 == b2) by (nonlinear_arith)
        requires b2 < 256;
    assert(((b0 % 4) * 16) / 16 == b0 % 4) by (nonlinear_arith)
        requires b0 < 256;
    assert(((b1 % 16) * 4) / 4 == b1 % 16) by (nonlinear_arith)
        requires b1 < 256;
}

/// Round trip: decoding what the encoder produced recovers the input, for
/// every byte sequence and every table with sixty-four distinct entries
/// none of which is the padding character.
pub proof fn lemma_decode_of_encode(table: Seq<u8>, s: Seq<u8>)
    requires
        table.len() == 64,
        table_distinct(table),
        table_no_padding(table),
    ensures
        decode_seq(table, encode_seq(table, s)) == Some(s),
    decreases s.len(),
{
    let e = encode_seq(table, s);
    if s.len() == 0 {
        assert(s =~= Seq::<u8>::empty());
    } else if s.len() == 1 {
        let b0 = s[0];
        lemma_sextet_inverse(b0, 0, 0);
        lemma_index_of_distinct(table, sextet0(b0) as int);
        lemma_index_of_distinct(table, ((b0 % 4) * 16) as int);
        assert(group_stop(e) == 2);
        assert(group_ok(table, e));
        assert(partial_bytes(table, e, 2) =~= s);
    } else if s.len() == 2 {
        let b0 = s[0];
        let b1 = s[1];
        lemma_sextet_inverse(b0, b1, 0);
        lemma_index_of_distinct(table, sextet0(b0) as int);
        lemma_index_of_distinct(table, sextet1(b0, b1) as int);
        lemma_index_of_distinct(table, ((b1 % 16) * 4) as int);
        assert(group_stop(e) == 3);
        assert(group_ok(table, e));
        assert(partial_bytes(table, e, 3) =~= s);
    } else {
        let b0 = s[0];
        let b1 = s[1];
        let b2 = s[2];
        lemma_sextet_inverse(b0, b1, b2);
        lemma_index_of_distinct(table, sextet0(b0) as int);
        lemma_index_of_distinct(table, sextet1(b0, b1) as int);
        lemma_index_of_distinct(table, sextet2(b1, b2) as int);
        lemma_index_of_distinct(table, sextet3(b2) as int);
        lemma_encode_seq_len(table, s.skip(3));
        assert(group_stop(e) == 4);
        assert(group_ok(table, e));
        assert(e.skip(4) =~= encode_seq(table, s.skip(3)));
        lemma_decode_of_encode(table, s.skip(3));
        assert(seq![b0, b1, b2] + s.skip(3) =~= s);
    }
}

/// Idempotent sizing: the length calculator applied to any encode output
/// reports exactly the number of bytes that were encoded, for every table
/// that keeps the padding character out of its entries.
pub proof fn lemma_decode_len_of_encode(table: Seq<u8>, s: Seq<u8>)
    requires
        table.len() == 64,
        table_no_padding(table),
    ensures
        decode_len_spec(encode_seq(table, s)) == s.len(),
    decreases s.len(),
{
    let e = encode_seq(table, s);
    lemma_encode_seq_len(table, s);
    if s.len() == 0 {
    } else if s.len() <= 3 {
        assert(e.len() == 4);
    } else {
        let s2 = s.skip(3);
        let e2 = encode_seq(table, s2);
        lemma_encode_seq_len(table, s2);
        lemma_decode_len_of_encode(table, s2);
        assert(e2.len() % 4 == 0) by {
            assert(e2.len() == 4 * ((s2.len() + 2) / 3));
        }
        assert(e.len() == e2.len() + 4);
        assert(e[e.len() - 1] == e2[e2.len() - 1]);
        assert(e[e.len() - 2] == e2[e2.len() - 2]);
        assert(e[e.len() - 3] == e2[e2.len() - 3]);
        assert(e.len() as int / 4 == e2.len() as int / 4 + 1);
    }
}

/// A symbol that is neither padding nor in the table makes the decode fail,
/// whenever the scan actually reaches it: every earlier symbol is in the
/// table and no earlier padding character has already ended the decode.
pub proof fn lemma_decode_rejects_bad_symbol(table: Seq<u8>, s: Seq<u8>, i: int)
    requires
        s.len() % 4 == 0,
        0 <= i < s.len(),
        s[i] != PAD,
        !table_has(table, s[i]),
        forall|k: int| 0 <= k < i ==> s[k] != PAD && table_has(table, s[k]),
    ensures
        decode_seq(table, s) is None,
    decreases s.len(),
{
    if i < 4 {
        assert(group_stop(s) > i);
        assert(!group_ok(table, s));
    } else {
        assert(group_stop(s) == 4);
        assert(group_ok(table, s));
        let s2 = s.skip(4);
        assert(forall|k: int| 0 <= k < s2.len() ==> s2[k] == s[4 + k]);
        lemma_decode_rejects_bad_symbol(table, s2, i - 4);
    }
}

/// An input whose length is not a multiple of four, and is not zero, is
/// reported as malformed by the length calculator, which is exactly the
/// condition under which the decoder rejects a non-empty input up front.
pub proof fn lemma_decode_len_rejects_bad_shape(s: Seq<u8>)
    requires
        s.len() % 4 != 0,
    ensures
        decode_len_spec(s) == 0,
{
}

/// The two tables the library ships satisfy everything the laws above ask
/// of a table: sixty-four pairwise distinct ASCII entries, none of them the
/// padding character.
#[verifier::rlimit(100)]
pub proof fn lemma_shipped_tables_wf()
    ensures
        table_distinct(crate::STANDARD_TABLE@),
        table_no_padding(crate::STANDARD_TABLE@),
        forall|i: int| 0 <= i < 64 ==> crate::STANDARD_TABLE@[i] < 128,
        table_distinct(crate::URL_TABLE@),
        table_no_padding(crate::URL_TABLE@),
        forall|i: int| 0 <= i < 64 ==> crate::URL_TABLE@[i] < 128,
{
}

/// Round trip through the default table, with no assumption left to the
/// caller.
pub proof fn lemma_standard_round_trip(s: Seq<u8>)
    ensures
        decode_seq(crate::STANDARD_TABLE@, encode_seq(crate::STANDARD_TABLE@, s)) == Some(s),
        decode_len_spec(encode_seq(crate::STANDARD_TABLE@, s)) == s.len(),
{
    lemma_shipped_tables_wf();
    lemma_decode_of_encode(crate::STANDARD_TABLE@, s);
    lemma_decode_len_of_encode(crate::STANDARD_TABLE@, s);
}

} // verus!
