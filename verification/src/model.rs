//! Mathematical model of the codec: what encoding and decoding produce,
//! byte for byte, as functions over sequences.

use vstd::prelude::*;
use crate::PAD;

verus! {

/// Whether `c` occurs anywhere in the table.
pub open spec fn table_has(table: Seq<u8>, c: u8) -> bool {
    exists|k: int| 0 <= k < table.len() && table[k] == c
}

/// Index of the first occurrence of `c` in `table`, or `-1` when `c` does
/// not occur at all: the reverse lookup decoding performs, where the first
/// match wins.
pub open spec fn table_index_of(table: Seq<u8>, c: u8) -> int
    decreases table.len(),
{
    if table.len() == 0 {
        -1
    } else if table[0] == c {
        0
    } else {
        let r = table_index_of(table.skip(1), c);
        if r == -1 {
            -1
        } else {
            r + 1
        }
    }
}

/// `table_index_of` finds the first occurrence when there is one and `-1`
/// otherwise.
pub proof fn lemma_table_index_of(table: Seq<u8>, c: u8)
    ensures
        table_index_of(table, c) == -1 ==> !table_has(table, c),
        table_index_of(table, c) != -1 ==> {
            let r = table_index_of(table, c);
            &&& 0 <= r < table.len()
            &&& table[r] == c
            &&& forall|k: int| 0 <= k < r ==> table[k] != c
        },
    decreases table.len(),
{
    if table.len() > 0 && table[0] != c {
        lemma_table_index_of(table.skip(1), c);
        let r = table_index_of(table.skip(1), c);
        if r == -1 {
            assert forall|k: int| 0 <= k < table.len() implies table[k] != c by {
                if k > 0 {
                    assert(table.skip(1)[k - 1] == table[k]);
                }
            }
        } else {
            assert(table.skip(1)[r] == table[r + 1]);
            assert forall|k: int| 0 <= k < r + 1 implies table[k] != c by {
                if k > 0 {
                    assert(table.skip(1)[k - 1] == table[k]);
                }
            }
        }
    }
}

/// In a table with pairwise distinct entries, looking a symbol back up
/// returns the index it was taken from.
pub proof fn lemma_index_of_distinct(table: Seq<u8>, i: int)
    requires
        forall|p: int, q: int| 0 <= p < q < table.len() ==> table[p] != table[q],
        0 <= i < table.len(),
    ensures
        table_index_of(table, table[i]) == i,
{
    lemma_table_index_of(table, table[i]);
    let r = table_index_of(table, table[i]);
    assert(table_has(table, table[i]));
}

/// The four six-bit values that encode one full three-byte group.
pub open spec fn sextet0(b0: u8) -> u8 {
    b0 / 4
}

pub open spec fn sextet1(b0: u8, b1: u8) -> u8 {
    ((b0 % 4) * 16 + b1 / 16) as u8
}

pub open spec fn sextet2(b1: u8, b2: u8) -> u8 {
    ((b1 % 16) * 4 + b2 / 64) as u8
}

pub open spec fn sextet3(b2: u8) -> u8 {
    b2 % 64
}

/// Four output symbols for a full group of three input bytes.
pub open spec fn encode_group(table: Seq<u8>, b0: u8, b1: u8, b2: u8) -> Seq<u8> {
    seq![
        table[sextet0(b0) as int],
        table[sextet1(b0, b1) as int],
        table[sextet2(b1, b2) as int],
        table[sextet3(b2) as int],
    ]
}

/// Final group for an input whose length leaves a remainder of one byte:
/// two symbols and two padding characters.
pub open spec fn encode_tail1(table: Seq<u8>, b0: u8) -> Seq<u8> {
    seq![
        table[sextet0(b0) as int],
        table[((b0 % 4) * 16) as int],
        PAD,
        PAD,
    ]
}

/// Final group for an input whose length leaves a remainder of two bytes:
/// three symbols and one padding character.
pub open spec fn encode_tail2(table: Seq<u8>, b0: u8, b1: u8) -> Seq<u8> {
    seq![
        table[sextet0(b0) as int],
        table[sextet1(b0, b1) as int],
        table[((b1 % 16) * 4) as int],
        PAD,
    ]
}

/// The base64 text for input `s` under `table`: full three-byte groups from
/// the front, then a padded final group when one to two bytes remain.
pub open spec fn encode_seq(table: Seq<u8>, s: Seq<u8>) -> Seq<u8>
    decreases s.len(),
{
    if s.len() == 0 {
        seq![]
    } else if s.len() == 1 {
        encode_tail1(table, s[0])
    } else if s.len() == 2 {
        encode_tail2(table, s[0], s[1])
    } else {
        encode_group(table, s[0], s[1], s[2]) + encode_seq(table, s.skip(3))
    }
}

/// Encoding always produces `encode_len_exact` bytes.
pub proof fn lemma_encode_seq_len(table: Seq<u8>, s: Seq<u8>)
    ensures
        encode_seq(table, s).len() == crate::encode_len_exact(s.len()),
    decreases s.len(),
{
    if s.len() >= 3 {
        lemma_encode_seq_len(table, s.skip(3));
    }
}

/// Output bytes reassembled from the six-bit values of one group.
pub open spec fn dbyte0(v0: u8, v1: u8) -> u8 {
    (v0 * 4 + v1 / 16) as u8
}

pub open spec fn dbyte1(v1: u8, v2: u8) -> u8 {
    ((v1 % 16) * 16 + v2 / 4) as u8
}

pub open spec fn dbyte2(v2: u8, v3: u8) -> u8 {
    ((v2 % 4) * 64 + v3) as u8
}

/// Position of the first padding character among the four leading symbols,
/// or `4` when none of them is padding. Decoding scans a group in this
/// order and stops at the first padding character it meets.
pub open spec fn group_stop(s: Seq<u8>) -> int
    recommends
        s.len() >= 4,
{
    if s[0] == PAD {
        0
    } else if s[1] == PAD {
        1
    } else if s[2] == PAD {
        2
    } else if s[3] == PAD {
        3
    } else {
        4
    }
}

/// Every symbol the scan of the leading group reads before it stops is in
/// the table; a miss anywhere earlier makes the whole decode fail.
pub open spec fn group_ok(table: Seq<u8>, s: Seq<u8>) -> bool
    recommends
        s.len() >= 4,
{
    forall|j: int| 0 <= j < group_stop(s) ==> table_has(table, s[j])
}

/// Reverse-looked-up value of the symbol at position `j` of the leading group.
pub open spec fn group_val(table: Seq<u8>, s: Seq<u8>, j: int) -> u8 {
    table_index_of(table, s[j]) as u8
}

/// Bytes produced by a final group whose scan stopped at position `stop`:
/// two bytes for three symbols, one byte for two, none for fewer.
pub open spec fn partial_bytes(table: Seq<u8>, s: Seq<u8>, stop: int) -> Seq<u8> {
    if stop == 3 {
        seq![
            dbyte0(group_val(table, s, 0), group_val(table, s, 1)),
            dbyte1(group_val(table, s, 1), group_val(table, s, 2)),
        ]
    } else if stop == 2 {
        seq![dbyte0(group_val(table, s, 0), group_val(table, s, 1))]
    } else {
        seq![]
    }
}

/// What decoding `s` under `table` yields: `None` when a symbol scanned
/// before the first padding character is not in the table, otherwise the
/// decoded bytes. A padding character ends the decode where it stands, even
/// with further groups behind it. Defined for inputs whose length is a
/// multiple of four; the decoder rejects every other shape up front.
pub open spec fn decode_seq(table: Seq<u8>, s: Seq<u8>) -> Option<Seq<u8>>
    recommends
        s.len() % 4 == 0,
    decreases s.len(),
{
    if s.len() < 4 {
        Some(seq![])
    } else if !group_ok(table, s) {
        None
    } else {
        let stop = group_stop(s);
        if stop < 4 {
            Some(partial_bytes(table, s, stop))
        } else {
            match decode_seq(table, s.skip(4)) {
                Some(rest) => Some(
                    seq![
                        dbyte0(group_val(table, s, 0), group_val(table, s, 1)),
                        dbyte1(group_val(table, s, 1), group_val(table, s, 2)),
                        dbyte2(group_val(table, s, 2), group_val(table, s, 3)),
                    ] + rest,
                ),
                None => None,
            }
        }
    }
}

/// Number of bytes `decode_len` reports for `s`: zero for an empty input or
/// one whose length is not a multiple of four, otherwise three bytes per
/// group minus one per trailing padding character.
pub open spec fn decode_len_spec(s: Seq<u8>) -> nat {
    let n = s.len();
    if n == 0 || n % 4 != 0 {
        0
    } else {
        let base = (n / 4) * 3;
        if s[n - 1] != PAD {
            base
        } else if s[n - 2] != PAD {
            (base - 1) as nat
        } else if s[n - 3] != PAD {
            (base - 2) as nat
        } else {
            (base - 3) as nat
        }
    }
}

} // verus!
