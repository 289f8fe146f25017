//! The storage engine: a self-contained binary encoding of a whole
//! key-to-value mapping, with a verified encoder and decoder that are
//! proved to round-trip, and the path-holding engine around them.
//!
//! The byte layer writes every number little-endian: lengths and integer
//! payloads in eight bytes, character codes in four.

use crate::DbError;
use crate::value::arr_view;
use crate::value::group_value_sizes;
use crate::value::group_value_views;
use crate::value::obj_view;
use crate::value::vsize;
use crate::value::Val;
use crate::value::Value;
use vstd::string::StrSliceExecFns;
use vstd::arithmetic::div_mod::lemma_fundamental_div_mod;
use vstd::prelude::*;

verus! {

broadcast use vstd::std_specs::vec::group_vec_axioms;

/// The k-th power of 256: the number of values k bytes can carry.
pub open spec fn pow256(k: nat) -> nat
    decreases k,
{
    if k == 0 {
        1
    } else {
        256 * pow256((k - 1) as nat)
    }
}

/// A number as `k` little-endian bytes, low byte first.
pub open spec fn enc_le(n: nat, k: nat) -> Seq<u8>
    decreases k,
{
    if k == 0 {
        Seq::empty()
    } else {
        seq![(n % 256) as u8] + enc_le(n / 256, (k - 1) as nat)
    }
}

/// The number a little-endian byte sequence denotes.
pub open spec fn dec_le(s: Seq<u8>) -> nat
    decreases s,
{
    if s.len() == 0 {
        0
    } else {
        (s[0] + 256 * dec_le(s.drop_first())) as nat
    }
}

pub proof fn lemma_pow256_le(a: nat, b: nat)
    requires
        a <= b,
    ensures
        pow256(a) <= pow256(b),
    decreases b,
{
    if a < b && b > 0 {
        lemma_pow256_le(a, (b - 1) as nat);
        assert(pow256(b) == 256 * pow256((b - 1) as nat));
    }
}

/// Writing a number small enough for its byte count and reading it back
/// is the identity.
pub proof fn lemma_le_roundtrip(n: nat, k: nat)
    requires
        n < pow256(k),
    ensures
        enc_le(n, k).len() == k,
        dec_le(enc_le(n, k)) == n,
    decreases k,
{
    if k > 0 {
        assert(n / 256 < pow256((k - 1) as nat)) by (nonlinear_arith)
            requires
                n < 256 * pow256((k - 1) as nat),
        ;
        lemma_le_roundtrip(n / 256, (k - 1) as nat);
        lemma_fundamental_div_mod(n as int, 256);
        assert(enc_le(n, k).drop_first() =~= enc_le(n / 256, (k - 1) as nat));
    }
}

/// Every k-byte sequence denotes a number below the k-th power of 256.
pub proof fn lemma_dec_le_bound(s: Seq<u8>)
    ensures
        dec_le(s) < pow256(s.len()),
    decreases s,
{
    if s.len() > 0 {
        lemma_dec_le_bound(s.drop_first());
        assert(dec_le(s) < 256 * pow256((s.len() - 1) as nat)) by (nonlinear_arith)
            requires
                dec_le(s) == s[0] + 256 * dec_le(s.drop_first()),
                s[0] < 256,
                dec_le(s.drop_first()) < pow256((s.len() - 1) as nat),
        ;
    }
}

/// The length of a little-endian encoding is its byte count.
pub broadcast proof fn lemma_enc_le_len(n: nat, k: nat)
    ensures
        (#[trigger] enc_le(n, k)).len() == k,
    decreases k,
{
    if k > 0 {
        lemma_enc_le_len(n / 256, (k - 1) as nat);
    }
}

/// Append `k` little-endian bytes of `n` to `out`.
#[verifier::loop_isolation(false)]
fn push_le(out: &mut Vec<u8>, n: u64, k: u8)
    ensures
        final(out)@ == old(out)@ + enc_le(n as nat, k as nat),
{
    broadcast use lemma_enc_le_len;

    let ghost start = out@;
    let mut v: u64 = n;
    let mut done: u8 = 0;
    while done < k
        invariant
            done <= k,
            enc_le(n as nat, k as nat) == out@.skip(start.len() as int) + enc_le(
                v as nat,
                (k - done) as nat,
            ),
            out@.len() == start.len() + done,
            out@.skip(0) =~= out@,
            start == out@.subrange(0, start.len() as int),
        decreases k - done,
    {
        let b: u8 = (v % 256) as u8;
        let ghost pre = out@;
        out.push(b);
        proof {
            assert(enc_le(v as nat, (k - done) as nat) == seq![b] + enc_le(
                v as nat / 256,
                (k - done - 1) as nat,
            ));
            assert(out@.skip(start.len() as int) =~= pre.skip(start.len() as int) + seq![b]);
        }
        v = v / 256;
        done = done + 1;
        proof {
            assert(out@.skip(start.len() as int) + enc_le(v as nat, (k - done) as nat) =~= enc_le(
                n as nat,
                (k as nat),
            ));
        }
    }
    proof {
        assert(out@ =~= start + enc_le(n as nat, k as nat));
    }
}

/// Read `k` little-endian bytes at `pos` as an unsigned number.
#[verifier::loop_isolation(false)]
fn read_le(bytes: &Vec<u8>, pos: usize, k: usize) -> (r: u64)
    requires
        k <= 8,
        pos + k <= bytes@.len(),
    ensures
        r as nat == dec_le(bytes@.subrange(pos as int, pos as int + k as int)),
{
    let ghost sub = bytes@.subrange(pos as int, pos as int + k as int);
    let blen = bytes.len();
    let mut acc: u64 = 0;
    let mut i: usize = k;
    proof {
        assert(sub.skip(k as int) =~= Seq::empty());
    }
    while i > 0
        invariant
            i <= k,
            acc as nat == dec_le(sub.skip(i as int)),
        decreases i,
    {
        proof {
            lemma_dec_le_bound(sub.skip(i as int));
            lemma_pow256_le(sub.skip(i as int).len(), 7);
            assert(pow256(7) == 72057594037927936) by {
                reveal_with_fuel(pow256, 8);
            }
            assert(sub.skip(i as int - 1)[0] == sub[i as int - 1]);
            assert(sub.skip(i as int - 1).drop_first() =~= sub.skip(i as int));
        }
        i = i - 1;
        proof {
            assert(pos + i < bytes@.len());
        }
        acc = acc * 256 + bytes[pos + i] as u64;
    }
    proof {
        assert(sub.skip(0) =~= sub);
    }
    acc
}

/// Unicode scalar values: what a four-byte character code may denote.
pub open spec fn valid_scalar(u: nat) -> bool {
    u < 0xD800 || (0xE000 <= u && u < 0x110000)
}

/// A character whose code is a Unicode scalar value denoting it back:
/// true of every character value the executable code can hold.
pub open spec fn valid_char(c: char) -> bool {
    valid_scalar(c as nat) && ((c as nat) as char) == c
}

/// The signed 64-bit integer `i` shifted into the unsigned range, so a
/// single eight-byte field carries it.
pub open spec fn biased(i: int) -> nat {
    if -0x8000000000000000 <= i < 0x8000000000000000 {
        (i + 0x8000000000000000) as nat
    } else {
        0
    }
}

/// The integer an eight-byte biased field denotes.
pub open spec fn unbias(u: nat) -> int {
    u - 0x8000000000000000
}

/// The encoding of a text payload: its length, then each character as a
/// four-byte code.
pub open spec fn enc_str(s: Seq<char>) -> Seq<u8> {
    enc_le(s.len(), 8) + enc_chars(s)
}

pub open spec fn enc_chars(s: Seq<char>) -> Seq<u8>
    decreases s,
{
    if s.len() == 0 {
        Seq::empty()
    } else {
        enc_le(s[0] as nat, 4) + enc_chars(s.drop_first())
    }
}

/// The encoding of one value: a tag byte, then the payload.
pub open spec fn enc_val(v: Val) -> Seq<u8>
    decreases v,
{
    match v {
        Val::VString(s) => seq![0u8] + enc_str(s),
        Val::VInteger(i) => seq![1u8] + enc_le(biased(i), 8),
        Val::VFloat(bits) => seq![2u8] + enc_le(bits as nat, 8),
        Val::VBoolean(b) => seq![
            3u8,
            if b {
                1u8
            } else {
                0u8
            },
        ],
        Val::VArray(elems) => seq![4u8] + enc_le(elems.len(), 8) + enc_vals(elems),
        Val::VObject(pairs) => seq![5u8] + enc_le(pairs.len(), 8) + enc_pairs(pairs),
        Val::VNull => seq![6u8],
    }
}

pub open spec fn enc_vals(elems: Seq<Val>) -> Seq<u8>
    decreases elems,
{
    if elems.len() == 0 {
        Seq::empty()
    } else {
        enc_val(elems[0]) + enc_vals(elems.drop_first())
    }
}

pub open spec fn enc_pairs(pairs: Seq<(Seq<char>, Val)>) -> Seq<u8>
    decreases pairs,
{
    if pairs.len() == 0 {
        Seq::empty()
    } else {
        enc_str(pairs[0].0) + enc_val(pairs[0].1) + enc_pairs(pairs.drop_first())
    }
}

/// The encoding of a whole mapping: the entry count, then each key and
/// value in turn.
pub open spec fn enc_store(pairs: Seq<(Seq<char>, Val)>) -> Seq<u8> {
    enc_le(pairs.len(), 8) + enc_pairs(pairs)
}

/// A text payload short enough for its eight-byte length field, made of
/// Unicode scalar values.
pub open spec fn str_bounded(s: Seq<char>) -> bool {
    s.len() < pow256(8) && (forall|i: int| 0 <= i < s.len() ==> valid_char(#[trigger] s[i]))
}

/// A model the encoding carries exactly: integers fit 64 signed bits, and
/// every text and collection is short enough for an eight-byte length.
pub open spec fn val_bounded(v: Val) -> bool
    decreases v,
{
    match v {
        Val::VString(s) => str_bounded(s),
        Val::VInteger(i) => -0x8000000000000000 <= i < 0x8000000000000000,
        Val::VFloat(_) => true,
        Val::VBoolean(_) => true,
        Val::VArray(elems) => elems.len() < pow256(8) && (forall|i: int|
            0 <= i < elems.len() ==> val_bounded(#[trigger] elems[i])),
        Val::VObject(pairs) => pairs.len() < pow256(8) && (forall|i: int|
            0 <= i < pairs.len() ==> str_bounded((#[trigger] pairs[i]).0) && val_bounded(
                pairs[i].1,
            )),
        Val::VNull => true,
    }
}

/// A whole mapping the encoding carries exactly.
pub open spec fn store_bounded(pairs: Seq<(Seq<char>, Val)>) -> bool {
    pairs.len() < pow256(8) && (forall|i: int|
        0 <= i < pairs.len() ==> str_bounded((#[trigger] pairs[i]).0) && val_bounded(pairs[i].1))
}

/// Read an eight-byte number at `i`; the position after it is `i + 8`.
pub open spec fn dec_u64(b: Seq<u8>, i: int) -> Option<(nat, int)> {
    if 0 <= i && i + 8 <= b.len() {
        Some((dec_le(b.subrange(i, i + 8)), i + 8))
    } else {
        None
    }
}

/// Read `cnt` four-byte character codes starting at `i`.
pub open spec fn dec_chars(b: Seq<u8>, i: int, cnt: nat) -> Option<(Seq<char>, int)>
    decreases cnt,
{
    if cnt == 0 {
        Some((Seq::empty(), i))
    } else if 0 <= i && i + 4 <= b.len() {
        let u = dec_le(b.subrange(i, i + 4));
        if valid_scalar(u) {
            match dec_chars(b, i + 4, (cnt - 1) as nat) {
                Some((s, j)) => Some((seq![u as char] + s, j)),
                None => None,
            }
        } else {
            None
        }
    } else {
        None
    }
}

/// Read a length-prefixed text payload starting at `i`.
pub open spec fn dec_str(b: Seq<u8>, i: int) -> Option<(Seq<char>, int)> {
    match dec_u64(b, i) {
        Some((n, j)) => dec_chars(b, j, n),
        None => None,
    }
}

/// Read one tagged value starting at `i`.
pub open spec fn dec_val(b: Seq<u8>, i: int) -> Option<(Val, int)>
    decreases b.len() - i, 0nat, 0nat,
{
    if 0 <= i && i < b.len() {
        let tag = b[i];
        if tag == 0 {
            match dec_str(b, i + 1) {
                Some((s, j)) => Some((Val::VString(s), j)),
                None => None,
            }
        } else if tag == 1 {
            match dec_u64(b, i + 1) {
                Some((u, j)) => Some((Val::VInteger(unbias(u)), j)),
                None => None,
            }
        } else if tag == 2 {
            match dec_u64(b, i + 1) {
                Some((u, j)) => Some((Val::VFloat(u as u64), j)),
                None => None,
            }
        } else if tag == 3 {
            if i + 2 <= b.len() {
                if b[i + 1] == 1 {
                    Some((Val::VBoolean(true), i + 2))
                } else if b[i + 1] == 0 {
                    Some((Val::VBoolean(false), i + 2))
                } else {
                    None
                }
            } else {
                None
            }
        } else if tag == 4 {
            match dec_u64(b, i + 1) {
                Some((n, j)) => match dec_vals(b, j, n) {
                    Some((elems, k)) => Some((Val::VArray(elems), k)),
                    None => None,
                },
                None => None,
            }
        } else if tag == 5 {
            match dec_u64(b, i + 1) {
                Some((n, j)) => match dec_pairs(b, j, n) {
                    Some((pairs, k)) => Some((Val::VObject(pairs), k)),
                    None => None,
                },
                None => None,
            }
        } else if tag == 6 {
            Some((Val::VNull, i + 1))
        } else {
            None
        }
    } else {
        None
    }
}

/// Read `cnt` values in a row starting at `i`.
pub open spec fn dec_vals(b: Seq<u8>, i: int, cnt: nat) -> Option<(Seq<Val>, int)>
    decreases b.len() - i, 1nat, cnt,
{
    if !(0 <= i <= b.len()) {
        None
    } else if cnt == 0 {
        Some((Seq::empty(), i))
    } else {
        match dec_val(b, i) {
            Some((v, j)) => if i < j <= b.len() {
                match dec_vals(b, j, (cnt - 1) as nat) {
                    Some((rest, k)) => Some((seq![v] + rest, k)),
                    None => None,
                }
            } else {
                None
            },
            None => None,
        }
    }
}

/// Read `cnt` key-value pairs in a row starting at `i`.
pub open spec fn dec_pairs(b: Seq<u8>, i: int, cnt: nat) -> Option<
    (Seq<(Seq<char>, Val)>, int),
>
    decreases b.len() - i, 1nat, cnt,
{
    if !(0 <= i <= b.len()) {
        None
    } else if cnt == 0 {
        Some((Seq::empty(), i))
    } else {
        match dec_str(b, i) {
            Some((s, j)) => if i < j <= b.len() {
                match dec_val(b, j) {
                    Some((v, k)) => if j < k <= b.len() {
                        match dec_pairs(b, k, (cnt - 1) as nat) {
                            Some((rest, m)) => Some((seq![(s, v)] + rest, m)),
                            None => None,
                        }
                    } else {
                        None
                    },
                    None => None,
                }
            } else {
                None
            },
            None => None,
        }
    }
}

/// Decode a whole snapshot: the entry count, then exactly that many pairs
/// filling the buffer to its end.
pub open spec fn dec_store(b: Seq<u8>) -> Option<Seq<(Seq<char>, Val)>> {
    match dec_u64(b, 0) {
        Some((n, j)) => match dec_pairs(b, j, n) {
            Some((pairs, k)) => if k == b.len() {
                Some(pairs)
            } else {
                None
            },
            None => None,
        },
        None => None,
    }
}

/// A character encoding takes four bytes per character.
pub broadcast proof fn lemma_enc_chars_len(s: Seq<char>)
    ensures
        (#[trigger] enc_chars(s)).len() == 4 * s.len(),
    decreases s,
{
    broadcast use lemma_enc_le_len;

    if s.len() > 0 {
        lemma_enc_chars_len(s.drop_first());
    }
}

/// Every value encoding starts with its tag byte.
pub broadcast proof fn lemma_enc_val_len_pos(v: Val)
    ensures
        (#[trigger] enc_val(v)).len() >= 1,
{
}

/// Character codes written by the encoder read back as the same text.
pub proof fn lemma_dec_enc_chars(s: Seq<char>, b: Seq<u8>, i: int)
    requires
        forall|k: int| 0 <= k < s.len() ==> valid_char(#[trigger] s[k]),
        0 <= i,
        i + 4 * s.len() <= b.len(),
        b.subrange(i, i + 4 * s.len()) == enc_chars(s),
    ensures
        dec_chars(b, i, s.len()) == Some((s, i + 4 * s.len())),
    decreases s,
{
    broadcast use lemma_enc_le_len, lemma_enc_chars_len,
        vstd::seq::lemma_seq_subrange_index_alt;

    if s.len() == 0 {
        assert(s =~= Seq::<char>::empty());
    } else {
        let c = s[0];
        assert(b.subrange(i, i + 4) =~= enc_le(c as nat, 4));
        assert(pow256(4) == 0x100000000) by {
            reveal_with_fuel(pow256, 5);
        }
        lemma_le_roundtrip(c as nat, 4);
        let u = dec_le(b.subrange(i, i + 4));
        assert(u == c as nat);
        assert(valid_scalar(u));
        assert((u as char) == c);
        assert(b.subrange(i + 4, i + 4 + 4 * s.drop_first().len()) =~= enc_chars(s.drop_first()));
        lemma_dec_enc_chars(s.drop_first(), b, i + 4);
        assert(seq![c] + s.drop_first() =~= s);
    }
}

/// A length-prefixed text written by the encoder reads back as itself.
pub proof fn lemma_dec_enc_str(s: Seq<char>, b: Seq<u8>, i: int)
    requires
        str_bounded(s),
        0 <= i,
        i + enc_str(s).len() <= b.len(),
        b.subrange(i, i + enc_str(s).len()) == enc_str(s),
    ensures
        dec_str(b, i) == Some((s, i + enc_str(s).len())),
{
    broadcast use lemma_enc_le_len, lemma_enc_chars_len,
        vstd::seq::lemma_seq_subrange_index_alt;

    assert(b.subrange(i, i + 8) =~= enc_le(s.len(), 8));
    lemma_le_roundtrip(s.len(), 8);
    assert(b.subrange(i + 8, i + 8 + 4 * s.len()) =~= enc_chars(s));
    lemma_dec_enc_chars(s, b, i + 8);
}

/// One value written by the encoder reads back as itself.
pub proof fn lemma_dec_enc_val(v: Val, b: Seq<u8>, i: int)
    requires
        val_bounded(v),
        0 <= i,
        i + enc_val(v).len() <= b.len(),
        b.subrange(i, i + enc_val(v).len()) == enc_val(v),
    ensures
        dec_val(b, i) == Some((v, i + enc_val(v).len())),
    decreases v,
{
    broadcast use lemma_enc_le_len, lemma_enc_chars_len,
        vstd::seq::lemma_seq_subrange_index_alt;

    let ghost ll = enc_val(v).len();
    assert(b[i] == enc_val(v)[0]);
    assert(pow256(8) == 0x10000000000000000) by {
        reveal_with_fuel(pow256, 9);
    }
    match v {
        Val::VString(s) => {
            assert(b.subrange(i + 1, i + 1 + enc_str(s).len()) =~= enc_str(s));
            lemma_dec_enc_str(s, b, i + 1);
        },
        Val::VInteger(n) => {
            assert(b.subrange(i + 1, i + 9) =~= enc_le(biased(n), 8));
            lemma_le_roundtrip(biased(n), 8);
            assert(unbias(biased(n)) == n);
        },
        Val::VFloat(bits) => {
            assert(b.subrange(i + 1, i + 9) =~= enc_le(bits as nat, 8));
            lemma_le_roundtrip(bits as nat, 8);
        },
        Val::VBoolean(x) => {
            assert(b[i + 1] == enc_val(v)[1]);
        },
        Val::VArray(elems) => {
            assert(b.subrange(i + 1, i + 9) =~= enc_le(elems.len(), 8));
            lemma_le_roundtrip(elems.len(), 8);
            assert(b.subrange(i + 9, i + 9 + enc_vals(elems).len()) =~= enc_vals(elems));
            lemma_dec_enc_vals(elems, b, i + 9);
        },
        Val::VObject(pairs) => {
            assert(b.subrange(i + 1, i + 9) =~= enc_le(pairs.len(), 8));
            lemma_le_roundtrip(pairs.len(), 8);
            assert(b.subrange(i + 9, i + 9 + enc_pairs(pairs).len()) =~= enc_pairs(pairs));
            lemma_dec_enc_pairs(pairs, b, i + 9);
        },
        Val::VNull => {
        },
    }
}

/// A row of values written by the encoder reads back as itself.
pub proof fn lemma_dec_enc_vals(elems: Seq<Val>, b: Seq<u8>, i: int)
    requires
        forall|k: int| 0 <= k < elems.len() ==> val_bounded(#[trigger] elems[k]),
        0 <= i,
        i + enc_vals(elems).len() <= b.len(),
        b.subrange(i, i + enc_vals(elems).len()) == enc_vals(elems),
    ensures
        dec_vals(b, i, elems.len()) == Some((elems, i + enc_vals(elems).len())),
    decreases elems,
{
    broadcast use lemma_enc_val_len_pos, vstd::seq::lemma_seq_subrange_index_alt;

    if elems.len() == 0 {
        assert(elems =~= Seq::<Val>::empty());
    } else {
        let e0 = elems[0];
        assert(b.subrange(i, i + enc_val(e0).len()) =~= enc_val(e0));
        lemma_dec_enc_val(e0, b, i);
        let j = i + enc_val(e0).len();
        assert(b.subrange(j, j + enc_vals(elems.drop_first()).len()) =~= enc_vals(
            elems.drop_first(),
        ));
        lemma_dec_enc_vals(elems.drop_first(), b, j);
        assert(seq![e0] + elems.drop_first() =~= elems);
    }
}

/// A row of key-value pairs written by the encoder reads back as itself.
#[verifier::rlimit(60)]
pub proof fn lemma_dec_enc_pairs(pairs: Seq<(Seq<char>, Val)>, b: Seq<u8>, i: int)
    requires
        forall|k: int|
            0 <= k < pairs.len() ==> str_bounded((#[trigger] pairs[k]).0) && val_bounded(
                pairs[k].1,
            ),
        0 <= i,
        i + enc_pairs(pairs).len() <= b.len(),
        b.subrange(i, i + enc_pairs(pairs).len()) == enc_pairs(pairs),
    ensures
        dec_pairs(b, i, pairs.len()) == Some((pairs, i + enc_pairs(pairs).len())),
    decreases pairs,
{
    broadcast use lemma_enc_le_len, lemma_enc_chars_len, lemma_enc_val_len_pos,
        vstd::seq::lemma_seq_subrange_index_alt;

    if pairs.len() == 0 {
        assert(pairs =~= Seq::<(Seq<char>, Val)>::empty());
    } else {
        let s0 = pairs[0].0;
        let v0 = pairs[0].1;
        assert(b.subrange(i, i + enc_str(s0).len()) =~= enc_str(s0));
        lemma_dec_enc_str(s0, b, i);
        let j = i + enc_str(s0).len();
        assert(b.subrange(j, j + enc_val(v0).len()) =~= enc_val(v0));
        lemma_dec_enc_val(v0, b, j);
        let k = j + enc_val(v0).len();
        assert(b.subrange(k, k + enc_pairs(pairs.drop_first()).len()) =~= enc_pairs(
            pairs.drop_first(),
        ));
        lemma_dec_enc_pairs(pairs.drop_first(), b, k);
        assert(seq![(s0, v0)] + pairs.drop_first() =~= pairs);
    }
}

/// Round-trip: decoding a snapshot the encoder produced yields exactly the
/// mapping that was encoded, every variant and every nesting included.
pub proof fn lemma_snapshot_roundtrip(pairs: Seq<(Seq<char>, Val)>)
    requires
        store_bounded(pairs),
    ensures
        dec_store(enc_store(pairs)) == Some(pairs),
{
    broadcast use lemma_enc_le_len, vstd::seq::lemma_seq_subrange_index_alt;

    let b = enc_store(pairs);
    assert(b.subrange(0, 8) =~= enc_le(pairs.len(), 8));
    assert(pow256(8) == 0x10000000000000000) by {
        reveal_with_fuel(pow256, 9);
    }
    lemma_le_roundtrip(pairs.len(), 8);
    assert(b.subrange(8, 8 + enc_pairs(pairs).len() as int) =~= enc_pairs(pairs));
    lemma_dec_enc_pairs(pairs, b, 8int);
}

/// Append the encoding of a text payload to `out`.
#[verifier::loop_isolation(false)]
fn push_str(out: &mut Vec<u8>, s: &str)
    ensures
        final(out)@ == old(out)@ + enc_str(s@),
{
    broadcast use lemma_enc_le_len, lemma_enc_chars_len;

    let ghost start = out@;
    let n = s.unicode_len();
    push_le(out, n as u64, 8);
    let ghost chars = s@;
    proof {
        assert(chars.skip(0) =~= chars);
        assert(out@.skip(start.len() as int) =~= enc_le(chars.len(), 8));
    }
    let mut i: usize = 0;
    while i < n
        invariant
            i <= n,
            n == s@.len(),
            enc_str(s@) == out@.skip(start.len() as int) + enc_chars(chars.skip(i as int)),
            out@.len() >= start.len(),
            start == out@.subrange(0, start.len() as int),
        decreases n - i,
    {
        let ghost pre = out@;
        let c = s.get_char(i);
        push_le(out, c as u64, 4);
        proof {
            assert(chars.skip(i as int)[0] == chars[i as int]);
            assert(chars.skip(i as int).drop_first() =~= chars.skip(i as int + 1));
            assert(enc_chars(chars.skip(i as int)) == enc_le(c as nat, 4) + enc_chars(
                chars.skip(i as int + 1),
            ));
            assert(out@.skip(start.len() as int) =~= pre.skip(start.len() as int) + enc_le(
                c as nat,
                4,
            ));
            assert(out@.skip(start.len() as int) + enc_chars(chars.skip(i as int + 1)) =~= enc_str(
                s@,
            ));
            assert(start =~= out@.subrange(0, start.len() as int));
        }
        i += 1;
    }
    proof {
        assert(enc_chars(chars.skip(n as int)) =~= Seq::<u8>::empty());
        assert(out@ =~= start + enc_str(s@));
    }
}

/// Append the encoding of one value to `out`.
#[verifier::loop_isolation(false)]
fn push_val(out: &mut Vec<u8>, v: &Value)
    ensures
        final(out)@ == old(out)@ + enc_val(v@),
    decreases vsize(*v),
{
    broadcast use
        group_value_views,
        group_value_sizes,
        lemma_enc_le_len,
        lemma_enc_chars_len;

    let ghost start = out@;
    match v {
        Value::String(s) => {
            out.push(0u8);
            push_str(out, s.as_str());
            proof {
                assert(out@ =~= start + enc_val(v@));
            }
        },
        Value::Integer(i) => {
            out.push(1u8);
            let biased_u: u64 = if *i >= 0 {
                (*i as u64) + 0x8000000000000000
            } else {
                0x7FFFFFFFFFFFFFFF - ((-(*i + 1)) as u64)
            };
            proof {
                assert(biased_u as nat == biased(*i as int));
            }
            push_le(out, biased_u, 8);
            proof {
                assert(out@ =~= start + enc_val(v@));
            }
        },
        Value::Float(bits) => {
            out.push(2u8);
            push_le(out, *bits, 8);
            proof {
                assert(out@ =~= start + enc_val(v@));
            }
        },
        Value::Boolean(b) => {
            out.push(3u8);
            out.push(
                if *b {
                    1u8
                } else {
                    0u8
                },
            );
            proof {
                assert(out@ =~= start + enc_val(v@));
            }
        },
        Value::Null => {
            out.push(6u8);
            proof {
                assert(out@ =~= start + enc_val(v@));
            }
        },
        Value::Array(items) => {
            out.push(4u8);
            push_le(out, items.len() as u64, 8);
            let ghost elems = arr_view(items@);
            proof {
                assert(elems.skip(0) =~= elems);
                assert(v@ == Val::VArray(elems));
            }
            let mut i: usize = 0;
            while i < items.len()
                invariant
                    i <= items@.len(),
                    seq![4u8] + enc_le(elems.len(), 8) + enc_vals(elems) == out@.skip(
                        start.len() as int,
                    ) + enc_vals(elems.skip(i as int)),
                    out@.len() >= start.len(),
                    start == out@.subrange(0, start.len() as int),
                decreases items@.len() - i,
            {
                let ghost pre = out@;
                proof {
                    assert(elems.skip(i as int)[0] == elems[i as int]);
                    assert(elems.skip(i as int).drop_first() =~= elems.skip(i as int + 1));
                }
                push_val(out, &items[i]);
                proof {
                    assert(out@.skip(start.len() as int) =~= pre.skip(start.len() as int)
                        + enc_val(elems[i as int]));
                    assert(out@.skip(start.len() as int) + enc_vals(elems.skip(i as int + 1))
                        =~= seq![4u8] + enc_le(elems.len(), 8) + enc_vals(elems));
                    assert(start =~= out@.subrange(0, start.len() as int));
                }
                i += 1;
            }
            proof {
                assert(enc_vals(elems.skip(items@.len() as int)) =~= Seq::<u8>::empty());
                assert(out@ =~= start + enc_val(v@));
            }
        },
        Value::Object(pairs) => {
            out.push(5u8);
            push_le(out, pairs.len() as u64, 8);
            let ghost flds = obj_view(pairs@);
            proof {
                assert(flds.skip(0) =~= flds);
                assert(v@ == Val::VObject(flds));
            }
            let mut i: usize = 0;
            while i < pairs.len()
                invariant
                    i <= pairs@.len(),
                    seq![5u8] + enc_le(flds.len(), 8) + enc_pairs(flds) == out@.skip(
                        start.len() as int,
                    ) + enc_pairs(flds.skip(i as int)),
                    out@.len() >= start.len(),
                    start == out@.subrange(0, start.len() as int),
                decreases pairs@.len() - i,
            {
                let ghost pre = out@;
                proof {
                    assert(flds.skip(i as int)[0] == flds[i as int]);
                    assert(flds.skip(i as int).drop_first() =~= flds.skip(i as int + 1));
                }
                push_str(out, pairs[i].0.as_str());
                push_val(out, &pairs[i].1);
                proof {
                    assert(out@.skip(start.len() as int) =~= pre.skip(start.len() as int)
                        + enc_str(flds[i as int].0) + enc_val(flds[i as int].1));
                    assert(out@.skip(start.len() as int) + enc_pairs(flds.skip(i as int + 1))
                        =~= seq![5u8] + enc_le(flds.len(), 8) + enc_pairs(flds));
                    assert(start =~= out@.subrange(0, start.len() as int));
                }
                i += 1;
            }
            proof {
                assert(enc_pairs(flds.skip(pairs@.len() as int)) =~= Seq::<u8>::empty());
                assert(out@ =~= start + enc_val(v@));
            }
        },
    }
}

/// Encode a whole mapping as one self-contained snapshot.
#[verifier::loop_isolation(false)]
fn encode_store(data: &Vec<(String, Value)>) -> (r: Vec<u8>)
    ensures
        r@ == enc_store(obj_view(data@)),
{
    broadcast use group_value_views, lemma_enc_le_len;

    let mut out: Vec<u8> = Vec::new();
    push_le(&mut out, data.len() as u64, 8);
    let ghost flds = obj_view(data@);
    proof {
        assert(flds.skip(0) =~= flds);
        assert(out@ =~= Seq::<u8>::empty() + enc_le(flds.len(), 8));
    }
    let mut i: usize = 0;
    while i < data.len()
        invariant
            i <= data@.len(),
            enc_store(flds) == out@ + enc_pairs(flds.skip(i as int)),
        decreases data@.len() - i,
    {
        let ghost pre = out@;
        proof {
            assert(flds.skip(i as int)[0] == flds[i as int]);
            assert(flds.skip(i as int).drop_first() =~= flds.skip(i as int + 1));
        }
        push_str(&mut out, data[i].0.as_str());
        push_val(&mut out, &data[i].1);
        proof {
            assert(out@ + enc_pairs(flds.skip(i as int + 1)) =~= enc_store(flds));
        }
        i += 1;
    }
    proof {
        assert(enc_pairs(flds.skip(data@.len() as int)) =~= Seq::<u8>::empty());
        assert(out@ =~= enc_store(flds));
    }
    out
}

/// Relies on `char::from_u32` from std: it yields the character with the
/// given code exactly when the code is a Unicode scalar value.
#[verifier::external_body]
fn char_from_u32(u: u32) -> (r: Option<char>)
    ensures
        r == (if valid_scalar(u as nat) {
            Some(u as char)
        } else {
            None::<char>
        }),
{
    char::from_u32(u)
}

/// Relies on `String::push` from std: it appends exactly one character at
/// the end of the string.
#[verifier::external_body]
fn string_push(s: &mut String, c: char)
    ensures
        final(s)@ == old(s)@.push(c),
{
    s.push(c);
}

/// Decode a length-prefixed text payload at `pos`.
#[verifier::loop_isolation(false)]
fn decode_str(bytes: &Vec<u8>, pos: usize) -> (r: Result<(String, usize), DbError>)
    ensures
        r matches Ok((s, end)) ==> dec_str(bytes@, pos as int) == Some((s@, end as int)) && pos
            < end <= bytes@.len(),
        r is Err ==> dec_str(bytes@, pos as int) is None,
        r matches Err(e) ==> e == DbError::SerializationError,
{
    broadcast use vstd::seq_lib::group_seq_lib_default;

    let len = bytes.len();
    if len < 8 || pos > len - 8 {
        return Err(DbError::SerializationError);
    }
    let n = read_le(bytes, pos, 8);
    proof {
        assert(dec_u64(bytes@, pos as int) == Some((n as nat, pos as int + 8)));
    }
    let mut acc = String::new();
    let mut cur: usize = pos + 8;
    let mut k: u64 = 0;
    while k < n
        invariant
            k <= n,
            pos + 8 <= cur <= len,
            (match dec_chars(bytes@, cur as int, (n - k) as nat) {
                Some((s2, e)) => dec_chars(bytes@, pos as int + 8, n as nat) == Some(
                    (acc@ + s2, e),
                ),
                None => dec_chars(bytes@, pos as int + 8, n as nat) is None,
            }),
        decreases n - k,
    {
        if len < 4 || cur > len - 4 {
            return Err(DbError::SerializationError);
        }
        let wide = read_le(bytes, cur, 4);
        proof {
            lemma_dec_le_bound(bytes@.subrange(cur as int, cur as int + 4));
            assert(pow256(4) == 0x100000000) by {
                reveal_with_fuel(pow256, 5);
            }
        }
        let u = wide as u32;
        match char_from_u32(u) {
            None => {
                return Err(DbError::SerializationError);
            },
            Some(c) => {
                let ghost pre = acc@;
                string_push(&mut acc, c);
                proof {
                    let tail = dec_chars(bytes@, cur as int + 4, (n - k - 1) as nat);
                    if tail is Some {
                        let (s2, e) = tail->Some_0;
                        assert(pre + (seq![c] + s2) =~= acc@ + s2);
                    }
                }
                cur = cur + 4;
                k = k + 1;
            },
        }
    }
    proof {
        assert(acc@ + Seq::<char>::empty() =~= acc@);
    }
    Ok((acc, cur))
}

/// Decode `cnt` values in a row at `pos`.
#[verifier::loop_isolation(false)]
fn decode_values(bytes: &Vec<u8>, pos: usize, cnt: u64) -> (r: Result<
    (Vec<Value>, usize),
    DbError,
>)
    requires
        pos <= bytes@.len(),
    ensures
        r matches Ok((vs, end)) ==> dec_vals(bytes@, pos as int, cnt as nat) == Some(
            (arr_view(vs@), end as int),
        ) && pos <= end <= bytes@.len(),
        r is Err ==> dec_vals(bytes@, pos as int, cnt as nat) is None,
        r matches Err(e) ==> e == DbError::SerializationError,
    decreases bytes@.len() - pos, 1int,
{
    broadcast use group_value_views, vstd::seq_lib::group_seq_lib_default;

    let mut acc: Vec<Value> = Vec::new();
    let mut cur: usize = pos;
    let mut k: u64 = 0;
    while k < cnt
        invariant
            k <= cnt,
            pos <= cur <= bytes@.len(),
            (match dec_vals(bytes@, cur as int, (cnt - k) as nat) {
                Some((rest, e)) => dec_vals(bytes@, pos as int, cnt as nat) == Some(
                    (arr_view(acc@) + rest, e),
                ),
                None => dec_vals(bytes@, pos as int, cnt as nat) is None,
            }),
        decreases cnt - k,
    {
        match decode_value(bytes, cur) {
            Err(e) => {
                return Err(e);
            },
            Ok((v, end)) => {
                let ghost pre = acc@;
                proof {
                    let tail = dec_vals(bytes@, end as int, (cnt - k - 1) as nat);
                    if tail is Some {
                        let (rest, e2) = tail->Some_0;
                        assert(arr_view(pre) + (seq![v@] + rest) =~= (arr_view(pre) + seq![v@])
                            + rest);
                    }
                }
                acc.push(v);
                proof {
                    assert(arr_view(acc@) =~= arr_view(pre) + seq![v@]);
                }
                cur = end;
                k = k + 1;
            },
        }
    }
    proof {
        assert(arr_view(acc@) + Seq::<Val>::empty() =~= arr_view(acc@));
    }
    Ok((acc, cur))
}

/// Decode `cnt` key-value pairs in a row at `pos`.
#[verifier::loop_isolation(false)]
fn decode_pairs(bytes: &Vec<u8>, pos: usize, cnt: u64) -> (r: Result<
    (Vec<(String, Value)>, usize),
    DbError,
>)
    requires
        pos <= bytes@.len(),
    ensures
        r matches Ok((ps, end)) ==> dec_pairs(bytes@, pos as int, cnt as nat) == Some(
            (obj_view(ps@), end as int),
        ) && pos <= end <= bytes@.len(),
        r is Err ==> dec_pairs(bytes@, pos as int, cnt as nat) is None,
        r matches Err(e) ==> e == DbError::SerializationError,
    decreases bytes@.len() - pos, 1int,
{
    broadcast use group_value_views, vstd::seq_lib::group_seq_lib_default;

    let mut acc: Vec<(String, Value)> = Vec::new();
    let mut cur: usize = pos;
    let mut k: u64 = 0;
    while k < cnt
        invariant
            k <= cnt,
            pos <= cur <= bytes@.len(),
            (match dec_pairs(bytes@, cur as int, (cnt - k) as nat) {
                Some((rest, e)) => dec_pairs(bytes@, pos as int, cnt as nat) == Some(
                    (obj_view(acc@) + rest, e),
                ),
                None => dec_pairs(bytes@, pos as int, cnt as nat) is None,
            }),
        decreases cnt - k,
    {
        match decode_str(bytes, cur) {
            Err(e) => {
                return Err(e);
            },
            Ok((key, mid)) => {
                match decode_value(bytes, mid) {
                    Err(e) => {
                        return Err(e);
                    },
                    Ok((v, end)) => {
                        let ghost pre = acc@;
                        proof {
                            let tail = dec_pairs(bytes@, end as int, (cnt - k - 1) as nat);
                            if tail is Some {
                                let (rest, e2) = tail->Some_0;
                                assert(obj_view(pre) + (seq![(key@, v@)] + rest) =~= (obj_view(
                                    pre,
                                ) + seq![(key@, v@)]) + rest);
                            }
                        }
                        acc.push((key, v));
                        proof {
                            assert(obj_view(acc@) =~= obj_view(pre) + seq![
                                (acc@[acc@.len() - 1].0@, acc@[acc@.len() - 1].1@),
                            ]);
                        }
                        cur = end;
                        k = k + 1;
                    },
                }
            },
        }
    }
    proof {
        assert(obj_view(acc@) + Seq::<(Seq<char>, Val)>::empty() =~= obj_view(acc@));
    }
    Ok((acc, cur))
}

/// Decode one tagged value at `pos`.
fn decode_value(bytes: &Vec<u8>, pos: usize) -> (r: Result<(Value, usize), DbError>)
    ensures
        r matches Ok((v, end)) ==> dec_val(bytes@, pos as int) == Some((v@, end as int)) && pos
            < end <= bytes@.len(),
        r is Err ==> dec_val(bytes@, pos as int) is None,
        r matches Err(e) ==> e == DbError::SerializationError,
    decreases bytes@.len() - pos, 0int,
{
    let len = bytes.len();
    if pos >= len {
        return Err(DbError::SerializationError);
    }
    let tag = bytes[pos];
    if tag == 0 {
        match decode_str(bytes, pos + 1) {
            Ok((s, end)) => Ok((Value::String(s), end)),
            Err(e) => Err(e),
        }
    } else if tag == 1 {
        if len < 9 || pos > len - 9 {
            return Err(DbError::SerializationError);
        }
        let u = read_le(bytes, pos + 1, 8);
        proof {
            assert(dec_u64(bytes@, pos as int + 1) == Some((u as nat, pos as int + 9)));
        }
        let v: i64 = if u >= 0x8000000000000000 {
            (u - 0x8000000000000000) as i64
        } else {
            -((0x7FFFFFFFFFFFFFFF - u) as i64) - 1
        };
        proof {
            assert(v as int == unbias(u as nat));
        }
        Ok((Value::Integer(v), pos + 9))
    } else if tag == 2 {
        if len < 9 || pos > len - 9 {
            return Err(DbError::SerializationError);
        }
        let u = read_le(bytes, pos + 1, 8);
        proof {
            assert(dec_u64(bytes@, pos as int + 1) == Some((u as nat, pos as int + 9)));
        }
        Ok((Value::Float(u), pos + 9))
    } else if tag == 3 {
        if len < 2 || pos > len - 2 {
            return Err(DbError::SerializationError);
        }
        let b = bytes[pos + 1];
        if b == 1 {
            Ok((Value::Boolean(true), pos + 2))
        } else if b == 0 {
            Ok((Value::Boolean(false), pos + 2))
        } else {
            Err(DbError::SerializationError)
        }
    } else if tag == 4 {
        if len < 9 || pos > len - 9 {
            return Err(DbError::SerializationError);
        }
        let n = read_le(bytes, pos + 1, 8);
        proof {
            assert(dec_u64(bytes@, pos as int + 1) == Some((n as nat, pos as int + 9)));
        }
        match decode_values(bytes, pos + 9, n) {
            Ok((vs, end)) => Ok((Value::Array(vs), end)),
            Err(e) => Err(e),
        }
    } else if tag == 5 {
        if len < 9 || pos > len - 9 {
            return Err(DbError::SerializationError);
        }
        let n = read_le(bytes, pos + 1, 8);
        proof {
            assert(dec_u64(bytes@, pos as int + 1) == Some((n as nat, pos as int + 9)));
        }
        match decode_pairs(bytes, pos + 9, n) {
            Ok((ps, end)) => Ok((Value::Object(ps), end)),
            Err(e) => Err(e),
        }
    } else if tag == 6 {
        Ok((Value::Null, pos + 1))
    } else {
        Err(DbError::SerializationError)
    }
}

/// Decode a whole snapshot: the count, then exactly that many pairs
/// filling the buffer to its end.
fn decode_store(bytes: &Vec<u8>) -> (r: Result<Vec<(String, Value)>, DbError>)
    ensures
        r matches Ok(store) ==> dec_store(bytes@) == Some(obj_view(store@)),
        r is Err ==> dec_store(bytes@) is None,
        r matches Err(e) ==> e == DbError::SerializationError,
{
    let len = bytes.len();
    if len < 8 {
        return Err(DbError::SerializationError);
    }
    let n = read_le(bytes, 0, 8);
    proof {
        assert(dec_u64(bytes@, 0) == Some((n as nat, 8int)));
    }
    match decode_pairs(bytes, 8, n) {
        Err(e) => Err(e),
        Ok((store, end)) => {
            if end == len {
                Ok(store)
            } else {
                Err(DbError::SerializationError)
            }
        },
    }
}

/// The persistence engine: it owns the single target path and turns whole
/// mappings into snapshot bytes and back, one full pass per call. Reading
/// and writing the file itself is the caller's part; the engine states
/// exactly which bytes the file must hold.
pub struct StorageEngine {
    file_path: String,
}

impl StorageEngine {
    /// The path of the single snapshot file this engine works against.
    pub closed spec fn path(&self) -> Seq<char> {
        self.file_path@
    }

    /// Create a storage engine for the given file path.
    pub fn new(file_path: &str) -> (r: StorageEngine)
        ensures
            r.path() == file_path@,
    {
        StorageEngine { file_path: file_path.to_owned() }
    }

    /// The target path, for the caller performing the file reads and
    /// writes around the engine.
    pub fn path_str(&self) -> (r: &str)
        ensures
            r@ == self.path(),
    {
        self.file_path.as_str()
    }

    /// Encode the entire mapping as one self-contained snapshot: the bytes
    /// a save must write to the file, replacing whatever was there.
    pub fn save(&self, data: &Vec<(String, Value)>) -> (r: Vec<u8>)
        ensures
            r@ == enc_store(obj_view(data@)),
    {
        encode_store(data)
    }

    /// Decode a snapshot read back from the file. A missing file is not an
    /// error: it stands for the empty mapping, so a first run starts
    /// fresh; malformed bytes are a serialization error, never silently
    /// dropped.
    pub fn load(&self, bytes: Option<&Vec<u8>>) -> (r: Result<Vec<(String, Value)>, DbError>)
        ensures
            bytes is None ==> (r matches Ok(store) && obj_view(store@) == Seq::<(
                Seq<char>,
                Val,
            )>::empty()),
            bytes matches Some(bs) ==> (match dec_store(bs@) {
                Some(pairs) => r matches Ok(store) && obj_view(store@) == pairs,
                None => r matches Err(e) && e == DbError::SerializationError,
            }),
    {
        match bytes {
            None => Ok(Vec::new()),
            Some(bs) => decode_store(bs),
        }
    }

    /// Encode a single-entry block, as an append-style write would add at
    /// the file's end. `load` decodes exactly one whole-mapping snapshot
    /// and does not merge appended blocks back in, so this stays outside
    /// the stable persistence contract.
    pub fn append(&self, key: &str, value: &Value) -> (r: Vec<u8>)
        ensures
            r@ == enc_store(seq![(key@, value@)]),
    {
        broadcast use lemma_enc_le_len, lemma_enc_chars_len;

        let mut out: Vec<u8> = Vec::new();
        push_le(&mut out, 1, 8);
        push_str(&mut out, key);
        push_val(&mut out, value);
        proof {
            let ghost one = seq![(key@, value@)];
            assert(one.drop_first() =~= Seq::<(Seq<char>, Val)>::empty());
            assert(enc_pairs(one) == enc_str(key@) + enc_val(value@) + enc_pairs(
                one.drop_first(),
            ));
            assert(out@ =~= enc_store(one));
        }
        out
    }

    /// Relies on `std::path::Path::exists` from std: it asks the file
    /// system whether the target path currently names an existing file.
    #[verifier::external_body]
    pub fn file_exists(&self) -> bool {
        std::path::Path::new(self.file_path.as_str()).exists()
    }
}

} // verus!
