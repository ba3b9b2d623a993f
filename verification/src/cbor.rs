//! The CBOR shape of index blocks: per-child records with fixed text
//! keys, the compact key sequence, the CID list, and the outer pair.
//!
//! Encoders emit one fixed form for each value (64-bit arguments for
//! unsigned items, 8-byte lengths for arrays and byte strings); decoders
//! accept exactly that form. Every encoding is paired with a lemma that
//! decoding it yields the value back.

use crate::index::IndexRecordV;
use crate::links::{link_bytes, link_from_bytes, u64_be_bytes, u64_from_be, Link};
use crate::semigroup::Key;
use vstd::prelude::*;

verus! {

// ---------------------------------------------------------------------
// Spec encodings
// ---------------------------------------------------------------------
/// Major 7: `false` and `true`.
pub open spec fn enc_bool(b: bool) -> Seq<u8> {
    if b {
        seq![0xf5u8]
    } else {
        seq![0xf4u8]
    }
}

/// Major 7: `null`.
pub open spec fn enc_null() -> Seq<u8> {
    seq![0xf6u8]
}

/// Major 0 with a 64-bit argument.
pub open spec fn enc_u64(v: u64) -> Seq<u8> {
    seq![0x1bu8] + u64_be_bytes(v)
}

/// An optional unsigned value: `null` when absent.
pub open spec fn enc_opt_u64(v: Option<u64>) -> Seq<u8> {
    match v {
        None => enc_null(),
        Some(x) => enc_u64(x),
    }
}

/// An optional 32-bit value, carried as an unsigned item.
pub open spec fn enc_opt_u32(v: Option<u32>) -> Seq<u8> {
    match v {
        None => enc_null(),
        Some(x) => enc_u64(x as u64),
    }
}

/// A key as a three-element array of unsigned items.
pub open spec fn enc_key(k: Key) -> Seq<u8> {
    seq![0x83u8] + (enc_u64(k.min_lamport) + (enc_u64(k.min_time) + enc_u64(k.max_time)))
}

/// The elements of a run of keys, in order.
pub open spec fn enc_key_items(s: Seq<Key>) -> Seq<u8>
    decreases s.len(),
{
    if s.len() == 0 {
        Seq::empty()
    } else {
        enc_key(s[0]) + enc_key_items(s.drop_first())
    }
}

/// A run of keys: major 4 with a 64-bit count, then the elements.
pub open spec fn enc_keyseq(s: Seq<Key>) -> Seq<u8> {
    seq![0x9bu8] + (u64_be_bytes(s.len() as u64) + enc_key_items(s))
}

/// A link: major 2 with a one-byte length of 32, then the digest bytes.
pub open spec fn enc_link(l: Link) -> Seq<u8> {
    seq![0x58u8, 32u8] + link_bytes(l)
}

/// The elements of a CID list, in order.
pub open spec fn enc_link_items(s: Seq<Link>) -> Seq<u8>
    decreases s.len(),
{
    if s.len() == 0 {
        Seq::empty()
    } else {
        enc_link(s[0]) + enc_link_items(s.drop_first())
    }
}

/// A CID list: major 4 with a 64-bit count, then the links.
pub open spec fn enc_links(s: Seq<Link>) -> Seq<u8> {
    seq![0x9bu8] + (u64_be_bytes(s.len() as u64) + enc_link_items(s))
}

/// The text key `sealed`.
pub open spec fn k_sealed() -> Seq<u8> {
    seq![0x66u8, 115u8, 101u8, 97u8, 108u8, 101u8, 100u8]
}

/// The text key `purged`.
pub open spec fn k_purged() -> Seq<u8> {
    seq![0x66u8, 112u8, 117u8, 114u8, 103u8, 101u8, 100u8]
}

/// The text key `data`.
pub open spec fn k_data() -> Seq<u8> {
    seq![0x64u8, 100u8, 97u8, 116u8, 97u8]
}

/// The text key `value_bytes`.
pub open spec fn k_value_bytes() -> Seq<u8> {
    seq![0x6bu8, 118u8, 97u8, 108u8, 117u8, 101u8, 95u8, 98u8, 121u8, 116u8, 101u8, 115u8]
}

/// The text key `count`.
pub open spec fn k_count() -> Seq<u8> {
    seq![0x65u8, 99u8, 111u8, 117u8, 110u8, 116u8]
}

/// The text key `level`.
pub open spec fn k_level() -> Seq<u8> {
    seq![0x65u8, 108u8, 101u8, 118u8, 101u8, 108u8]
}

/// The text key `key_bytes`.
pub open spec fn k_key_bytes() -> Seq<u8> {
    seq![0x69u8, 107u8, 101u8, 121u8, 95u8, 98u8, 121u8, 116u8, 101u8, 115u8]
}

/// One per-child record: a seven-entry map with fixed text keys.
pub open spec fn enc_record(r: IndexRecordV) -> Seq<u8> {
    seq![0xa7u8] + (k_sealed() + (enc_bool(r.sealed) + (k_purged() + (enc_bool(r.purged) + (k_data()
        + (enc_keyseq(r.data) + (k_value_bytes() + (enc_u64(r.value_bytes) + (k_count() + (
    enc_opt_u64(r.count) + (k_level() + (enc_opt_u32(r.level) + (k_key_bytes() + enc_opt_u64(
        r.key_bytes,
    ))))))))))))))
}

/// The bodies of the records, in order.
pub open spec fn enc_record_items(rs: Seq<IndexRecordV>) -> Seq<u8>
    decreases rs.len(),
{
    if rs.len() == 0 {
        Seq::empty()
    } else {
        enc_record(rs[0]) + enc_record_items(rs.drop_first())
    }
}

/// The record array: an indefinite-length array of records.
pub open spec fn enc_records(rs: Seq<IndexRecordV>) -> Seq<u8> {
    seq![0x9fu8] + (enc_record_items(rs) + seq![0xffu8])
}

/// The outer pair: a two-element array of the CID list and a byte
/// string holding `blob`.
pub open spec fn enc_outer(cids: Seq<Link>, blob: Seq<u8>) -> Seq<u8> {
    seq![0x82u8] + (enc_links(cids) + (seq![0x5bu8] + (u64_be_bytes(blob.len() as u64) + blob)))
}

// ---------------------------------------------------------------------
// Spec decoders: each takes the input and a position and yields the
// decoded value with the position after it, or nothing.
// ---------------------------------------------------------------------
/// Whether `s` carries exactly `lit` at `pos`.
pub open spec fn has_lit(s: Seq<u8>, pos: int, lit: Seq<u8>) -> bool {
    0 <= pos && pos + lit.len() <= s.len() && s.subrange(pos, pos + lit.len()) == lit
}

pub open spec fn dec_bool(s: Seq<u8>, pos: int) -> Option<(bool, int)> {
    if 0 <= pos < s.len() && s[pos] == 0xf4u8 {
        Some((false, pos + 1))
    } else if 0 <= pos < s.len() && s[pos] == 0xf5u8 {
        Some((true, pos + 1))
    } else {
        None
    }
}

pub open spec fn dec_u64(s: Seq<u8>, pos: int) -> Option<(u64, int)> {
    if 0 <= pos && pos + 9 <= s.len() && s[pos] == 0x1bu8 {
        Some((u64_from_be(s.subrange(pos + 1, pos + 9)), pos + 9))
    } else {
        None
    }
}

pub open spec fn dec_opt_u64(s: Seq<u8>, pos: int) -> Option<(Option<u64>, int)> {
    if 0 <= pos < s.len() && s[pos] == 0xf6u8 {
        Some((None, pos + 1))
    } else {
        match dec_u64(s, pos) {
            Some((v, p)) => Some((Some(v), p)),
            None => None,
        }
    }
}

pub open spec fn dec_opt_u32(s: Seq<u8>, pos: int) -> Option<(Option<u32>, int)> {
    if 0 <= pos < s.len() && s[pos] == 0xf6u8 {
        Some((None, pos + 1))
    } else {
        match dec_u64(s, pos) {
            Some((v, p)) => if v <= u32::MAX {
                Some((Some(v as u32), p))
            } else {
                None
            },
            None => None,
        }
    }
}

pub open spec fn dec_key(s: Seq<u8>, pos: int) -> Option<(Key, int)> {
    if 0 <= pos < s.len() && s[pos] == 0x83u8 {
        match dec_u64(s, pos + 1) {
            Some((a, p1)) => match dec_u64(s, p1) {
                Some((b, p2)) => match dec_u64(s, p2) {
                    Some((c, p3)) => Some(
                        (Key { min_lamport: a, min_time: b, max_time: c }, p3),
                    ),
                    None => None,
                },
                None => None,
            },
            None => None,
        }
    } else {
        None
    }
}

/// `n` keys in a row.
pub open spec fn dec_key_items(s: Seq<u8>, pos: int, n: nat) -> Option<(Seq<Key>, int)>
    decreases n,
{
    if n == 0 {
        Some((Seq::empty(), pos))
    } else {
        match dec_key(s, pos) {
            Some((k, p1)) => match dec_key_items(s, p1, (n - 1) as nat) {
                Some((ks, p2)) => Some((seq![k] + ks, p2)),
                None => None,
            },
            None => None,
        }
    }
}

pub open spec fn dec_keyseq(s: Seq<u8>, pos: int) -> Option<(Seq<Key>, int)> {
    if 0 <= pos < s.len() && s[pos] == 0x9bu8 {
        match dec_u64_arg(s, pos + 1) {
            Some((n, p1)) => dec_key_items(s, p1, n as nat),
            None => None,
        }
    } else {
        None
    }
}

/// The bare eight-byte argument after a header byte.
pub open spec fn dec_u64_arg(s: Seq<u8>, pos: int) -> Option<(u64, int)> {
    if 0 <= pos && pos + 8 <= s.len() {
        Some((u64_from_be(s.subrange(pos, pos + 8)), pos + 8))
    } else {
        None
    }
}

pub open spec fn dec_link(s: Seq<u8>, pos: int) -> Option<(Link, int)> {
    if 0 <= pos && pos + 2 <= s.len() && s[pos] == 0x58u8 && s[pos + 1] == 32u8 && pos + 34
        <= s.len() {
        Some((link_from_bytes(s.subrange(pos + 2, pos + 34)), pos + 34))
    } else {
        None
    }
}

pub open spec fn dec_link_items(s: Seq<u8>, pos: int, n: nat) -> Option<(Seq<Link>, int)>
    decreases n,
{
    if n == 0 {
        Some((Seq::empty(), pos))
    } else {
        match dec_link(s, pos) {
            Some((l, p1)) => match dec_link_items(s, p1, (n - 1) as nat) {
                Some((ls, p2)) => Some((seq![l] + ls, p2)),
                None => None,
            },
            None => None,
        }
    }
}

pub open spec fn dec_links(s: Seq<u8>, pos: int) -> Option<(Seq<Link>, int)> {
    if 0 <= pos < s.len() && s[pos] == 0x9bu8 {
        match dec_u64_arg(s, pos + 1) {
            Some((n, p1)) => dec_link_items(s, p1, n as nat),
            None => None,
        }
    } else {
        None
    }
}

pub open spec fn dec_record(s: Seq<u8>, pos: int) -> Option<(IndexRecordV, int)> {
    if 0 <= pos < s.len() && s[pos] == 0xa7u8 && has_lit(s, pos + 1, k_sealed()) {
        let p0 = pos + 1 + k_sealed().len();
        match dec_bool(s, p0) {
            Some((sealed, p1)) => if has_lit(s, p1, k_purged()) {
                match dec_bool(s, p1 + k_purged().len()) {
                    Some((purged, p2)) => if has_lit(s, p2, k_data()) {
                        match dec_keyseq(s, p2 + k_data().len()) {
                            Some((data, p3)) => if has_lit(s, p3, k_value_bytes()) {
                                match dec_u64(s, p3 + k_value_bytes().len()) {
                                    Some((value_bytes, p4)) => if has_lit(s, p4, k_count()) {
                                        match dec_opt_u64(s, p4 + k_count().len()) {
                                            Some((count, p5)) => if has_lit(s, p5, k_level()) {
                                                match dec_opt_u32(s, p5 + k_level().len()) {
                                                    Some((level, p6)) => if has_lit(
                                                        s,
                                                        p6,
                                                        k_key_bytes(),
                                                    ) {
                                                        match dec_opt_u64(
                                                            s,
                                                            p6 + k_key_bytes().len(),
                                                        ) {
                                                            Some((key_bytes, p7)) => Some(
                                                                (
                                                                    IndexRecordV {
                                                                        sealed,
                                                                        purged,
                                                                        data,
                                                                        value_bytes,
                                                                        count,
                                                                        level,
                                                                        key_bytes,
                                                                    },
                                                                    p7,
                                                                ),
                                                            ),
                                                            None => None,
                                                        }
                                                    } else {
                                                        None
                                                    },
                                                    None => None,
                                                }
                                            } else {
                                                None
                                            },
                                            None => None,
                                        }
                                    } else {
                                        None
                                    },
                                    None => None,
                                }
                            } else {
                                None
                            },
                            None => None,
                        }
                    } else {
                        None
                    },
                    None => None,
                }
            } else {
                None
            },
            None => None,
        }
    } else {
        None
    }
}

/// Records until the break byte.
pub open spec fn dec_record_list(s: Seq<u8>, pos: int) -> Option<(Seq<IndexRecordV>, int)>
    decreases s.len() - pos,
{
    if 0 <= pos < s.len() && s[pos] == 0xffu8 {
        Some((Seq::empty(), pos + 1))
    } else {
        match dec_record(s, pos) {
            Some((r, p1)) => if pos < p1 <= s.len() {
                match dec_record_list(s, p1) {
                    Some((rs, p2)) => Some((seq![r] + rs, p2)),
                    None => None,
                }
            } else {
                None
            },
            None => None,
        }
    }
}

pub open spec fn dec_records(s: Seq<u8>, pos: int) -> Option<(Seq<IndexRecordV>, int)> {
    if 0 <= pos < s.len() && s[pos] == 0x9fu8 {
        dec_record_list(s, pos + 1)
    } else {
        None
    }
}

/// The outer pair: the CID list and the byte-string blob.
pub open spec fn dec_outer(s: Seq<u8>) -> Option<(Seq<Link>, Seq<u8>)> {
    if s.len() > 0 && s[0] == 0x82u8 {
        match dec_links(s, 1) {
            Some((cids, p1)) => if p1 < s.len() && s[p1] == 0x5bu8 {
                match dec_u64_arg(s, p1 + 1) {
                    Some((n, p2)) => if p2 + n <= s.len() {
                        Some((cids, s.subrange(p2, p2 + n)))
                    } else {
                        None
                    },
                    None => None,
                }
            } else {
                None
            },
            None => None,
        }
    } else {
        None
    }
}

// ---------------------------------------------------------------------
// Round-trip lemmas: decoding an encoding yields the value back.
// ---------------------------------------------------------------------
/// A literal made of two halves splits into the halves.
pub proof fn lemma_lit_split(s: Seq<u8>, pos: int, a: Seq<u8>, b: Seq<u8>)
    requires
        has_lit(s, pos, a + b),
    ensures
        has_lit(s, pos, a),
        has_lit(s, pos + a.len(), b),
{
    let whole = s.subrange(pos, pos + a.len() + b.len());
    assert forall|i: int| 0 <= i < a.len() implies s.subrange(pos, pos + a.len())[i] == a[i] by {
        assert(whole[i] == (a + b)[i]);
    }
    assert(s.subrange(pos, pos + a.len()) =~= a);
    assert forall|i: int| 0 <= i < b.len() implies s.subrange(
        pos + a.len(),
        pos + a.len() + b.len(),
    )[i] == b[i] by {
        assert(whole[a.len() + i] == (a + b)[a.len() + i]);
    }
    assert(s.subrange(pos + a.len(), pos + a.len() + b.len()) =~= b);
}

/// The first byte of a literal is in place.
pub proof fn lemma_lit_first(s: Seq<u8>, pos: int, lit: Seq<u8>)
    requires
        has_lit(s, pos, lit),
        lit.len() > 0,
    ensures
        s[pos] == lit[0],
{
    assert(s.subrange(pos, pos + lit.len())[0] == lit[0]);
}

pub proof fn lemma_dec_enc_u64(s: Seq<u8>, pos: int, v: u64)
    requires
        has_lit(s, pos, enc_u64(v)),
    ensures
        dec_u64(s, pos) == Some((v, pos + 9)),
{
    lemma_lit_split(s, pos, seq![0x1bu8], u64_be_bytes(v));
    lemma_lit_first(s, pos, seq![0x1bu8]);
    assert(s.subrange(pos + 1, pos + 9) == u64_be_bytes(v));
    crate::links::lemma_u64_be_roundtrip(v);
}

pub proof fn lemma_dec_enc_bool(s: Seq<u8>, pos: int, v: bool)
    requires
        has_lit(s, pos, enc_bool(v)),
    ensures
        dec_bool(s, pos) == Some((v, pos + 1)),
{
    lemma_lit_first(s, pos, enc_bool(v));
}

pub proof fn lemma_dec_enc_opt_u64(s: Seq<u8>, pos: int, v: Option<u64>)
    requires
        has_lit(s, pos, enc_opt_u64(v)),
    ensures
        dec_opt_u64(s, pos) == Some((v, pos + enc_opt_u64(v).len())),
{
    match v {
        None => {
            lemma_lit_first(s, pos, enc_null());
        },
        Some(x) => {
            lemma_lit_first(s, pos, enc_u64(x));
            lemma_dec_enc_u64(s, pos, x);
        },
    }
}

pub proof fn lemma_dec_enc_opt_u32(s: Seq<u8>, pos: int, v: Option<u32>)
    requires
        has_lit(s, pos, enc_opt_u32(v)),
    ensures
        dec_opt_u32(s, pos) == Some((v, pos + enc_opt_u32(v).len())),
{
    match v {
        None => {
            lemma_lit_first(s, pos, enc_null());
        },
        Some(x) => {
            lemma_lit_first(s, pos, enc_u64(x as u64));
            lemma_dec_enc_u64(s, pos, x as u64);
        },
    }
}

pub proof fn lemma_dec_enc_key(s: Seq<u8>, pos: int, k: Key)
    requires
        has_lit(s, pos, enc_key(k)),
    ensures
        dec_key(s, pos) == Some((k, pos + 28)),
{
    let a = enc_u64(k.min_lamport);
    let b = enc_u64(k.min_time);
    let c = enc_u64(k.max_time);
    lemma_lit_split(s, pos, seq![0x83u8], a + (b + c));
    lemma_lit_first(s, pos, seq![0x83u8]);
    lemma_lit_split(s, pos + 1, a, b + c);
    lemma_lit_split(s, pos + 10, b, c);
    lemma_dec_enc_u64(s, pos + 1, k.min_lamport);
    lemma_dec_enc_u64(s, pos + 10, k.min_time);
    lemma_dec_enc_u64(s, pos + 19, k.max_time);
}

pub proof fn lemma_dec_enc_key_items(s: Seq<u8>, pos: int, ks: Seq<Key>)
    requires
        has_lit(s, pos, enc_key_items(ks)),
    ensures
        dec_key_items(s, pos, ks.len()) == Some((ks, pos + enc_key_items(ks).len())),
    decreases ks.len(),
{
    if ks.len() == 0 {
        assert(ks =~= Seq::<Key>::empty());
    } else {
        let rest = ks.drop_first();
        lemma_lit_split(s, pos, enc_key(ks[0]), enc_key_items(rest));
        lemma_dec_enc_key(s, pos, ks[0]);
        lemma_dec_enc_key_items(s, pos + 28, rest);
        assert(seq![ks[0]] + rest =~= ks);
    }
}

pub proof fn lemma_dec_enc_u64_arg(s: Seq<u8>, pos: int, v: u64)
    requires
        has_lit(s, pos, u64_be_bytes(v)),
    ensures
        dec_u64_arg(s, pos) == Some((v, pos + 8)),
{
    assert(s.subrange(pos, pos + 8) == u64_be_bytes(v));
    crate::links::lemma_u64_be_roundtrip(v);
}

pub proof fn lemma_dec_enc_keyseq(s: Seq<u8>, pos: int, ks: Seq<Key>)
    requires
        has_lit(s, pos, enc_keyseq(ks)),
        ks.len() <= u64::MAX,
    ensures
        dec_keyseq(s, pos) == Some((ks, pos + enc_keyseq(ks).len())),
{
    lemma_lit_split(s, pos, seq![0x9bu8], u64_be_bytes(ks.len() as u64) + enc_key_items(ks));
    lemma_lit_first(s, pos, seq![0x9bu8]);
    lemma_lit_split(s, pos + 1, u64_be_bytes(ks.len() as u64), enc_key_items(ks));
    lemma_dec_enc_u64_arg(s, pos + 1, ks.len() as u64);
    lemma_dec_enc_key_items(s, pos + 9, ks);
}

pub proof fn lemma_dec_enc_link(s: Seq<u8>, pos: int, l: Link)
    requires
        has_lit(s, pos, enc_link(l)),
    ensures
        dec_link(s, pos) == Some((l, pos + 34)),
{
    crate::links::lemma_link_bytes_roundtrip(l);
    lemma_lit_split(s, pos, seq![0x58u8, 32u8], link_bytes(l));
    lemma_lit_first(s, pos, seq![0x58u8, 32u8]);
    assert(s[pos + 1] == 32u8) by {
        assert(s.subrange(pos, pos + 2)[1] == 32u8);
    }
    assert(s.subrange(pos + 2, pos + 34) == link_bytes(l));
}

pub proof fn lemma_dec_enc_link_items(s: Seq<u8>, pos: int, ls: Seq<Link>)
    requires
        has_lit(s, pos, enc_link_items(ls)),
    ensures
        dec_link_items(s, pos, ls.len()) == Some((ls, pos + enc_link_items(ls).len())),
    decreases ls.len(),
{
    if ls.len() == 0 {
        assert(ls =~= Seq::<Link>::empty());
    } else {
        let rest = ls.drop_first();
        lemma_lit_split(s, pos, enc_link(ls[0]), enc_link_items(rest));
        lemma_dec_enc_link(s, pos, ls[0]);
        lemma_dec_enc_link_items(s, pos + 34, rest);
        assert(seq![ls[0]] + rest =~= ls);
    }
}

pub proof fn lemma_dec_enc_links(s: Seq<u8>, pos: int, ls: Seq<Link>)
    requires
        has_lit(s, pos, enc_links(ls)),
        ls.len() <= u64::MAX,
    ensures
        dec_links(s, pos) == Some((ls, pos + enc_links(ls).len())),
{
    lemma_lit_split(s, pos, seq![0x9bu8], u64_be_bytes(ls.len() as u64) + enc_link_items(ls));
    lemma_lit_first(s, pos, seq![0x9bu8]);
    lemma_lit_split(s, pos + 1, u64_be_bytes(ls.len() as u64), enc_link_items(ls));
    lemma_dec_enc_u64_arg(s, pos + 1, ls.len() as u64);
    lemma_dec_enc_link_items(s, pos + 9, ls);
}

pub proof fn lemma_dec_enc_record(s: Seq<u8>, pos: int, r: IndexRecordV)
    requires
        has_lit(s, pos, enc_record(r)),
        r.data.len() <= u64::MAX,
    ensures
        dec_record(s, pos) == Some((r, pos + enc_record(r).len())),
        enc_record(r).len() > 0,
{
    let e_sealed = enc_bool(r.sealed);
    let e_purged = enc_bool(r.purged);
    let e_data = enc_keyseq(r.data);
    let e_vb = enc_u64(r.value_bytes);
    let e_count = enc_opt_u64(r.count);
    let e_level = enc_opt_u32(r.level);
    let e_kb = enc_opt_u64(r.key_bytes);
    let t14 = e_kb;
    let t13 = k_key_bytes() + t14;
    let t12 = e_level + t13;
    let t11 = k_level() + t12;
    let t10 = e_count + t11;
    let t9 = k_count() + t10;
    let t8 = e_vb + t9;
    let t7 = k_value_bytes() + t8;
    let t6 = e_data + t7;
    let t5 = k_data() + t6;
    let t4 = e_purged + t5;
    let t3 = k_purged() + t4;
    let t2 = e_sealed + t3;
    let t1 = k_sealed() + t2;
    lemma_lit_split(s, pos, seq![0xa7u8], t1);
    lemma_lit_first(s, pos, seq![0xa7u8]);
    let q1 = pos + 1;
    lemma_lit_split(s, q1, k_sealed(), t2);
    let q2 = q1 + k_sealed().len();
    lemma_lit_split(s, q2, e_sealed, t3);
    lemma_dec_enc_bool(s, q2, r.sealed);
    let q3 = q2 + e_sealed.len();
    lemma_lit_split(s, q3, k_purged(), t4);
    let q4 = q3 + k_purged().len();
    lemma_lit_split(s, q4, e_purged, t5);
    lemma_dec_enc_bool(s, q4, r.purged);
    let q5 = q4 + e_purged.len();
    lemma_lit_split(s, q5, k_data(), t6);
    let q6 = q5 + k_data().len();
    lemma_lit_split(s, q6, e_data, t7);
    lemma_dec_enc_keyseq(s, q6, r.data);
    let q7 = q6 + e_data.len();
    lemma_lit_split(s, q7, k_value_bytes(), t8);
    let q8 = q7 + k_value_bytes().len();
    lemma_lit_split(s, q8, e_vb, t9);
    lemma_dec_enc_u64(s, q8, r.value_bytes);
    let q9 = q8 + e_vb.len();
    lemma_lit_split(s, q9, k_count(), t10);
    let q10 = q9 + k_count().len();
    lemma_lit_split(s, q10, e_count, t11);
    lemma_dec_enc_opt_u64(s, q10, r.count);
    let q11 = q10 + e_count.len();
    lemma_lit_split(s, q11, k_level(), t12);
    let q12 = q11 + k_level().len();
    lemma_lit_split(s, q12, e_level, t13);
    lemma_dec_enc_opt_u32(s, q12, r.level);
    let q13 = q12 + e_level.len();
    lemma_lit_split(s, q13, k_key_bytes(), t14);
    let q14 = q13 + k_key_bytes().len();
    lemma_dec_enc_opt_u64(s, q14, r.key_bytes);
}

/// Every record in `rs` has a key run short enough to carry a count.
pub open spec fn records_bounded(rs: Seq<IndexRecordV>) -> bool {
    forall|i: int| 0 <= i < rs.len() ==> #[trigger] rs[i].data.len() <= u64::MAX
}

#[verifier::spinoff_prover]
#[verifier::rlimit(100)]
pub proof fn lemma_dec_enc_record_list(s: Seq<u8>, pos: int, rs: Seq<IndexRecordV>)
    requires
        has_lit(s, pos, enc_record_items(rs) + seq![0xffu8]),
        records_bounded(rs),
    ensures
        dec_record_list(s, pos) == Some((rs, pos + enc_record_items(rs).len() + 1)),
    decreases rs.len(),
{
    if rs.len() == 0 {
        lemma_lit_first(s, pos, seq![0xffu8]);
    } else {
        let rest = rs.drop_first();
        assert(enc_record_items(rs) + seq![0xffu8] =~= enc_record(rs[0]) + (enc_record_items(rest)
            + seq![0xffu8]));
        lemma_lit_split(s, pos, enc_record(rs[0]), enc_record_items(rest) + seq![0xffu8]);
        lemma_dec_enc_record(s, pos, rs[0]);
        lemma_lit_first(s, pos, enc_record(rs[0]));
        let p1 = pos + enc_record(rs[0]).len();
        assert(records_bounded(rest)) by {
            assert(forall|i: int|
                0 <= i < rest.len() ==> #[trigger] rest[i].data.len() == rs[i + 1].data.len());
        }
        lemma_dec_enc_record_list(s, p1, rest);
        assert(seq![rs[0]] + rest =~= rs);
    }
}

pub proof fn lemma_dec_enc_records(s: Seq<u8>, pos: int, rs: Seq<IndexRecordV>)
    requires
        has_lit(s, pos, enc_records(rs)),
        records_bounded(rs),
    ensures
        dec_records(s, pos) == Some((rs, pos + enc_records(rs).len())),
{
    lemma_lit_split(s, pos, seq![0x9fu8], enc_record_items(rs) + seq![0xffu8]);
    lemma_lit_first(s, pos, seq![0x9fu8]);
    lemma_dec_enc_record_list(s, pos + 1, rs);
}

#[verifier::spinoff_prover]
#[verifier::rlimit(100)]
proof fn lemma_dec_enc_outer_parts(s: Seq<u8>, cids: Seq<Link>, blob: Seq<u8>)
    requires
        s == enc_outer(cids, blob),
        cids.len() <= u64::MAX,
        blob.len() <= u64::MAX,
    ensures
        s.len() > 0,
        s[0] == 0x82u8,
        dec_links(s, 1) == Some((cids, 1 + enc_links(cids).len() as int)),
        1 + enc_links(cids).len() < s.len(),
        s[1 + enc_links(cids).len() as int] == 0x5bu8,
        dec_u64_arg(s, 2 + enc_links(cids).len() as int) == Some(
            (blob.len() as u64, 10 + enc_links(cids).len() as int),
        ),
        10 + enc_links(cids).len() as int + blob.len() as int <= s.len(),
        s.subrange(
            10 + enc_links(cids).len() as int,
            10 + enc_links(cids).len() as int + blob.len() as int,
        ) == blob,
{
    let tail = seq![0x5bu8] + (u64_be_bytes(blob.len() as u64) + blob);
    assert(has_lit(s, 0, seq![0x82u8] + (enc_links(cids) + tail))) by {
        assert(s.subrange(0, s.len() as int) =~= s);
    }
    lemma_lit_split(s, 0, seq![0x82u8], enc_links(cids) + tail);
    lemma_lit_first(s, 0, seq![0x82u8]);
    lemma_lit_split(s, 1, enc_links(cids), tail);
    lemma_dec_enc_links(s, 1, cids);
    let p1: int = 1 + enc_links(cids).len() as int;
    lemma_lit_split(s, p1, seq![0x5bu8], u64_be_bytes(blob.len() as u64) + blob);
    lemma_lit_first(s, p1, seq![0x5bu8]);
    lemma_lit_split(s, p1 + 1, u64_be_bytes(blob.len() as u64), blob);
    lemma_dec_enc_u64_arg(s, p1 + 1, blob.len() as u64);
}

#[verifier::spinoff_prover]
pub proof fn lemma_dec_enc_outer(s: Seq<u8>, cids: Seq<Link>, blob: Seq<u8>)
    requires
        s == enc_outer(cids, blob),
        cids.len() <= u64::MAX,
        blob.len() <= u64::MAX,
    ensures
        dec_outer(s) == Some((cids, blob)),
{
    lemma_dec_enc_outer_parts(s, cids, blob);
}

// ---------------------------------------------------------------------
// Executable encoders: each appends exactly the spec encoding.
// ---------------------------------------------------------------------
/// Appending one more element extends the element run at its end.
pub proof fn lemma_enc_key_items_snoc(s: Seq<Key>, x: Key)
    ensures
        enc_key_items(s.push(x)) == enc_key_items(s) + enc_key(x),
    decreases s.len(),
{
    if s.len() == 0 {
        assert(s.push(x)[0] == x);
        assert(s.push(x).drop_first() =~= Seq::<Key>::empty());
        assert(enc_key_items(s) + enc_key(x) =~= enc_key(x) + enc_key_items(
            s.push(x).drop_first(),
        ));
    } else {
        assert(s.push(x).drop_first() =~= s.drop_first().push(x));
        lemma_enc_key_items_snoc(s.drop_first(), x);
        assert(enc_key_items(s.push(x)) =~= enc_key_items(s) + enc_key(x));
    }
}

/// Appending one more link extends the link run at its end.
pub proof fn lemma_enc_link_items_snoc(s: Seq<Link>, x: Link)
    ensures
        enc_link_items(s.push(x)) == enc_link_items(s) + enc_link(x),
    decreases s.len(),
{
    if s.len() == 0 {
        assert(s.push(x)[0] == x);
        assert(s.push(x).drop_first() =~= Seq::<Link>::empty());
        assert(enc_link_items(s) + enc_link(x) =~= enc_link(x) + enc_link_items(
            s.push(x).drop_first(),
        ));
    } else {
        assert(s.push(x).drop_first() =~= s.drop_first().push(x));
        lemma_enc_link_items_snoc(s.drop_first(), x);
        assert(enc_link_items(s.push(x)) =~= enc_link_items(s) + enc_link(x));
    }
}

/// Appending one more record extends the record run at its end.
pub proof fn lemma_enc_record_items_snoc(s: Seq<IndexRecordV>, x: IndexRecordV)
    ensures
        enc_record_items(s.push(x)) == enc_record_items(s) + enc_record(x),
    decreases s.len(),
{
    if s.len() == 0 {
        assert(s.push(x)[0] == x);
        assert(s.push(x).drop_first() =~= Seq::<IndexRecordV>::empty());
        assert(enc_record_items(s) + enc_record(x) =~= enc_record(x) + enc_record_items(
            s.push(x).drop_first(),
        ));
    } else {
        assert(s.push(x).drop_first() =~= s.drop_first().push(x));
        lemma_enc_record_items_snoc(s.drop_first(), x);
        assert(enc_record_items(s.push(x)) =~= enc_record_items(s) + enc_record(x));
    }
}

/// Appends every byte of `lit` to `out`.
pub fn push_lit(out: &mut Vec<u8>, lit: &Vec<u8>)
    ensures
        final(out)@ == old(out)@ + lit@,
{
    let mut i: usize = 0;
    while i < lit.len()
        invariant
            0 <= i <= lit@.len(),
            out@ == old(out)@ + lit@.take(i as int),
        decreases lit@.len() - i,
    {
        out.push(lit[i]);
        proof {
            assert(lit@.take(i + 1) =~= lit@.take(i as int).push(lit@[i as int]));
            assert(old(out)@ + lit@.take(i + 1) =~= (old(out)@ + lit@.take(i as int)).push(
                lit@[i as int],
            ));
        }
        i = i + 1;
    }
    proof {
        assert(lit@.take(lit@.len() as int) =~= lit@);
    }
}

/// Appends a boolean item.
pub fn push_bool(out: &mut Vec<u8>, b: bool)
    ensures
        final(out)@ == old(out)@ + enc_bool(b),
{
    if b {
        out.push(0xf5u8);
    } else {
        out.push(0xf4u8);
    }
    proof {
        assert(final(out)@ =~= old(out)@ + enc_bool(b));
    }
}

/// Appends an unsigned item with a 64-bit argument.
pub fn push_u64c(out: &mut Vec<u8>, v: u64)
    ensures
        final(out)@ == old(out)@ + enc_u64(v),
{
    out.push(0x1bu8);
    crate::links::push_u64_be(out, v);
    proof {
        assert(final(out)@ =~= old(out)@ + enc_u64(v));
    }
}

/// Appends an optional unsigned item, `null` when absent.
pub fn push_opt_u64(out: &mut Vec<u8>, v: &Option<u64>)
    ensures
        final(out)@ == old(out)@ + enc_opt_u64(*v),
{
    match v {
        None => {
            out.push(0xf6u8);
            proof {
                assert(final(out)@ =~= old(out)@ + enc_null());
            }
        },
        Some(x) => {
            push_u64c(out, *x);
        },
    }
}

/// Appends an optional 32-bit item, `null` when absent.
pub fn push_opt_u32(out: &mut Vec<u8>, v: &Option<u32>)
    ensures
        final(out)@ == old(out)@ + enc_opt_u32(*v),
{
    match v {
        None => {
            out.push(0xf6u8);
            proof {
                assert(final(out)@ =~= old(out)@ + enc_null());
            }
        },
        Some(x) => {
            push_u64c(out, *x as u64);
        },
    }
}

/// Appends a key as a three-element array.
pub fn push_key(out: &mut Vec<u8>, k: &Key)
    ensures
        final(out)@ == old(out)@ + enc_key(*k),
{
    out.push(0x83u8);
    push_u64c(out, k.min_lamport);
    push_u64c(out, k.min_time);
    push_u64c(out, k.max_time);
    proof {
        assert(final(out)@ =~= old(out)@ + enc_key(*k));
    }
}

/// Appends a run of keys with its count.
pub fn push_keyseq(out: &mut Vec<u8>, ks: &Vec<Key>)
    ensures
        final(out)@ == old(out)@ + enc_keyseq(ks@),
{
    out.push(0x9bu8);
    crate::links::push_u64_be(out, ks.len() as u64);
    let ghost mid = out@;
    let mut i: usize = 0;
    while i < ks.len()
        invariant
            0 <= i <= ks@.len(),
            out@ == mid + enc_key_items(ks@.take(i as int)),
        decreases ks@.len() - i,
    {
        push_key(out, &ks[i]);
        proof {
            assert(ks@.take(i + 1) =~= ks@.take(i as int).push(ks@[i as int]));
            lemma_enc_key_items_snoc(ks@.take(i as int), ks@[i as int]);
            assert(mid + enc_key_items(ks@.take(i + 1)) =~= (mid + enc_key_items(
                ks@.take(i as int),
            )) + enc_key(ks@[i as int]));
        }
        i = i + 1;
    }
    proof {
        assert(ks@.take(ks@.len() as int) =~= ks@);
        assert(final(out)@ =~= old(out)@ + enc_keyseq(ks@));
    }
}

/// Appends a link with its byte-string header.
pub fn push_link(out: &mut Vec<u8>, l: &Link)
    ensures
        final(out)@ == old(out)@ + enc_link(*l),
{
    out.push(0x58u8);
    out.push(32u8);
    l.push_bytes(out);
    proof {
        assert(final(out)@ =~= old(out)@ + enc_link(*l));
    }
}

/// Appends the CID list with its count.
pub fn push_links(out: &mut Vec<u8>, ls: &Vec<Link>)
    ensures
        final(out)@ == old(out)@ + enc_links(ls@),
{
    out.push(0x9bu8);
    crate::links::push_u64_be(out, ls.len() as u64);
    let ghost mid = out@;
    let mut i: usize = 0;
    while i < ls.len()
        invariant
            0 <= i <= ls@.len(),
            out@ == mid + enc_link_items(ls@.take(i as int)),
        decreases ls@.len() - i,
    {
        push_link(out, &ls[i]);
        proof {
            assert(ls@.take(i + 1) =~= ls@.take(i as int).push(ls@[i as int]));
            lemma_enc_link_items_snoc(ls@.take(i as int), ls@[i as int]);
            assert(mid + enc_link_items(ls@.take(i + 1)) =~= (mid + enc_link_items(
                ls@.take(i as int),
            )) + enc_link(ls@[i as int]));
        }
        i = i + 1;
    }
    proof {
        assert(ls@.take(ls@.len() as int) =~= ls@);
        assert(final(out)@ =~= old(out)@ + enc_links(ls@));
    }
}

/// The text key `sealed`, as a vector.
pub fn lit_sealed() -> (r: Vec<u8>)
    ensures
        r@ == k_sealed(),
{
    let mut v: Vec<u8> = Vec::new();
    v.push(0x66u8);
    v.push(115u8);
    v.push(101u8);
    v.push(97u8);
    v.push(108u8);
    v.push(101u8);
    v.push(100u8);
    proof {
        assert(v@ =~= k_sealed());
    }
    v
}

/// The text key `purged`, as a vector.
pub fn lit_purged() -> (r: Vec<u8>)
    ensures
        r@ == k_purged(),
{
    let mut v: Vec<u8> = Vec::new();
    v.push(0x66u8);
    v.push(112u8);
    v.push(117u8);
    v.push(114u8);
    v.push(103u8);
    v.push(101u8);
    v.push(100u8);
    proof {
        assert(v@ =~= k_purged());
    }
    v
}

/// The text key `data`, as a vector.
pub fn lit_data() -> (r: Vec<u8>)
    ensures
        r@ == k_data(),
{
    let mut v: Vec<u8> = Vec::new();
    v.push(0x64u8);
    v.push(100u8);
    v.push(97u8);
    v.push(116u8);
    v.push(97u8);
    proof {
        assert(v@ =~= k_data());
    }
    v
}

/// The text key `value_bytes`, as a vector.
pub fn lit_value_bytes() -> (r: Vec<u8>)
    ensures
        r@ == k_value_bytes(),
{
    let mut v: Vec<u8> = Vec::new();
    v.push(0x6bu8);
    v.push(118u8);
    v.push(97u8);
    v.push(108u8);
    v.push(117u8);
    v.push(101u8);
    v.push(95u8);
    v.push(98u8);
    v.push(121u8);
    v.push(116u8);
    v.push(101u8);
    v.push(115u8);
    proof {
        assert(v@ =~= k_value_bytes());
    }
    v
}

/// The text key `count`, as a vector.
pub fn lit_count() -> (r: Vec<u8>)
    ensures
        r@ == k_count(),
{
    let mut v: Vec<u8> = Vec::new();
    v.push(0x65u8);
    v.push(99u8);
    v.push(111u8);
    v.push(117u8);
    v.push(110u8);
    v.push(116u8);
    proof {
        assert(v@ =~= k_count());
    }
    v
}

/// The text key `level`, as a vector.
pub fn lit_level() -> (r: Vec<u8>)
    ensures
        r@ == k_level(),
{
    let mut v: Vec<u8> = Vec::new();
    v.push(0x65u8);
    v.push(108u8);
    v.push(101u8);
    v.push(118u8);
    v.push(101u8);
    v.push(108u8);
    proof {
        assert(v@ =~= k_level());
    }
    v
}

/// The text key `key_bytes`, as a vector.
pub fn lit_key_bytes() -> (r: Vec<u8>)
    ensures
        r@ == k_key_bytes(),
{
    let mut v: Vec<u8> = Vec::new();
    v.push(0x69u8);
    v.push(107u8);
    v.push(101u8);
    v.push(121u8);
    v.push(95u8);
    v.push(98u8);
    v.push(121u8);
    v.push(116u8);
    v.push(101u8);
    v.push(115u8);
    proof {
        assert(v@ =~= k_key_bytes());
    }
    v
}

/// Appends one per-child record as a seven-entry map.
#[verifier::rlimit(100)]
pub fn push_record(out: &mut Vec<u8>, r: &crate::index::IndexRecord)
    ensures
        final(out)@ == old(out)@ + enc_record(r@),
{
    out.push(0xa7u8);
    let lit = lit_sealed();
    push_lit(out, &lit);
    push_bool(out, r.sealed);
    let lit = lit_purged();
    push_lit(out, &lit);
    push_bool(out, r.purged);
    let lit = lit_data();
    push_lit(out, &lit);
    push_keyseq(out, &r.data.0);
    let lit = lit_value_bytes();
    push_lit(out, &lit);
    push_u64c(out, r.value_bytes);
    let lit = lit_count();
    push_lit(out, &lit);
    push_opt_u64(out, &r.count);
    let lit = lit_level();
    push_lit(out, &lit);
    push_opt_u32(out, &r.level);
    let lit = lit_key_bytes();
    push_lit(out, &lit);
    push_opt_u64(out, &r.key_bytes);
    proof {
        assert(final(out)@ =~= old(out)@ + enc_record(r@));
    }
}

// ---------------------------------------------------------------------
// Executable decoders: each returns exactly what the spec decoder says.
// ---------------------------------------------------------------------
/// Tests whether `lit` stands at `pos` of `s`.
pub fn check_lit(s: &[u8], pos: usize, lit: &Vec<u8>) -> (r: bool)
    ensures
        r == has_lit(s@, pos as int, lit@),
{
    let n: usize = s.len();
    if pos > n || n - pos < lit.len() {
        return false;
    }
    let mut i: usize = 0;
    while i < lit.len()
        invariant
            0 <= i <= lit@.len(),
            pos + lit@.len() <= n,
            n == s@.len(),
            forall|j: int| 0 <= j < i ==> s@[pos + j] == lit@[j],
        decreases lit@.len() - i,
    {
        if s[pos + i] != lit[i] {
            proof {
                assert(s@.subrange(pos as int, pos + lit@.len())[i as int] == s@[pos + i]);
            }
            return false;
        }
        i = i + 1;
    }
    proof {
        assert(s@.subrange(pos as int, pos + lit@.len()) =~= lit@);
    }
    true
}

/// Reads a boolean item.
fn read_bool(s: &[u8], pos: usize) -> (r: Option<(bool, usize)>)
    ensures
        match r {
            Some((v, p)) => dec_bool(s@, pos as int) == Some((v, p as int)) && pos < p <= s@.len(),
            None => dec_bool(s@, pos as int) is None,
        },
{
    if pos < s.len() && s[pos] == 0xf4u8 {
        Some((false, pos + 1))
    } else if pos < s.len() && s[pos] == 0xf5u8 {
        Some((true, pos + 1))
    } else {
        None
    }
}

/// Reads an unsigned item with a 64-bit argument.
pub(crate) fn read_u64c(s: &[u8], pos: usize) -> (r: Option<(u64, usize)>)
    ensures
        match r {
            Some((v, p)) => dec_u64(s@, pos as int) == Some((v, p as int)) && pos < p <= s@.len(),
            None => dec_u64(s@, pos as int) is None,
        },
{
    let n: usize = s.len();
    if pos < n && n - pos >= 9 && s[pos] == 0x1bu8 {
        let v = crate::links::read_u64_be(s, pos + 1);
        Some((v, pos + 9))
    } else {
        None
    }
}

/// Reads an optional unsigned item.
fn read_opt_u64(s: &[u8], pos: usize) -> (r: Option<(Option<u64>, usize)>)
    ensures
        match r {
            Some((v, p)) => dec_opt_u64(s@, pos as int) == Some((v, p as int)) && pos < p
                <= s@.len(),
            None => dec_opt_u64(s@, pos as int) is None,
        },
{
    if pos < s.len() && s[pos] == 0xf6u8 {
        Some((None, pos + 1))
    } else {
        match read_u64c(s, pos) {
            Some((v, p)) => Some((Some(v), p)),
            None => None,
        }
    }
}

/// Reads an optional 32-bit item.
fn read_opt_u32(s: &[u8], pos: usize) -> (r: Option<(Option<u32>, usize)>)
    ensures
        match r {
            Some((v, p)) => dec_opt_u32(s@, pos as int) == Some((v, p as int)) && pos < p
                <= s@.len(),
            None => dec_opt_u32(s@, pos as int) is None,
        },
{
    if pos < s.len() && s[pos] == 0xf6u8 {
        Some((None, pos + 1))
    } else {
        match read_u64c(s, pos) {
            Some((v, p)) => if v <= 0xffff_ffffu64 {
                Some((Some(v as u32), p))
            } else {
                None
            },
            None => None,
        }
    }
}

/// Reads a key.
fn read_key(s: &[u8], pos: usize) -> (r: Option<(Key, usize)>)
    ensures
        match r {
            Some((v, p)) => dec_key(s@, pos as int) == Some((v, p as int)) && pos < p <= s@.len(),
            None => dec_key(s@, pos as int) is None,
        },
{
    if pos < s.len() && s[pos] == 0x83u8 {
        match read_u64c(s, pos + 1) {
            Some((a, p1)) => match read_u64c(s, p1) {
                Some((b, p2)) => match read_u64c(s, p2) {
                    Some((c, p3)) => Some((Key { min_lamport: a, min_time: b, max_time: c }, p3)),
                    None => None,
                },
                None => None,
            },
            None => None,
        }
    } else {
        None
    }
}

/// Reads `n` keys in a row.
fn read_key_items(s: &[u8], pos: usize, n: u64) -> (r: Option<(Vec<Key>, usize)>)
    requires
        pos <= s@.len(),
    ensures
        match r {
            Some((ks, p)) => dec_key_items(s@, pos as int, n as nat) == Some((ks@, p as int))
                && pos <= p <= s@.len(),
            None => dec_key_items(s@, pos as int, n as nat) is None,
        },
{
    let mut acc: Vec<Key> = Vec::new();
    let mut cur: usize = pos;
    let mut i: u64 = 0;
    while i < n
        invariant
            0 <= i <= n,
            pos <= cur <= s@.len(),
            dec_key_items(s@, pos as int, n as nat) == (match dec_key_items(
                s@,
                cur as int,
                (n - i) as nat,
            ) {
                Some((ks, p)) => Some((acc@ + ks, p)),
                None => None::<(Seq<Key>, int)>,
            }),
        decreases n - i,
    {
        match read_key(s, cur) {
            Some((k, p1)) => {
                proof {
                    let m = (n - i) as nat;
                    if dec_key_items(s@, p1 as int, (m - 1) as nat) is Some {
                        let (ks2, pend) = dec_key_items(s@, p1 as int, (m - 1) as nat)->Some_0;
                        assert(dec_key_items(s@, cur as int, m) == Some((seq![k] + ks2, pend)));
                        assert(acc@ + (seq![k] + ks2) =~= acc@.push(k) + ks2);
                    }
                }
                acc.push(k);
                cur = p1;
            },
            None => {
                proof {
                    assert(dec_key_items(s@, cur as int, (n - i) as nat) is None);
                }
                return None;
            },
        }
        i = i + 1;
    }
    proof {
        assert(dec_key_items(s@, cur as int, 0) == Some((Seq::<Key>::empty(), cur as int)));
        assert(acc@ + Seq::<Key>::empty() =~= acc@);
    }
    Some((acc, cur))
}

/// Reads a run of keys with its count.
fn read_keyseq(s: &[u8], pos: usize) -> (r: Option<(Vec<Key>, usize)>)
    ensures
        match r {
            Some((ks, p)) => dec_keyseq(s@, pos as int) == Some((ks@, p as int)) && pos < p
                <= s@.len(),
            None => dec_keyseq(s@, pos as int) is None,
        },
{
    let n: usize = s.len();
    if pos < n && s[pos] == 0x9bu8 {
        if n - pos >= 9 {
            let cnt = crate::links::read_u64_be(s, pos + 1);
            read_key_items(s, pos + 9, cnt)
        } else {
            None
        }
    } else {
        None
    }
}

/// Reads a link.
fn read_link(s: &[u8], pos: usize) -> (r: Option<(Link, usize)>)
    ensures
        match r {
            Some((v, p)) => dec_link(s@, pos as int) == Some((v, p as int)) && pos < p <= s@.len(),
            None => dec_link(s@, pos as int) is None,
        },
{
    let n: usize = s.len();
    if pos < n && n - pos >= 34 && s[pos] == 0x58u8 && s[pos + 1] == 32u8 {
        let l = Link::read_bytes(s, pos + 2);
        Some((l, pos + 34))
    } else {
        None
    }
}

/// Reads `n` links in a row.
fn read_link_items(s: &[u8], pos: usize, n: u64) -> (r: Option<(Vec<Link>, usize)>)
    requires
        pos <= s@.len(),
    ensures
        match r {
            Some((ls, p)) => dec_link_items(s@, pos as int, n as nat) == Some((ls@, p as int))
                && pos <= p <= s@.len(),
            None => dec_link_items(s@, pos as int, n as nat) is None,
        },
{
    let mut acc: Vec<Link> = Vec::new();
    let mut cur: usize = pos;
    let mut i: u64 = 0;
    while i < n
        invariant
            0 <= i <= n,
            pos <= cur <= s@.len(),
            dec_link_items(s@, pos as int, n as nat) == (match dec_link_items(
                s@,
                cur as int,
                (n - i) as nat,
            ) {
                Some((ls, p)) => Some((acc@ + ls, p)),
                None => None::<(Seq<Link>, int)>,
            }),
        decreases n - i,
    {
        match read_link(s, cur) {
            Some((l, p1)) => {
                proof {
                    let m = (n - i) as nat;
                    if dec_link_items(s@, p1 as int, (m - 1) as nat) is Some {
                        let (ls2, pend) = dec_link_items(s@, p1 as int, (m - 1) as nat)->Some_0;
                        assert(dec_link_items(s@, cur as int, m) == Some((seq![l] + ls2, pend)));
                        assert(acc@ + (seq![l] + ls2) =~= acc@.push(l) + ls2);
                    }
                }
                acc.push(l);
                cur = p1;
            },
            None => {
                proof {
                    assert(dec_link_items(s@, cur as int, (n - i) as nat) is None);
                }
                return None;
            },
        }
        i = i + 1;
    }
    proof {
        assert(dec_link_items(s@, cur as int, 0) == Some((Seq::<Link>::empty(), cur as int)));
        assert(acc@ + Seq::<Link>::empty() =~= acc@);
    }
    Some((acc, cur))
}

/// Reads the CID list with its count.
fn read_links(s: &[u8], pos: usize) -> (r: Option<(Vec<Link>, usize)>)
    ensures
        match r {
            Some((ls, p)) => dec_links(s@, pos as int) == Some((ls@, p as int)) && pos < p
                <= s@.len(),
            None => dec_links(s@, pos as int) is None,
        },
{
    let n: usize = s.len();
    if pos < n && s[pos] == 0x9bu8 {
        if n - pos >= 9 {
            let cnt = crate::links::read_u64_be(s, pos + 1);
            read_link_items(s, pos + 9, cnt)
        } else {
            None
        }
    } else {
        None
    }
}

/// Reads one per-child record.
#[verifier::rlimit(100)]
pub fn read_record(s: &[u8], pos: usize) -> (r: Option<(crate::index::IndexRecord, usize)>)
    ensures
        match r {
            Some((v, p)) => dec_record(s@, pos as int) == Some((v@, p as int)) && pos < p
                <= s@.len(),
            None => dec_record(s@, pos as int) is None,
        },
{
    if !(pos < s.len() && s[pos] == 0xa7u8) {
        return None;
    }
    let lit = lit_sealed();
    if !check_lit(s, pos + 1, &lit) {
        return None;
    }
    let p0 = pos + 1 + lit.len();
    let (sealed, p1) = match read_bool(s, p0) {
        Some(x) => x,
        None => {
            return None;
        },
    };
    let lit = lit_purged();
    if !check_lit(s, p1, &lit) {
        return None;
    }
    let (purged, p2) = match read_bool(s, p1 + lit.len()) {
        Some(x) => x,
        None => {
            return None;
        },
    };
    let lit = lit_data();
    if !check_lit(s, p2, &lit) {
        return None;
    }
    let (data, p3) = match read_keyseq(s, p2 + lit.len()) {
        Some(x) => x,
        None => {
            return None;
        },
    };
    let lit = lit_value_bytes();
    if !check_lit(s, p3, &lit) {
        return None;
    }
    let (value_bytes, p4) = match read_u64c(s, p3 + lit.len()) {
        Some(x) => x,
        None => {
            return None;
        },
    };
    let lit = lit_count();
    if !check_lit(s, p4, &lit) {
        return None;
    }
    let (count, p5) = match read_opt_u64(s, p4 + lit.len()) {
        Some(x) => x,
        None => {
            return None;
        },
    };
    let lit = lit_level();
    if !check_lit(s, p5, &lit) {
        return None;
    }
    let (level, p6) = match read_opt_u32(s, p5 + lit.len()) {
        Some(x) => x,
        None => {
            return None;
        },
    };
    let lit = lit_key_bytes();
    if !check_lit(s, p6, &lit) {
        return None;
    }
    let (key_bytes, p7) = match read_opt_u64(s, p6 + lit.len()) {
        Some(x) => x,
        None => {
            return None;
        },
    };
    let rec = crate::index::IndexRecord {
        sealed,
        purged,
        data: crate::compactseq::SimpleCompactSeq(data),
        value_bytes,
        count,
        level,
        key_bytes,
    };
    proof {
        assert(rec@ == (IndexRecordV {
            sealed,
            purged,
            data: data@,
            value_bytes,
            count,
            level,
            key_bytes,
        }));
        assert(dec_record(s@, pos as int) == Some((rec@, p7 as int)));
    }
    Some((rec, p7))
}

/// The views of a vector of records, in order.
pub open spec fn record_views(v: Seq<crate::index::IndexRecord>) -> Seq<IndexRecordV> {
    v.map_values(|x: crate::index::IndexRecord| x@)
}

/// Reads the record array up to and including the break byte.
#[verifier::spinoff_prover]
#[verifier::rlimit(100)]
pub fn read_records(s: &[u8], pos: usize) -> (r: Option<(Vec<crate::index::IndexRecord>, usize)>)
    ensures
        match r {
            Some((v, p)) => dec_records(s@, pos as int) == Some((record_views(v@), p as int)),
            None => dec_records(s@, pos as int) is None,
        },
{
    if !(pos < s.len() && s[pos] == 0x9fu8) {
        return None;
    }
    let mut acc: Vec<crate::index::IndexRecord> = Vec::new();
    let mut cur: usize = pos + 1;
    loop
        invariant
            pos < s@.len(),
            s@[pos as int] == 0x9fu8,
            pos < cur <= s@.len() || cur == pos + 1,
            dec_record_list(s@, (pos + 1) as int) == (match dec_record_list(s@, cur as int) {
                Some((rs, p)) => Some((record_views(acc@) + rs, p)),
                None => None::<(Seq<IndexRecordV>, int)>,
            }),
        decreases s@.len() - cur,
    {
        if cur >= s.len() {
            proof {
                assert(dec_record_list(s@, cur as int) is None);
            }
            return None;
        }
        if s[cur] == 0xffu8 {
            proof {
                assert(dec_record_list(s@, cur as int) == Some(
                    (Seq::<IndexRecordV>::empty(), cur + 1),
                ));
                assert(record_views(acc@) + Seq::<IndexRecordV>::empty() =~= record_views(acc@));
            }
            return Some((acc, cur + 1));
        }
        match read_record(s, cur) {
            Some((rec, p1)) => {
                proof {
                    if dec_record_list(s@, p1 as int) is Some {
                        let (rs2, pend) = dec_record_list(s@, p1 as int)->Some_0;
                        assert(dec_record_list(s@, cur as int) == Some((seq![rec@] + rs2, pend)));
                        assert(record_views(acc@.push(rec)) =~= record_views(acc@).push(rec@));
                        assert(record_views(acc@) + (seq![rec@] + rs2) =~= record_views(
                            acc@.push(rec),
                        ) + rs2);
                    } else {
                        assert(dec_record_list(s@, cur as int) is None);
                    }
                }
                acc.push(rec);
                cur = p1;
            },
            None => {
                proof {
                    assert(dec_record_list(s@, cur as int) is None);
                }
                return None;
            },
        }
    }
}

/// Reads the outer pair: the CID list and the byte-string blob.
pub fn read_outer(s: &[u8]) -> (r: Option<(Vec<Link>, Vec<u8>)>)
    ensures
        match r {
            Some((ls, blob)) => dec_outer(s@) == Some((ls@, blob@)),
            None => dec_outer(s@) is None,
        },
{
    let n: usize = s.len();
    if !(n > 0 && s[0] == 0x82u8) {
        return None;
    }
    let (links, p1) = match read_links(s, 1) {
        Some(x) => x,
        None => {
            return None;
        },
    };
    if !(p1 < n && s[p1] == 0x5bu8) {
        return None;
    }
    if n - p1 < 9 {
        return None;
    }
    let blen = crate::links::read_u64_be(s, p1 + 1);
    let p2 = p1 + 9;
    if blen > (n - p2) as u64 {
        return None;
    }
    let blen_us = blen as usize;
    let mut blob: Vec<u8> = Vec::new();
    let mut i: usize = 0;
    while i < blen_us
        invariant
            0 <= i <= blen_us,
            p2 + blen_us <= n,
            n == s@.len(),
            blob@ == s@.subrange(p2 as int, p2 + i),
        decreases blen_us - i,
    {
        blob.push(s[p2 + i]);
        proof {
            assert(s@.subrange(p2 as int, p2 + i + 1) =~= s@.subrange(p2 as int, p2 + i).push(
                s@[p2 + i],
            ));
        }
        i = i + 1;
    }
    Some((links, blob))
}

} // verus!
