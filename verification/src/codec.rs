//! The index block codec: serialize a vector of indices into a CBOR pair
//! of the external CID list and an encrypted, compressed record array;
//! and read such a pair back.
//!
//! The byte string holds a 24-byte nonce followed by a zstd frame of the
//! CBOR record array, enciphered with XSalsa20 from byte 24 on. Links of
//! non-purged children stand in the outer list, in child order, and are
//! re-attached on reading.

use crate::cbor::{
    dec_outer, dec_records, enc_outer, enc_record, enc_record_items, enc_records, has_lit, lemma_dec_enc_outer,
    lemma_dec_enc_records, lemma_enc_record_items_snoc, push_links, push_lit, push_record,
    read_outer, read_records, record_views, records_bounded,
};
use crate::error::Error;
use crate::index::{
    index_of_record, record_consistent, record_of, Index, IndexRecord, IndexRecordV, IndexV,
};
use crate::links::{push_u64_be, Link};
use salsa20::cipher::KeyIvInit;
use salsa20::cipher::StreamCipher;
use std::collections::VecDeque;
use vstd::prelude::*;

verus! {

/// What zstd makes of `data` at compression level `level`: the result
/// depends on the bytes and the level alone.
pub uninterp spec fn zstd_of(data: Seq<u8>, level: i32) -> Seq<u8>;

/// What zstd decompression makes of `data`: the decoded bytes, or
/// nothing when `data` is not a whole valid frame. The result depends
/// on the bytes alone.
pub uninterp spec fn unzstd_of(data: Seq<u8>) -> Option<Seq<u8>>;

/// What the XSalsa20 keystream for `key` and `nonce` makes of `data`:
/// the result depends on those three alone.
pub uninterp spec fn xsalsa20_of(key: Seq<u8>, nonce: Seq<u8>, data: Seq<u8>) -> Seq<u8>;

/// Relies on zstd::stream::encode_all: one frame from the whole input,
/// a function of the bytes and the level alone. Out-of-range levels are
/// clamped, and compressing an in-memory buffer cannot otherwise fail,
/// so the call returns its frame.
#[verifier::external_body]
pub(crate) fn zstd_compress(data: &Vec<u8>, level: i32) -> (r: Vec<u8>)
    ensures
        r@ == zstd_of(data@, level),
{
    zstd::stream::encode_all(&data[..], level).expect("in-memory compression does not fail")
}

/// Relies on zstd::stream::decode_all: decoding is a function of the
/// frame bytes alone, and decompression is lossless, so a frame
/// compressed from some input decodes to that input again.
#[verifier::external_body]
pub(crate) fn zstd_decompress(data: &Vec<u8>) -> (r: Result<Vec<u8>, Error>)
    ensures
        r is Ok ==> unzstd_of(data@) == Some(r->Ok_0@),
        r is Err ==> unzstd_of(data@) is None && r->Err_0 == Error::DecryptOrDecompress,
        forall|b: Seq<u8>, l: i32|
            data@ == #[trigger] zstd_of(b, l) ==> r is Ok && r->Ok_0@ == b,
{
    match zstd::stream::decode_all(&data[..]) {
        Ok(v) => Ok(v),
        Err(_) => Err(Error::DecryptOrDecompress),
    }
}

/// Relies on salsa20's XSalsa20 through cipher::StreamCipher::
/// apply_keystream: it XORs a keystream drawn from the key and nonce
/// alone into the data, so it keeps the length and undoes itself.
#[verifier::external_body]
fn xsalsa20_apply(key: &[u8], nonce: &[u8], data: &mut Vec<u8>)
    requires
        key@.len() == 32,
        nonce@.len() == 24,
    ensures
        final(data)@ == xsalsa20_of(key@, nonce@, old(data)@),
        final(data)@.len() == old(data)@.len(),
        forall|d: Seq<u8>|
            old(data)@ == #[trigger] xsalsa20_of(key@, nonce@, d) ==> final(data)@ == d,
{
    let key_arr: [u8; 32] = key.try_into().unwrap();
    let nonce_arr: [u8; 24] = nonce.try_into().unwrap();
    let mut cipher = salsa20::XSalsa20::new((&key_arr).into(), (&nonce_arr).into());
    cipher.apply_keystream(data.as_mut_slice());
}

/// The views of a vector of indices, in order.
pub open spec fn view_seq(items: Seq<Index>) -> Seq<IndexV> {
    items.map_values(|x: Index| x@)
}

/// The wire records of the indices, in order.
pub open spec fn records_of(items: Seq<IndexV>) -> Seq<IndexRecordV> {
    items.map_values(|i: IndexV| record_of(i))
}

/// The links of the non-purged indices, in child order.
pub open spec fn cids_of(items: Seq<IndexV>) -> Seq<Link>
    decreases items.len(),
{
    if items.len() == 0 {
        Seq::empty()
    } else {
        (match items[0].cid() {
            Some(c) => seq![c],
            None => Seq::empty(),
        }) + cids_of(items.drop_first())
    }
}

/// Appending one more index extends the link list by its link, if any.
pub proof fn lemma_cids_of_snoc(items: Seq<IndexV>, x: IndexV)
    ensures
        cids_of(items.push(x)) == cids_of(items) + (match x.cid() {
            Some(c) => seq![c],
            None => Seq::<Link>::empty(),
        }),
    decreases items.len(),
{
    let tail = (match x.cid() {
        Some(c) => seq![c],
        None => Seq::<Link>::empty(),
    });
    if items.len() == 0 {
        assert(items.push(x)[0] == x);
        assert(items.push(x).drop_first() =~= Seq::<IndexV>::empty());
        assert(cids_of(items) + tail =~= tail + cids_of(items.push(x).drop_first()));
    } else {
        assert(items.push(x).drop_first() =~= items.drop_first().push(x));
        lemma_cids_of_snoc(items.drop_first(), x);
        assert(cids_of(items.push(x)) =~= cids_of(items) + tail);
    }
}

/// The number of collected links never exceeds the number of children.
pub proof fn lemma_cids_of_len(items: Seq<IndexV>)
    ensures
        cids_of(items).len() <= items.len(),
    decreases items.len(),
{
    if items.len() > 0 {
        lemma_cids_of_len(items.drop_first());
    }
}

/// The encrypted half of an index block: nonce, then the enciphered
/// zstd frame of the record array.
pub open spec fn cipher_blob(key: Seq<u8>, nonce: Seq<u8>, items: Seq<IndexV>, level: i32) -> Seq<
    u8,
> {
    nonce + xsalsa20_of(key, nonce, zstd_of(enc_records(records_of(items)), level))
}

/// The whole index block for `items` under `key`, `nonce` and `level`.
pub open spec fn spec_serialize(
    key: Seq<u8>,
    nonce: Seq<u8>,
    items: Seq<IndexV>,
    level: i32,
) -> Seq<u8> {
    enc_outer(cids_of(items), cipher_blob(key, nonce, items, level))
}

/// The bounds under which a block for `items` can be written and read
/// back: a proper nonce, and counts that fit their wire fields.
pub open spec fn serializable(key: Seq<u8>, nonce: Seq<u8>, items: Seq<IndexV>, level: i32) -> bool {
    &&& nonce.len() == 24
    &&& records_bounded(records_of(items))
    &&& cids_of(items).len() <= u64::MAX
    &&& cipher_blob(key, nonce, items, level).len() <= u64::MAX
}

/// Re-attaches links to wire records, consuming one link per non-purged
/// record, in order; fails on an inconsistent record.
pub open spec fn reattach(rs: Seq<IndexRecordV>, ls: Seq<Link>) -> Option<Seq<IndexV>>
    decreases rs.len(),
{
    if rs.len() == 0 {
        Some(Seq::empty())
    } else if !record_consistent(rs[0]) {
        None
    } else {
        let cid = if rs[0].purged {
            None
        } else if ls.len() > 0 {
            Some(ls[0])
        } else {
            None
        };
        let rest_ls = if rs[0].purged || ls.len() == 0 {
            ls
        } else {
            ls.drop_first()
        };
        match reattach(rs.drop_first(), rest_ls) {
            Some(t) => Some(seq![index_of_record(rs[0], cid)] + t),
            None => None,
        }
    }
}

/// Serializes `items` into an index block appended to `into`: the CBOR
/// pair of the non-purged links and the encrypted, compressed record
/// array. It always succeeds, and the bytes are a function of the key,
/// nonce, items and level alone, so the block is byte-stable.
#[verifier::rlimit(100)]
pub fn serialize_compressed(
    key: &[u8],
    nonce: &[u8],
    items: &Vec<Index>,
    level: i32,
    into: &mut Vec<u8>,
) -> (r: Result<(), Error>)
    requires
        key@.len() == 32,
        nonce@.len() == 24,
    ensures
        r is Ok,
        final(into)@ == old(into)@ + spec_serialize(key@, nonce@, view_seq(items@), level),
        serializable(key@, nonce@, view_seq(items@), level),
{
    let ghost views = view_seq(items@);
    let mut recbuf: Vec<u8> = Vec::new();
    let mut cids: Vec<Link> = Vec::new();
    recbuf.push(0x9fu8);
    let mut i: usize = 0;
    while i < items.len()
        invariant
            0 <= i <= items@.len(),
            views == view_seq(items@),
            recbuf@ == seq![0x9fu8] + enc_record_items(records_of(views.take(i as int))),
            cids@ == cids_of(views.take(i as int)),
            records_bounded(records_of(views.take(i as int))),
        decreases items@.len() - i,
    {
        let item = &items[i];
        let rec = IndexRecord::from_index(item);
        let klen: usize = rec.data.0.len();
        match item.cid() {
            Some(c) => {
                cids.push(*c);
            },
            None => {},
        }
        push_record(&mut recbuf, &rec);
        proof {
            let prev = views.take(i as int);
            let next = views.take(i + 1);
            assert(next =~= prev.push(views[i as int]));
            assert(views[i as int] == items@[i as int]@);
            assert(records_of(next) =~= records_of(prev).push(record_of(views[i as int])));
            lemma_enc_record_items_snoc(records_of(prev), record_of(views[i as int]));
            assert(seq![0x9fu8] + enc_record_items(records_of(next)) =~= (seq![0x9fu8]
                + enc_record_items(records_of(prev))) + enc_record(record_of(views[i as int])));
            lemma_cids_of_snoc(prev, views[i as int]);
            assert(record_of(views[i as int]).data.len() == klen);
            assert(forall|j: int|
                0 <= j < records_of(next).len() ==> #[trigger] records_of(next)[j].data.len()
                    <= u64::MAX);
        }
        i = i + 1;
    }
    proof {
        assert(views.take(views.len() as int) =~= views);
    }
    recbuf.push(0xffu8);
    proof {
        assert(recbuf@ =~= enc_records(records_of(views)));
    }
    let mut cipher = zstd_compress(&recbuf, level);
    xsalsa20_apply(key, nonce, &mut cipher);
    let mut blob: Vec<u8> = Vec::new();
    let mut j: usize = 0;
    while j < nonce.len()
        invariant
            0 <= j <= nonce@.len(),
            blob@ == nonce@.take(j as int),
        decreases nonce@.len() - j,
    {
        blob.push(nonce[j]);
        proof {
            assert(nonce@.take(j + 1) =~= nonce@.take(j as int).push(nonce@[j as int]));
        }
        j = j + 1;
    }
    proof {
        assert(nonce@.take(nonce@.len() as int) =~= nonce@);
    }
    blob.append(&mut cipher);
    proof {
        assert(blob@ == cipher_blob(key@, nonce@, views, level));
    }
    let blob_len: usize = blob.len();
    let cids_len: usize = cids.len();
    into.push(0x82u8);
    push_links(into, &cids);
    into.push(0x5bu8);
    push_u64_be(into, blob_len as u64);
    push_lit(into, &blob);
    proof {
        assert(final(into)@ =~= old(into)@ + spec_serialize(key@, nonce@, views, level));
        assert(cids_of(views).len() == cids_len);
        assert(cipher_blob(key@, nonce@, views, level).len() == blob_len);
    }
    Ok(())
}

/// From a block for `items`, the outer parse yields exactly the
/// collected links and the encrypted half.
proof fn lemma_parse_outer(
    key: Seq<u8>,
    ipld: Seq<u8>,
    items: Seq<IndexV>,
    nonce: Seq<u8>,
    level: i32,
)
    requires
        serializable(key, nonce, items, level),
        ipld == spec_serialize(key, nonce, items, level),
    ensures
        dec_outer(ipld) == Some((cids_of(items), cipher_blob(key, nonce, items, level))),
        cipher_blob(key, nonce, items, level).len() >= 24,
        cipher_blob(key, nonce, items, level).subrange(0, 24) == nonce,
        cipher_blob(key, nonce, items, level).subrange(
            24,
            cipher_blob(key, nonce, items, level).len() as int,
        ) == xsalsa20_of(key, nonce, zstd_of(enc_records(records_of(items)), level)),
{
    lemma_cids_of_len(items);
    lemma_dec_enc_outer(ipld, cids_of(items), cipher_blob(key, nonce, items, level));
    let cb = cipher_blob(key, nonce, items, level);
    let tail = xsalsa20_of(key, nonce, zstd_of(enc_records(records_of(items)), level));
    assert(cb.subrange(0, 24) =~= nonce);
    assert(cb.subrange(24, cb.len() as int) =~= tail);
}

/// The record array of `items` parses back to their records.
proof fn lemma_parse_records(plain: Seq<u8>, items: Seq<IndexV>)
    requires
        records_bounded(records_of(items)),
        plain == enc_records(records_of(items)),
    ensures
        dec_records(plain, 0) == Some((records_of(items), plain.len() as int)),
{
    assert(has_lit(plain, 0, enc_records(records_of(items)))) by {
        assert(plain.subrange(0, plain.len() as int) =~= plain);
    }
    lemma_dec_enc_records(plain, 0, records_of(items));
}

/// What reading an index block yields, for every input: the parsed
/// indices, or the error of the first stage that fails. Decryption and
/// decompression are written with the names of the outside results.
pub open spec fn spec_deserialize(key: Seq<u8>, ipld: Seq<u8>) -> Result<Seq<IndexV>, Error> {
    match dec_outer(ipld) {
        None => Err(Error::FormatMismatch),
        Some((ls, blob)) => if blob.len() < 24 {
            Err(Error::NonceMissing)
        } else {
            match unzstd_of(
                xsalsa20_of(key, blob.subrange(0, 24), blob.subrange(24, blob.len() as int)),
            ) {
                None => Err(Error::DecryptOrDecompress),
                Some(plain) => match dec_records(plain, 0) {
                    None => Err(Error::FormatMismatch),
                    Some((rs, _)) => match reattach(rs, ls) {
                        None => Err(Error::InconsistentRecord),
                        Some(ixs) => Ok(ixs),
                    },
                },
            }
        },
    }
}

/// Reads an index block back: parses the outer pair, decrypts and
/// decompresses the record array, and re-attaches the links to the
/// non-purged records in order.
///
/// The result is exactly `spec_deserialize` of the input, so each error
/// comes precisely when its stage fails; and reading a block that
/// `serialize_compressed` wrote under the same key restores the indices
/// exactly.
#[verifier::rlimit(100)]
pub fn deserialize_compressed(key: &[u8], ipld: &[u8]) -> (r: Result<Vec<Index>, Error>)
    requires
        key@.len() == 32,
    ensures
        match r {
            Ok(v) => spec_deserialize(key@, ipld@) == Ok::<Seq<IndexV>, Error>(view_seq(v@)),
            Err(e) => spec_deserialize(key@, ipld@) == Err::<Seq<IndexV>, Error>(e),
        },
        forall|items: Seq<IndexV>, nonce: Seq<u8>, level: i32|
            serializable(key@, nonce, items, level) && ipld@ == #[trigger] spec_serialize(
                key@,
                nonce,
                items,
                level,
            ) ==> r is Ok && view_seq(r->Ok_0@) == items,
{
    let (links, blob) = match read_outer(ipld) {
        Some(x) => x,
        None => {
            proof {
                assert forall|items: Seq<IndexV>, nonce: Seq<u8>, level: i32|
                    serializable(key@, nonce, items, level) && ipld@ == #[trigger] spec_serialize(
                        key@,
                        nonce,
                        items,
                        level,
                    ) implies false by {
                    lemma_parse_outer(key@, ipld@, items, nonce, level);
                }
            }
            proof {
                assert(spec_deserialize(key@, ipld@) == Err::<Seq<IndexV>, Error>(
                    Error::FormatMismatch,
                ));
            }
            return Err(Error::FormatMismatch);
        },
    };
    if blob.len() < 24 {
        proof {
            assert forall|items: Seq<IndexV>, nonce: Seq<u8>, level: i32|
                serializable(key@, nonce, items, level) && ipld@ == #[trigger] spec_serialize(
                    key@,
                    nonce,
                    items,
                    level,
                ) implies false by {
                lemma_parse_outer(key@, ipld@, items, nonce, level);
            }
        }
        proof {
            assert(spec_deserialize(key@, ipld@) == Err::<Seq<IndexV>, Error>(Error::NonceMissing));
        }
        return Err(Error::NonceMissing);
    }
    let mut nonce_v: Vec<u8> = Vec::new();
    let mut i: usize = 0;
    while i < 24
        invariant
            0 <= i <= 24,
            blob@.len() >= 24,
            nonce_v@ == blob@.take(i as int),
        decreases 24 - i,
    {
        nonce_v.push(blob[i]);
        proof {
            assert(blob@.take(i + 1) =~= blob@.take(i as int).push(blob@[i as int]));
        }
        i = i + 1;
    }
    let mut cipher: Vec<u8> = Vec::new();
    let mut j: usize = 24;
    while j < blob.len()
        invariant
            24 <= j <= blob@.len(),
            cipher@ == blob@.subrange(24, j as int),
        decreases blob@.len() - j,
    {
        cipher.push(blob[j]);
        proof {
            assert(blob@.subrange(24, j + 1) =~= blob@.subrange(24, j as int).push(blob@[j as int]));
        }
        j = j + 1;
    }
    proof {
        assert(nonce_v@ =~= blob@.subrange(0, 24));
        assert(cipher@ =~= blob@.subrange(24, blob@.len() as int));
    }
    xsalsa20_apply(key, nonce_v.as_slice(), &mut cipher);
    let plain = match zstd_decompress(&cipher) {
        Ok(v) => v,
        Err(_) => {
            proof {
                assert forall|items: Seq<IndexV>, nonce: Seq<u8>, level: i32|
                    serializable(key@, nonce, items, level) && ipld@ == #[trigger] spec_serialize(
                        key@,
                        nonce,
                        items,
                        level,
                    ) implies false by {
                    lemma_parse_outer(key@, ipld@, items, nonce, level);
                    assert(blob@ == cipher_blob(key@, nonce, items, level));
                    assert(nonce_v@ == nonce);
                }
            }
            proof {
                assert(cipher@ == xsalsa20_of(
                    key@,
                    blob@.subrange(0, 24),
                    blob@.subrange(24, blob@.len() as int),
                ));
                assert(spec_deserialize(key@, ipld@) == Err::<Seq<IndexV>, Error>(
                    Error::DecryptOrDecompress,
                ));
            }
            return Err(Error::DecryptOrDecompress);
        },
    };
    let recs = match read_records(plain.as_slice(), 0) {
        Some(x) => x.0,
        None => {
            proof {
                assert forall|items: Seq<IndexV>, nonce: Seq<u8>, level: i32|
                    serializable(key@, nonce, items, level) && ipld@ == #[trigger] spec_serialize(
                        key@,
                        nonce,
                        items,
                        level,
                    ) implies false by {
                    lemma_parse_outer(key@, ipld@, items, nonce, level);
                    assert(blob@ == cipher_blob(key@, nonce, items, level));
                    assert(nonce_v@ == nonce);
                    assert(plain@ == enc_records(records_of(items)));
                    lemma_parse_records(plain@, items);
                }
            }
            proof {
                assert(cipher@ == xsalsa20_of(
                    key@,
                    blob@.subrange(0, 24),
                    blob@.subrange(24, blob@.len() as int),
                ));
                assert(unzstd_of(cipher@) == Some(plain@));
                assert(spec_deserialize(key@, ipld@) == Err::<Seq<IndexV>, Error>(
                    Error::FormatMismatch,
                ));
            }
            return Err(Error::FormatMismatch);
        },
    };
    let ghost rv_all = record_views(recs@);
    let ghost links0 = links@;
    match reattach_records(recs, links) {
        Ok(out) => {
            proof {
                assert forall|items: Seq<IndexV>, nonce: Seq<u8>, level: i32|
                    serializable(key@, nonce, items, level) && ipld@ == #[trigger] spec_serialize(
                        key@,
                        nonce,
                        items,
                        level,
                    ) implies view_seq(out@) == items by {
                    lemma_parse_outer(key@, ipld@, items, nonce, level);
                    assert(blob@ == cipher_blob(key@, nonce, items, level));
                    assert(nonce_v@ == nonce);
                    assert(plain@ == enc_records(records_of(items)));
                    lemma_parse_records(plain@, items);
                    assert(rv_all == records_of(items));
                    assert(links0 == cids_of(items));
                    lemma_reattach_roundtrip(items);
                }
                assert(cipher@ == xsalsa20_of(
                    key@,
                    blob@.subrange(0, 24),
                    blob@.subrange(24, blob@.len() as int),
                ));
                assert(unzstd_of(cipher@) == Some(plain@));
                assert(spec_deserialize(key@, ipld@) == Ok::<Seq<IndexV>, Error>(view_seq(out@)));
            }
            Ok(out)
        },
        Err(e) => {
            proof {
                assert forall|items: Seq<IndexV>, nonce: Seq<u8>, level: i32|
                    serializable(key@, nonce, items, level) && ipld@ == #[trigger] spec_serialize(
                        key@,
                        nonce,
                        items,
                        level,
                    ) implies false by {
                    lemma_parse_outer(key@, ipld@, items, nonce, level);
                    assert(blob@ == cipher_blob(key@, nonce, items, level));
                    assert(nonce_v@ == nonce);
                    assert(plain@ == enc_records(records_of(items)));
                    lemma_parse_records(plain@, items);
                    assert(rv_all == records_of(items));
                    assert(links0 == cids_of(items));
                    lemma_reattach_roundtrip(items);
                }
                assert(cipher@ == xsalsa20_of(
                    key@,
                    blob@.subrange(0, 24),
                    blob@.subrange(24, blob@.len() as int),
                ));
                assert(unzstd_of(cipher@) == Some(plain@));
                assert(spec_deserialize(key@, ipld@) == Err::<Seq<IndexV>, Error>(e));
            }
            Err(e)
        },
    }
}

/// Turns wire records back into indices, re-attaching one link per
/// non-purged record in order; fails on the first inconsistent record.
#[verifier::loop_isolation(false)]
pub fn reattach_records(recs: Vec<IndexRecord>, links: Vec<Link>) -> (r: Result<Vec<Index>, Error>)
    ensures
        match reattach(record_views(recs@), links@) {
            Some(t) => r is Ok && view_seq(r->Ok_0@) == t,
            None => r == Err::<Vec<Index>, Error>(Error::InconsistentRecord),
        },
{
    let ghost rv_all = record_views(recs@);
    let ghost links0 = links@;
    let mut cid_q: VecDeque<Link> = VecDeque::new();
    let mut k: usize = 0;
    while k < links.len()
        invariant
            0 <= k <= links@.len(),
            cid_q@ == links@.take(k as int),
        decreases links@.len() - k,
    {
        cid_q.push_back(links[k]);
        proof {
            assert(links@.take(k + 1) =~= links@.take(k as int).push(links@[k as int]));
        }
        k = k + 1;
    }
    proof {
        assert(links@.take(links@.len() as int) =~= links@);
    }
    let mut recs = recs;
    let mut out: Vec<Index> = Vec::new();
    while recs.len() > 0
        invariant
            (match reattach(record_views(recs@), cid_q@) {
                Some(t) => reattach(rv_all, links0) == Some(view_seq(out@) + t),
                None => reattach(rv_all, links0) is None,
            }),
        decreases recs@.len(),
    {
        let ghost pre_recs = recs@;
        let ghost pre_q = cid_q@;
        let rec = recs.remove(0);
        proof {
            assert(record_views(pre_recs)[0] == rec@);
            assert(record_views(recs@) =~= record_views(pre_recs).drop_first());
        }
        match rec.to_index(&mut cid_q) {
            Ok(ix) => {
                proof {
                    let rv_pre = record_views(pre_recs);
                    if reattach(record_views(recs@), cid_q@) is Some {
                        let t2 = reattach(record_views(recs@), cid_q@)->Some_0;
                        assert(reattach(rv_pre, pre_q) == Some(seq![ix@] + t2));
                        assert(view_seq(out@.push(ix)) =~= view_seq(out@).push(ix@));
                        assert(view_seq(out@) + (seq![ix@] + t2) =~= view_seq(out@.push(ix)) + t2);
                    } else {
                        assert(reattach(rv_pre, pre_q) is None);
                    }
                }
                out.push(ix);
            },
            Err(_) => {
                proof {
                    assert(reattach(record_views(pre_recs), pre_q) is None);
                }
                return Err(Error::InconsistentRecord);
            },
        }
    }
    proof {
        assert(record_views(recs@) =~= Seq::<IndexRecordV>::empty());
        assert(reattach(rv_all, links0) == Some(view_seq(out@) + Seq::<IndexV>::empty()));
        assert(view_seq(out@) + Seq::<IndexV>::empty() =~= view_seq(out@));
    }
    Ok(out)
}

/// Re-attaching the collected links to the records of `items` restores
/// `items` exactly: the codec loses nothing.
pub proof fn lemma_reattach_roundtrip(items: Seq<IndexV>)
    ensures
        reattach(records_of(items), cids_of(items)) == Some(items),
    decreases items.len(),
{
    if items.len() == 0 {
        assert(records_of(items) =~= Seq::<IndexRecordV>::empty());
        assert(items =~= Seq::<IndexV>::empty());
    } else {
        let rs = records_of(items);
        let ls = cids_of(items);
        let r0 = record_of(items[0]);
        assert(rs[0] == r0);
        crate::index::lemma_record_roundtrip(items[0]);
        assert(rs.drop_first() =~= records_of(items.drop_first()));
        lemma_reattach_roundtrip(items.drop_first());
        match items[0].cid() {
            Some(c) => {
                assert(!r0.purged);
                assert(ls == seq![c] + cids_of(items.drop_first()));
                assert(ls.len() > 0 && ls[0] == c);
                assert(ls.drop_first() =~= cids_of(items.drop_first()));
                assert(seq![index_of_record(r0, Some(c))] + items.drop_first() =~= items);
            },
            None => {
                assert(r0.purged);
                assert(ls =~= cids_of(items.drop_first()));
                assert(seq![index_of_record(r0, None)] + items.drop_first() =~= items);
            },
        }
    }
}

} // verus!
