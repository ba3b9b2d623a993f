//! Append-only compressed arrays: a run of values packed as a CBOR
//! indefinite-length array inside one zstd frame, and the leaf node
//! wrapping such a frame.

use crate::cbor::{dec_u64, enc_u64, has_lit, lemma_dec_enc_u64, push_u64c, read_u64c};
use crate::codec::zstd_of;
use crate::error::Error;
use vstd::prelude::*;

verus! {

/// The value items of a leaf frame, in order.
pub open spec fn enc_vals(vs: Seq<u64>) -> Seq<u8>
    decreases vs.len(),
{
    if vs.len() == 0 {
        Seq::empty()
    } else {
        enc_u64(vs[0]) + enc_vals(vs.drop_first())
    }
}

/// The whole uncompressed leaf body: an indefinite-length array of the
/// values.
pub open spec fn enc_val_array(vs: Seq<u64>) -> Seq<u8> {
    seq![0x9fu8] + (enc_vals(vs) + seq![0xffu8])
}

/// Values until the break byte.
pub open spec fn dec_val_list(s: Seq<u8>, pos: int) -> Option<(Seq<u64>, int)>
    decreases s.len() - pos,
{
    if 0 <= pos < s.len() && s[pos] == 0xffu8 {
        Some((Seq::empty(), pos + 1))
    } else {
        match dec_u64(s, pos) {
            Some((v, p1)) => if pos < p1 <= s.len() {
                match dec_val_list(s, p1) {
                    Some((vs, p2)) => Some((seq![v] + vs, p2)),
                    None => None,
                }
            } else {
                None
            },
            None => None,
        }
    }
}

/// The whole leaf body, from its first byte.
pub open spec fn dec_val_array(s: Seq<u8>) -> Option<Seq<u64>> {
    if s.len() > 0 && s[0] == 0x9fu8 {
        match dec_val_list(s, 1) {
            Some((vs, _)) => Some(vs),
            None => None,
        }
    } else {
        None
    }
}

/// Appending one more value extends the item run at its end.
pub proof fn lemma_enc_vals_snoc(vs: Seq<u64>, x: u64)
    ensures
        enc_vals(vs.push(x)) == enc_vals(vs) + enc_u64(x),
    decreases vs.len(),
{
    if vs.len() == 0 {
        assert(vs.push(x)[0] == x);
        assert(vs.push(x).drop_first() =~= Seq::<u64>::empty());
        assert(enc_vals(vs) + enc_u64(x) =~= enc_u64(x) + enc_vals(vs.push(x).drop_first()));
    } else {
        assert(vs.push(x).drop_first() =~= vs.drop_first().push(x));
        lemma_enc_vals_snoc(vs.drop_first(), x);
        assert(enc_vals(vs.push(x)) =~= enc_vals(vs) + enc_u64(x));
    }
}

/// Decoding an encoded value run with its break byte yields the values.
pub proof fn lemma_dec_enc_val_list(s: Seq<u8>, pos: int, vs: Seq<u64>)
    requires
        has_lit(s, pos, enc_vals(vs) + seq![0xffu8]),
    ensures
        dec_val_list(s, pos) == Some((vs, pos + enc_vals(vs).len() + 1)),
    decreases vs.len(),
{
    if vs.len() == 0 {
        crate::cbor::lemma_lit_first(s, pos, seq![0xffu8]);
    } else {
        let rest = vs.drop_first();
        assert(enc_vals(vs) + seq![0xffu8] =~= enc_u64(vs[0]) + (enc_vals(rest) + seq![0xffu8]));
        crate::cbor::lemma_lit_split(s, pos, enc_u64(vs[0]), enc_vals(rest) + seq![0xffu8]);
        lemma_dec_enc_u64(s, pos, vs[0]);
        crate::cbor::lemma_lit_first(s, pos, enc_u64(vs[0]));
        lemma_dec_enc_val_list(s, pos + 9, rest);
        assert(seq![vs[0]] + rest =~= vs);
    }
}

/// Decoding an encoded leaf body yields the values.
pub proof fn lemma_dec_enc_val_array(s: Seq<u8>, vs: Seq<u64>)
    requires
        s == enc_val_array(vs),
    ensures
        dec_val_array(s) == Some(vs),
{
    assert(has_lit(s, 0, seq![0x9fu8] + (enc_vals(vs) + seq![0xffu8]))) by {
        assert(s.subrange(0, s.len() as int) =~= s);
    }
    crate::cbor::lemma_lit_split(s, 0, seq![0x9fu8], enc_vals(vs) + seq![0xffu8]);
    crate::cbor::lemma_lit_first(s, 0, seq![0x9fu8]);
    lemma_dec_enc_val_list(s, 1, vs);
}

/// Reads the value run up to and including the break byte.
#[verifier::rlimit(100)]
fn read_val_array(s: &[u8]) -> (r: Option<Vec<u64>>)
    ensures
        match r {
            Some(v) => dec_val_array(s@) == Some(v@),
            None => dec_val_array(s@) is None,
        },
{
    if !(s.len() > 0 && s[0] == 0x9fu8) {
        return None;
    }
    let mut acc: Vec<u64> = Vec::new();
    let mut cur: usize = 1;
    loop
        invariant
            s@.len() > 0,
            s@[0] == 0x9fu8,
            0 < cur <= s@.len() || cur == 1,
            (match dec_val_list(s@, cur as int) {
                Some((vs, p)) => dec_val_list(s@, 1) == Some((acc@ + vs, p)),
                None => dec_val_list(s@, 1) is None,
            }),
        decreases s@.len() - cur,
    {
        if cur >= s.len() {
            proof {
                assert(dec_val_list(s@, cur as int) is None);
            }
            return None;
        }
        if s[cur] == 0xffu8 {
            proof {
                assert(dec_val_list(s@, cur as int) == Some((Seq::<u64>::empty(), cur + 1)));
                assert(acc@ + Seq::<u64>::empty() =~= acc@);
            }
            return Some(acc);
        }
        match read_u64c(s, cur) {
            Some((v, p1)) => {
                proof {
                    if dec_val_list(s@, p1 as int) is Some {
                        let (vs2, pend) = dec_val_list(s@, p1 as int)->Some_0;
                        assert(dec_val_list(s@, cur as int) == Some((seq![v] + vs2, pend)));
                        assert(acc@ + (seq![v] + vs2) =~= acc@.push(v) + vs2);
                    } else {
                        assert(dec_val_list(s@, cur as int) is None);
                    }
                }
                acc.push(v);
                cur = p1;
            },
            None => {
                proof {
                    assert(dec_val_list(s@, cur as int) is None);
                }
                return None;
            },
        }
    }
}

/// An open builder for a compressed array: the values pushed so far,
/// still uncompressed, and the zstd level to compress with.
pub struct ZstdArrayBuilder {
    data: Vec<u8>,
    level: i32,
    items: Ghost<Seq<u64>>,
}

impl ZstdArrayBuilder {
    /// The values pushed so far.
    pub closed spec fn values(&self) -> Seq<u64> {
        self.items@
    }

    /// The compression level the builder was opened with.
    pub closed spec fn level_spec(&self) -> i32 {
        self.level
    }

    /// The buffered bytes encode exactly the pushed values.
    pub closed spec fn wf(&self) -> bool {
        self.data@ == enc_vals(self.items@)
    }

    /// An empty builder at the given compression level.
    pub fn new(level: i32) -> (r: Self)
        ensures
            r.wf(),
            r.values() == Seq::<u64>::empty(),
            r.level_spec() == level,
    {
        Self { data: Vec::new(), level, items: Ghost(Seq::empty()) }
    }

    /// Appends one value.
    pub fn push(&mut self, value: u64)
        requires
            old(self).wf(),
        ensures
            final(self).wf(),
            final(self).values() == old(self).values().push(value),
            final(self).level_spec() == old(self).level_spec(),
    {
        push_u64c(&mut self.data, value);
        proof {
            lemma_enc_vals_snoc(self.items@, value);
        }
        self.items = Ghost(self.items@.push(value));
    }

    /// The compressed size the array would have if built now.
    pub fn compressed_size(&self) -> (r: u64)
        requires
            self.wf(),
        ensures
            r == zstd_of(enc_val_array(self.values()), self.level_spec()).len(),
    {
        let arr = self.build();
        arr.len() as u64
    }

    /// Pushes values from `values[start..]` while the compressed size
    /// stays at or under `target`, stopping when the values run out;
    /// returns how many were taken.
    pub fn fill_from(&mut self, values: &Vec<u64>, start: usize, target: u64) -> (n: usize)
        requires
            old(self).wf(),
            start <= values@.len(),
        ensures
            final(self).wf(),
            final(self).level_spec() == old(self).level_spec(),
            start + n <= values@.len(),
            final(self).values() == old(self).values() + values@.subrange(
                start as int,
                start + n,
            ),
            forall|j: int|
                0 <= j < n ==> (#[trigger] zstd_of(
                    enc_val_array(old(self).values() + values@.subrange(start as int, start + j)),
                    old(self).level_spec(),
                )).len() <= target,
            start + n == values@.len() || zstd_of(
                enc_val_array(final(self).values()),
                old(self).level_spec(),
            ).len() > target,
    {
        let total: usize = values.len();
        let mut n: usize = 0;
        let mut done = false;
        while !done && start + n < total
            invariant
                old(self).wf(),
                self.wf(),
                total == values@.len(),
                start + n <= total,
                self.level_spec() == old(self).level_spec(),
                self.values() == old(self).values() + values@.subrange(start as int, start + n),
                forall|j: int|
                    0 <= j < n ==> (#[trigger] zstd_of(
                        enc_val_array(
                            old(self).values() + values@.subrange(start as int, start + j),
                        ),
                        old(self).level_spec(),
                    )).len() <= target,
                done ==> zstd_of(enc_val_array(self.values()), old(self).level_spec()).len()
                    > target,
            decreases values@.len() - start - n + (if done {
                0int
            } else {
                1int
            }),
        {
            let size = self.compressed_size();
            if size > target {
                done = true;
            } else {
                self.push(values[start + n]);
                proof {
                    assert(values@.subrange(start as int, start + n + 1) =~= values@.subrange(
                        start as int,
                        start + n,
                    ).push(values@[start + n]));
                    assert(old(self).values() + values@.subrange(start as int, start + n + 1)
                        =~= (old(self).values() + values@.subrange(start as int, start + n)).push(
                        values@[start + n],
                    ));
                }
                n = n + 1;
            }
        }
        n
    }

    /// Compresses the values into one frame.
    pub fn build(&self) -> (r: ZstdArray)
        requires
            self.wf(),
        ensures
            r.bytes() == zstd_of(enc_val_array(self.values()), self.level_spec()),
    {
        let mut frame: Vec<u8> = Vec::new();
        frame.push(0x9fu8);
        let mut rest = self.clone_data();
        frame.append(&mut rest);
        frame.push(0xffu8);
        proof {
            assert(frame@ =~= enc_val_array(self.values()));
        }
        let compressed = crate::codec::zstd_compress(&frame, self.level);
        ZstdArray::new(compressed)
    }

    /// A copy of the buffered bytes.
    fn clone_data(&self) -> (r: Vec<u8>)
        ensures
            r@ == self.data@,
    {
        let mut v: Vec<u8> = Vec::new();
        let mut i: usize = 0;
        while i < self.data.len()
            invariant
                0 <= i <= self.data@.len(),
                v@ == self.data@.take(i as int),
            decreases self.data@.len() - i,
        {
            v.push(self.data[i]);
            proof {
                assert(self.data@.take(i + 1) =~= self.data@.take(i as int).push(
                    self.data@[i as int],
                ));
            }
            i = i + 1;
        }
        proof {
            assert(self.data@.take(self.data@.len() as int) =~= self.data@);
        }
        v
    }
}

/// A read-only compressed array: one zstd frame holding a CBOR
/// indefinite-length array of values. Construction does not validate;
/// malformed bytes surface as errors on reading.
pub struct ZstdArray {
    data: Vec<u8>,
}

impl ZstdArray {
    /// The compressed bytes.
    pub closed spec fn bytes(&self) -> Seq<u8> {
        self.data@
    }

    /// Wraps compressed bytes without validating them.
    pub fn new(data: Vec<u8>) -> (r: Self)
        ensures
            r.bytes() == data@,
    {
        Self { data }
    }

    /// The compressed bytes, for hashing or storing.
    pub fn compressed(&self) -> (r: &Vec<u8>)
        ensures
            r@ == self.bytes(),
    {
        &self.data
    }

    /// The compressed size in bytes.
    pub fn len(&self) -> (r: usize)
        ensures
            r == self.bytes().len(),
    {
        self.data.len()
    }

    /// Decompresses and decodes all values.
    pub fn items(&self) -> (r: Result<Vec<u64>, Error>)
        ensures
            forall|vs: Seq<u64>, l: i32|
                self.bytes() == #[trigger] zstd_of(enc_val_array(vs), l) ==> r is Ok && r->Ok_0@
                    == vs,
    {
        let plain = crate::codec::zstd_decompress(&self.data)?;
        match read_val_array(plain.as_slice()) {
            Some(v) => {
                proof {
                    assert forall|vs: Seq<u64>, l: i32|
                        self.bytes() == #[trigger] zstd_of(enc_val_array(vs), l) implies v@
                        == vs by {
                        lemma_dec_enc_val_array(plain@, vs);
                    }
                }
                Ok(v)
            },
            None => {
                proof {
                    assert forall|vs: Seq<u64>, l: i32|
                        self.bytes() == #[trigger] zstd_of(enc_val_array(vs), l) implies false by {
                        lemma_dec_enc_val_array(plain@, vs);
                    }
                }
                Err(Error::FormatMismatch)
            },
        }
    }

    /// The value at `index`, when the frame is well formed: `Some`
    /// exactly for positions below the count.
    pub fn get(&self, index: u64) -> (r: Result<Option<u64>, Error>)
        ensures
            forall|vs: Seq<u64>, l: i32|
                self.bytes() == #[trigger] zstd_of(enc_val_array(vs), l) ==> r is Ok && r->Ok_0
                    == (if index < vs.len() {
                    Some(vs[index as int])
                } else {
                    None::<u64>
                }),
    {
        let all = self.items()?;
        if index < all.len() as u64 {
            Ok(Some(all[index as usize]))
        } else {
            Ok(None)
        }
    }
}

/// Fully in-memory representation of a leaf node: a compressed array
/// of the values of its events.
pub struct Leaf(pub ZstdArray);

impl Leaf {
    /// Wraps compressed data read from a store, without validation.
    pub fn new(data: Vec<u8>) -> (r: Self)
        ensures
            r.0.bytes() == data@,
    {
        Self(ZstdArray::new(data))
    }

    /// Builds a leaf from an open builder; always succeeds.
    pub fn from_builder(builder: &ZstdArrayBuilder) -> (r: Result<Self, Error>)
        requires
            builder.wf(),
        ensures
            r is Ok,
            r->Ok_0.0.bytes() == zstd_of(enc_val_array(builder.values()), builder.level_spec()),
    {
        Ok(Self(builder.build()))
    }

    /// Reopens this leaf's values as a builder at the given level.
    pub fn builder(&self, level: i32) -> (r: Result<ZstdArrayBuilder, Error>)
        ensures
            r matches Ok(b) ==> b.wf() && b.level_spec() == level,
            forall|vs: Seq<u64>, l: i32|
                self.0.bytes() == #[trigger] zstd_of(enc_val_array(vs), l) ==> r is Ok
                    && r->Ok_0.values() == vs,
    {
        let all = self.0.items()?;
        let mut b = ZstdArrayBuilder::new(level);
        let mut i: usize = 0;
        while i < all.len()
            invariant
                0 <= i <= all@.len(),
                b.wf(),
                b.level_spec() == level,
                b.values() == all@.take(i as int),
            decreases all@.len() - i,
        {
            b.push(all[i]);
            proof {
                assert(all@.take(i + 1) =~= all@.take(i as int).push(all@[i as int]));
            }
            i = i + 1;
        }
        proof {
            assert(all@.take(all@.len() as int) =~= all@);
        }
        Ok(b)
    }

    /// A leaf holding a single value, at the given compression level;
    /// always succeeds.
    pub fn single(value: u64, level: i32) -> (r: Result<Self, Error>)
        ensures
            r is Ok,
            r->Ok_0.0.bytes() == zstd_of(enc_val_array(seq![value]), level),
    {
        let mut b = ZstdArrayBuilder::new(level);
        b.push(value);
        proof {
            assert(Seq::<u64>::empty().push(value) =~= seq![value]);
        }
        Leaf::from_builder(&b)
    }

    /// Reopens the leaf and pushes values from `values[start..]` while
    /// the compressed size stays at or under `target`, stopping when the
    /// values run out; returns the new leaf and how many values were
    /// taken. On a well-formed leaf it succeeds, takes values in order,
    /// and takes as many as the target allows.
    pub fn fill(&self, values: &Vec<u64>, start: usize, target: u64, level: i32) -> (r: Result<
        (Self, usize),
        Error,
    >)
        requires
            start <= values@.len(),
        ensures
            r matches Ok(p) ==> start + p.1 <= values@.len(),
            forall|vs: Seq<u64>, l: i32|
                self.0.bytes() == #[trigger] zstd_of(enc_val_array(vs), l) ==> r is Ok
                    && r->Ok_0.0.0.bytes() == zstd_of(
                    enc_val_array(vs + values@.subrange(start as int, start + r->Ok_0.1)),
                    level,
                ) && (start + r->Ok_0.1 == values@.len() || zstd_of(
                    enc_val_array(vs + values@.subrange(start as int, start + r->Ok_0.1)),
                    level,
                ).len() > target) && (forall|j: int|
                    0 <= j < r->Ok_0.1 ==> (#[trigger] zstd_of(
                        enc_val_array(vs + values@.subrange(start as int, start + j)),
                        level,
                    )).len() <= target),
    {
        let mut b = self.builder(level)?;
        let n = b.fill_from(values, start, target);
        let leaf = match Leaf::from_builder(&b) {
            Ok(leaf) => leaf,
            Err(e) => {
                return Err(e);
            },
        };
        Ok((leaf, n))
    }

    /// The underlying compressed array.
    pub fn as_ref(&self) -> (r: &ZstdArray)
        ensures
            r.bytes() == self.0.bytes(),
    {
        &self.0
    }

    /// The value at `offset`, when the frame is well formed: an error
    /// past the end.
    pub fn child_at(&self, offset: u64) -> (r: Result<u64, Error>)
        ensures
            forall|vs: Seq<u64>, l: i32|
                self.0.bytes() == #[trigger] zstd_of(enc_val_array(vs), l) ==> r == (if offset
                    < vs.len() {
                    Ok::<u64, Error>(vs[offset as int])
                } else {
                    Err::<u64, Error>(Error::IndexOutOfBounds)
                }),
    {
        match self.0.get(offset)? {
            Some(v) => Ok(v),
            None => Err(Error::IndexOutOfBounds),
        }
    }
}

} // verus!
