//! Content links: fixed 32-byte digests and their byte representation.

use vstd::prelude::*;

verus! {

/// A content link: a fixed 32-byte digest, held as four 64-bit words in
/// big-endian order. Equality and ordering are bitwise.
#[derive(Clone, Copy, Debug, PartialEq, Eq, Structural, Hash, PartialOrd, Ord)]
pub struct Link {
    pub w0: u64,
    pub w1: u64,
    pub w2: u64,
    pub w3: u64,
}

/// The eight big-endian bytes of `v`.
pub open spec fn u64_be_bytes(v: u64) -> Seq<u8> {
    seq![
        ((v >> 56) & 0xff) as u8,
        ((v >> 48) & 0xff) as u8,
        ((v >> 40) & 0xff) as u8,
        ((v >> 32) & 0xff) as u8,
        ((v >> 24) & 0xff) as u8,
        ((v >> 16) & 0xff) as u8,
        ((v >> 8) & 0xff) as u8,
        (v & 0xff) as u8,
    ]
}

/// The value read back from eight big-endian bytes.
pub open spec fn u64_from_be(s: Seq<u8>) -> u64
    recommends
        s.len() == 8,
{
    ((s[0] as u64) << 56 | (s[1] as u64) << 48 | (s[2] as u64) << 40 | (s[3] as u64) << 32 | (
    s[4] as u64) << 24 | (s[5] as u64) << 16 | (s[6] as u64) << 8 | (s[7] as u64)) as u64
}

/// Reading back the big-endian bytes of `v` yields `v`.
pub proof fn lemma_u64_be_roundtrip(v: u64)
    ensures
        u64_from_be(u64_be_bytes(v)) == v,
{
    let b0 = ((v >> 56) & 0xff) as u8;
    let b1 = ((v >> 48) & 0xff) as u8;
    let b2 = ((v >> 40) & 0xff) as u8;
    let b3 = ((v >> 32) & 0xff) as u8;
    let b4 = ((v >> 24) & 0xff) as u8;
    let b5 = ((v >> 16) & 0xff) as u8;
    let b6 = ((v >> 8) & 0xff) as u8;
    let b7 = (v & 0xff) as u8;
    assert((((v >> 56) & 0xff) as u8 as u64) << 56 | (((v >> 48) & 0xff) as u8 as u64) << 48 | (((v
        >> 40) & 0xff) as u8 as u64) << 40 | (((v >> 32) & 0xff) as u8 as u64) << 32 | (((v >> 24)
        & 0xff) as u8 as u64) << 24 | (((v >> 16) & 0xff) as u8 as u64) << 16 | (((v >> 8)
        & 0xff) as u8 as u64) << 8 | ((v & 0xff) as u8 as u64) == v) by (bit_vector);
    assert(u64_from_be(u64_be_bytes(v)) == (b0 as u64) << 56 | (b1 as u64) << 48 | (b2 as u64) << 40
        | (b3 as u64) << 32 | (b4 as u64) << 24 | (b5 as u64) << 16 | (b6 as u64) << 8 | (
    b7 as u64));
}

/// The 32 bytes of a link, words in order, each big-endian.
pub open spec fn link_bytes(l: Link) -> Seq<u8> {
    u64_be_bytes(l.w0) + u64_be_bytes(l.w1) + u64_be_bytes(l.w2) + u64_be_bytes(l.w3)
}

/// Appends the eight big-endian bytes of `v` to `out`.
pub fn push_u64_be(out: &mut Vec<u8>, v: u64)
    ensures
        final(out)@ == old(out)@ + u64_be_bytes(v),
{
    out.push(((v >> 56) & 0xff) as u8);
    out.push(((v >> 48) & 0xff) as u8);
    out.push(((v >> 40) & 0xff) as u8);
    out.push(((v >> 32) & 0xff) as u8);
    out.push(((v >> 24) & 0xff) as u8);
    out.push(((v >> 16) & 0xff) as u8);
    out.push(((v >> 8) & 0xff) as u8);
    out.push((v & 0xff) as u8);
    proof {
        assert(final(out)@ =~= old(out)@ + u64_be_bytes(v));
    }
}

/// Reads a 64-bit value from eight big-endian bytes of `s` at `pos`.
pub fn read_u64_be(s: &[u8], pos: usize) -> (v: u64)
    requires
        pos + 8 <= s@.len(),
    ensures
        v == u64_from_be(s@.subrange(pos as int, pos + 8)),
{
    let v = (s[pos] as u64) << 56 | (s[pos + 1] as u64) << 48 | (s[pos + 2] as u64) << 40 | (s[pos
        + 3] as u64) << 32 | (s[pos + 4] as u64) << 24 | (s[pos + 5] as u64) << 16 | (s[pos
        + 6] as u64) << 8 | (s[pos + 7] as u64);
    proof {
        let sub = s@.subrange(pos as int, pos + 8);
        assert(sub[0] == s@[pos as int]);
        assert(sub[1] == s@[pos + 1]);
        assert(sub[2] == s@[pos + 2]);
        assert(sub[3] == s@[pos + 3]);
        assert(sub[4] == s@[pos + 4]);
        assert(sub[5] == s@[pos + 5]);
        assert(sub[6] == s@[pos + 6]);
        assert(sub[7] == s@[pos + 7]);
    }
    v
}

impl Link {
    /// Appends the 32 bytes of this link to `out`.
    pub fn push_bytes(&self, out: &mut Vec<u8>)
        ensures
            final(out)@ == old(out)@ + link_bytes(*self),
    {
        push_u64_be(out, self.w0);
        push_u64_be(out, self.w1);
        push_u64_be(out, self.w2);
        push_u64_be(out, self.w3);
        proof {
            assert(final(out)@ =~= old(out)@ + link_bytes(*self));
        }
    }

    /// Reads a link from 32 bytes of `s` at `pos`.
    pub fn read_bytes(s: &[u8], pos: usize) -> (l: Link)
        requires
            pos + 32 <= s@.len(),
        ensures
            l == link_from_bytes(s@.subrange(pos as int, pos + 32)),
    {
        let n: usize = s.len();
        assert(pos + 32 <= n);
        let l = Link {
            w0: read_u64_be(s, pos),
            w1: read_u64_be(s, pos + 8),
            w2: read_u64_be(s, pos + 16),
            w3: read_u64_be(s, pos + 24),
        };
        proof {
            let sub = s@.subrange(pos as int, pos + 32);
            assert(sub.subrange(0, 8) =~= s@.subrange(pos as int, pos + 8));
            assert(sub.subrange(8, 16) =~= s@.subrange(pos + 8, pos + 16));
            assert(sub.subrange(16, 24) =~= s@.subrange(pos + 16, pos + 24));
            assert(sub.subrange(24, 32) =~= s@.subrange(pos + 24, pos + 32));
        }
        l
    }
}

/// The link read back from 32 bytes.
pub open spec fn link_from_bytes(s: Seq<u8>) -> Link
    recommends
        s.len() == 32,
{
    Link {
        w0: u64_from_be(s.subrange(0, 8)),
        w1: u64_from_be(s.subrange(8, 16)),
        w2: u64_from_be(s.subrange(16, 24)),
        w3: u64_from_be(s.subrange(24, 32)),
    }
}

/// Reading back the bytes of a link yields the link.
pub proof fn lemma_link_bytes_roundtrip(l: Link)
    ensures
        link_bytes(l).len() == 32,
        link_from_bytes(link_bytes(l)) == l,
{
    let b = link_bytes(l);
    assert(b.subrange(0, 8) =~= u64_be_bytes(l.w0));
    assert(b.subrange(8, 16) =~= u64_be_bytes(l.w1));
    assert(b.subrange(16, 24) =~= u64_be_bytes(l.w2));
    assert(b.subrange(24, 32) =~= u64_be_bytes(l.w3));
    lemma_u64_be_roundtrip(l.w0);
    lemma_u64_be_roundtrip(l.w1);
    lemma_u64_be_roundtrip(l.w2);
    lemma_u64_be_roundtrip(l.w3);
}

} // verus!
