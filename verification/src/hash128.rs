//! Content hashing: every hashable value is reduced to a byte string, and a
//! 128-bit digest of those bytes stands in for the value everywhere else in
//! the crate.  Digest equality is the crate's notion of value equality.

use vstd::prelude::*;

verus! {

/// The 128-bit digest that the xxh3 algorithm assigns to a byte string.
pub uninterp spec fn xxh3_128_of(bytes: Seq<u8>) -> u128;

/// Relies on `twox_hash::XxHash3_128::oneshot`: with the default seed and
/// secret, the digest is a deterministic function of the input bytes alone.
#[verifier::external_body]
fn xxh3_128(bytes: &[u8]) -> (r: u128)
    ensures
        r == xxh3_128_of(bytes@),
{
    twox_hash::XxHash3_128::oneshot(bytes)
}

/// A value that the indices can key on: it has a well-defined byte content,
/// and its digest is computed from those bytes.
pub trait ContentHash: Sized {
    /// The byte content that the digest is computed from.
    spec fn bytes_spec(&self) -> Seq<u8>;

    /// Produce the byte content.
    fn content_bytes(&self) -> (r: Vec<u8>)
        ensures
            r@ == self.bytes_spec(),
    ;

    /// A copy with the same byte content, hence the same digest.
    fn duplicate(&self) -> (r: Self)
        ensures
            r.bytes_spec() == self.bytes_spec(),
    ;
}

/// The digest of a hashable value: its byte content run through xxh3.
pub open spec fn digest128<T: ContentHash>(value: T) -> u128 {
    xxh3_128_of(value.bytes_spec())
}

/// 128-bit content digest of any hashable value.
pub fn one_shot_128<T: ContentHash>(value: &T) -> (r: u128)
    ensures
        r == digest128(*value),
{
    let bytes = value.content_bytes();
    xxh3_128(bytes.as_slice())
}

/// 64-bit content digest: the low 64 bits of the 128-bit digest, as a table
/// placement key would be derived from a full digest.
pub fn one_shot_64<T: ContentHash>(value: &T) -> (r: u64)
    ensures
        r == digest128(*value) as u64,
{
    let d = one_shot_128(value);
    #[verifier::truncate] (d as u64)
}

/// The little-endian byte content of a 64-bit value.
pub open spec fn u64_le_bytes(x: u64) -> Seq<u8> {
    seq![
        (x % 256) as u8,
        ((x / 0x100) % 256) as u8,
        ((x / 0x10000) % 256) as u8,
        ((x / 0x1000000) % 256) as u8,
        ((x / 0x100000000) % 256) as u8,
        ((x / 0x10000000000) % 256) as u8,
        ((x / 0x1000000000000) % 256) as u8,
        ((x / 0x100000000000000) % 256) as u8,
    ]
}

/// Append the eight little-endian bytes of `x` to `out`.
pub fn push_u64_le(out: &mut Vec<u8>, x: u64)
    ensures
        final(out)@ == old(out)@ + u64_le_bytes(x),
{
    out.push((x % 256) as u8);
    out.push(((x / 0x100) % 256) as u8);
    out.push(((x / 0x10000) % 256) as u8);
    out.push(((x / 0x1000000) % 256) as u8);
    out.push(((x / 0x100000000) % 256) as u8);
    out.push(((x / 0x10000000000) % 256) as u8);
    out.push(((x / 0x1000000000000) % 256) as u8);
    out.push(((x / 0x100000000000000) % 256) as u8);
    proof {
        assert(out@ =~= old(out)@ + u64_le_bytes(x));
    }
}

impl ContentHash for u64 {
    open spec fn bytes_spec(&self) -> Seq<u8> {
        u64_le_bytes(*self)
    }

    fn content_bytes(&self) -> (r: Vec<u8>) {
        let mut out: Vec<u8> = Vec::new();
        push_u64_le(&mut out, *self);
        proof {
            assert(out@ =~= u64_le_bytes(*self));
        }
        out
    }

    fn duplicate(&self) -> (r: Self) {
        *self
    }
}

impl ContentHash for String {
    open spec fn bytes_spec(&self) -> Seq<u8> {
        vstd::utf8::encode_utf8(self@)
    }

    fn content_bytes(&self) -> (r: Vec<u8>) {
        vstd::slice::slice_to_vec(self.as_str().as_bytes())
    }

    fn duplicate(&self) -> (r: Self) {
        self.clone()
    }
}

/// The byte content of a sequence of 64-bit values: their little-endian
/// bytes, concatenated.
pub open spec fn u64_seq_bytes(xs: Seq<u64>) -> Seq<u8>
    decreases xs.len(),
{
    if xs.len() == 0 {
        Seq::empty()
    } else {
        u64_seq_bytes(xs.drop_last()) + u64_le_bytes(xs.last())
    }
}

impl ContentHash for Vec<u64> {
    open spec fn bytes_spec(&self) -> Seq<u8> {
        u64_seq_bytes(self@)
    }

    fn content_bytes(&self) -> (r: Vec<u8>) {
        let n = self.len();
        let mut out: Vec<u8> = Vec::new();
        let mut i: usize = 0;
        while i < n
            invariant
                i <= n,
                n == self@.len(),
                out@ == u64_seq_bytes(self@.take(i as int)),
            decreases n - i,
        {
            push_u64_le(&mut out, self[i]);
            proof {
                assert(self@.take(i + 1).drop_last() =~= self@.take(i as int));
                assert(self@.take(i + 1).last() == self@[i as int]);
            }
            i += 1;
        }
        proof {
            assert(self@.take(n as int) =~= self@);
        }
        out
    }

    fn duplicate(&self) -> (r: Self) {
        let n = self.len();
        let mut out: Vec<u64> = Vec::new();
        let mut i: usize = 0;
        while i < n
            invariant
                i <= n,
                n == self@.len(),
                out@ =~= self@.take(i as int),
            decreases n - i,
        {
            out.push(self[i]);
            proof {
                assert(out@ =~= self@.take(i + 1));
            }
            i += 1;
        }
        proof {
            assert(out@ =~= self@);
        }
        out
    }
}

/// The byte content of a sequence of strings: each string's UTF-8 bytes,
/// prefixed by their count, concatenated.
pub open spec fn str_seq_bytes(parts: Seq<Seq<char>>) -> Seq<u8>
    decreases parts.len(),
{
    if parts.len() == 0 {
        Seq::empty()
    } else {
        str_seq_bytes(parts.drop_last()) + u64_le_bytes(
            vstd::utf8::encode_utf8(parts.last()).len() as u64,
        ) + vstd::utf8::encode_utf8(parts.last())
    }
}

impl ContentHash for Vec<String> {
    open spec fn bytes_spec(&self) -> Seq<u8> {
        str_seq_bytes(self.deep_view())
    }

    fn content_bytes(&self) -> (r: Vec<u8>) {
        let n = self.len();
        let mut out: Vec<u8> = Vec::new();
        let mut i: usize = 0;
        while i < n
            invariant
                i <= n,
                n == self@.len(),
                out@ == str_seq_bytes(self.deep_view().take(i as int)),
            decreases n - i,
        {
            let part = &self[i];
            let bytes = part.as_str().as_bytes();
            push_u64_le(&mut out, bytes.len() as u64);
            let mut tail = vstd::slice::slice_to_vec(bytes);
            out.append(&mut tail);
            proof {
                assert(self.deep_view().take(i + 1).drop_last() =~= self.deep_view().take(
                    i as int,
                ));
                assert(self.deep_view().take(i + 1).last() == self@[i as int]@);
                assert(out@ =~= str_seq_bytes(self.deep_view().take(i + 1)));
            }
            i += 1;
        }
        proof {
            assert(self.deep_view().take(n as int) =~= self.deep_view());
        }
        out
    }

    fn duplicate(&self) -> (r: Self) {
        let n = self.len();
        let mut out: Vec<String> = Vec::new();
        let mut i: usize = 0;
        while i < n
            invariant
                i <= n,
                n == self@.len(),
                out@.len() == i,
                forall|j: int| 0 <= j < i ==> (#[trigger] out@[j])@ == self@[j]@,
            decreases n - i,
        {
            let part = self[i].clone();
            proof {
                assert(part@ == self@[i as int]@);
            }
            out.push(part);
            i += 1;
        }
        proof {
            assert forall|j: int| 0 <= j < n implies out.deep_view()[j]
                == self.deep_view()[j] by {
                assert((out@[j])@ == self@[j]@);
            }
            assert(out.deep_view() =~= self.deep_view());
        }
        out
    }
}

impl<'a> ContentHash for &'a str {
    open spec fn bytes_spec(&self) -> Seq<u8> {
        vstd::utf8::encode_utf8((*self)@)
    }

    fn content_bytes(&self) -> (r: Vec<u8>) {
        vstd::slice::slice_to_vec(self.as_bytes())
    }

    fn duplicate(&self) -> (r: Self) {
        *self
    }
}

} // verus!
