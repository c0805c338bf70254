//! Byte-stream operations of a deque of bytes: reading consumes bytes from the front,
//! writing appends them at the back, up to the capacity.
use vstd::prelude::*;
use super::ArrayDeque;
use super::drain::drain_head;
use crate::range::IndexRange;
use crate::ring::{first_run_len, contiguous_head};
use vstd::utf8::{valid_utf8, decode_utf8, encode_utf8_decode_utf8};
use vstd::string::{StringExecFns, StringSliceAdditionalSpecFns};

verus! {

/// The bytes as text, if they are valid UTF-8 (std's `core::str::from_utf8`): the text has
/// exactly these bytes as its encoding.
#[verifier::external_body]
fn utf8_text(bytes: &[u8]) -> (r: Option<&str>)
    ensures
        r is Some <==> valid_utf8(bytes@),
        r matches Some(s) ==> s.spec_bytes() == bytes@,
{
    match core::str::from_utf8(bytes) {
        Ok(s) => Some(s),
        Err(_) => None,
    }
}

/// The smaller of two lengths.
fn min_len(a: usize, b: usize) -> (r: usize)
    ensures
        r == if a <= b { a } else { b },
{
    if a <= b {
        a
    } else {
        b
    }
}

impl<const N: usize> ArrayDeque<u8, N> {
    /// Appends all of `buf` to the back; the bytes must fit.
    fn extend_bytes(&mut self, buf: &[u8])
        requires
            old(self).wf(),
            old(self)@.len() + buf@.len() <= N,
        ensures
            final(self).wf(),
            final(self).physical_head() == old(self).physical_head(),
            final(self)@ == old(self)@ + buf@,
    {
        let mut i: usize = 0;
        while i < buf.len()
            invariant
                self.wf(),
                self.physical_head() == old(self).physical_head(),
                old(self)@.len() + buf@.len() <= N,
                i <= buf@.len(),
                self@ == old(self)@ + buf@.take(i as int),
            decreases buf@.len() - i,
        {
            self.push_back(buf[i]);
            assert(buf@.take(i + 1) =~= buf@.take(i as int).push(buf@[i as int]));
            i = i + 1;
        }
        assert(buf@.take(i as int) =~= buf@);
    }

    /// Removes the first `n` bytes (which must be there), the way `drain(..n)` does.
    fn consume_front(&mut self, n: usize)
        requires
            old(self).wf(),
            n <= old(self)@.len(),
        ensures
            final(self).wf(),
            final(self)@ == old(self)@.skip(n as int),
            final(self).physical_head() == drain_head(old(self).physical_head(), 0, n as int, old(self)@.len() as int, N as int),
    {
        let _removed = self.drain(IndexRange::up_to(n));
        assert(old(self)@.take(0) + old(self)@.skip(n as int) =~= old(self)@.skip(n as int));
    }

    /// Copies the first `n` bytes into the front of `buf`.
    fn copy_front_into(&self, buf: &mut [u8], n: usize)
        requires
            self.wf(),
            n <= self@.len(),
            n <= old(buf)@.len(),
        ensures
            final(buf)@.len() == old(buf)@.len(),
            final(buf)@.take(n as int) == self@.take(n as int),
            final(buf)@.skip(n as int) == old(buf)@.skip(n as int),
    {
        let mut i: usize = 0;
        while i < n
            invariant
                self.wf(),
                i <= n <= self@.len(),
                n <= old(buf)@.len(),
                buf@.len() == old(buf)@.len(),
                forall|k: int| 0 <= k < i ==> #[trigger] buf@[k] == self@[k],
                forall|k: int| i <= k < buf@.len() ==> #[trigger] buf@[k] == old(buf)@[k],
            decreases n - i,
        {
            let b = *self.get(i).unwrap();
            buf[i] = b;
            i = i + 1;
        }
        assert(buf@.take(n as int) =~= self@.take(n as int));
        assert(buf@.skip(n as int) =~= old(buf)@.skip(n as int));
    }

    /// Reads bytes from the front into `buf`: as many as fit, from the first run of slots
    /// only (the first slice of `as_slices`). The bytes read are removed. Returns how many
    /// were read; the rest of `buf` is left as it was.
    pub fn read(&mut self, buf: &mut [u8]) -> (n: usize)
        requires
            old(self).wf(),
        ensures
            final(self).wf(),
            n == if first_run_len(old(self).physical_head(), old(self)@.len() as int, N as int)
                <= old(buf)@.len() {
                first_run_len(old(self).physical_head(), old(self)@.len() as int, N as int)
            } else {
                old(buf)@.len() as int
            },
            final(buf)@.len() == old(buf)@.len(),
            final(buf)@.take(n as int) == old(self)@.take(n as int),
            final(buf)@.skip(n as int) == old(buf)@.skip(n as int),
            final(self)@ == old(self)@.skip(n as int),
            final(self).physical_head() == drain_head(old(self).physical_head(), 0, n as int, old(self)@.len() as int, N as int),
    {
        let front = self.front_run_len();
        let n = min_len(front, buf.len());
        self.copy_front_into(buf, n);
        self.consume_front(n);
        n
    }

    /// Fills all of `buf` with bytes from the front and removes them. Returns `false`, and
    /// changes neither the deque nor `buf`, if the deque holds fewer bytes than `buf` needs.
    pub fn read_exact(&mut self, buf: &mut [u8]) -> (r: bool)
        requires
            old(self).wf(),
        ensures
            final(self).wf(),
            r == (old(buf)@.len() <= old(self)@.len()),
            r ==> final(buf)@ == old(self)@.take(old(buf)@.len() as int) && final(self)@ == old(
                self,
            )@.skip(old(buf)@.len() as int) && final(self).physical_head() == drain_head(
                old(self).physical_head(),
                0,
                old(buf)@.len() as int,
                old(self)@.len() as int,
                N as int,
            ),
            !r ==> final(buf)@ == old(buf)@ && final(self)@ == old(self)@ && final(self).physical_head()
                == old(self).physical_head(),
    {
        let n = buf.len();
        if n > self.len {
            return false;
        }
        self.copy_front_into(buf, n);
        proof {
            assert(buf@ =~= buf@.take(n as int));
        }
        self.consume_front(n);
        true
    }

    /// Appends all the bytes to `buf`, empties the deque and returns how many there were.
    pub fn read_to_end(&mut self, buf: &mut Vec<u8>) -> (n: usize)
        requires
            old(self).wf(),
        ensures
            final(self).wf(),
            n == old(self)@.len(),
            final(buf)@ == old(buf)@ + old(self)@,
            final(self)@ == Seq::<u8>::empty(),
            final(self).physical_head() == 0,
    {
        let len = self.len;
        let mut i: usize = 0;
        while i < len
            invariant
                self.wf(),
                self@ == old(self)@,
                len == self@.len(),
                i <= len,
                buf@ == old(buf)@ + self@.take(i as int),
            decreases len - i,
        {
            let b = *self.get(i).unwrap();
            buf.push(b);
            assert(self@.take(i + 1) =~= self@.take(i as int).push(b));
            i = i + 1;
        }
        assert(self@.take(len as int) =~= self@);
        self.clear();
        len
    }

    /// If the bytes are valid UTF-8, appends the text they encode to `buf`, empties the deque
    /// and returns the number of bytes. Otherwise returns `None` and leaves `buf` and the
    /// contents unchanged. Either way the bytes are first made contiguous, as
    /// `make_contiguous` does.
    pub fn read_to_string(&mut self, buf: &mut String) -> (r: Option<usize>)
        requires
            old(self).wf(),
        ensures
            final(self).wf(),
            r is Some <==> valid_utf8(old(self)@),
            r matches Some(n) ==> n == old(self)@.len() && final(buf)@ == old(buf)@ + decode_utf8(old(self)@)
                && final(self)@ == Seq::<u8>::empty() && final(self).physical_head() == 0,
            r is None ==> final(buf)@ == old(buf)@ && final(self)@ == old(self)@ && final(self).physical_head()
                == contiguous_head(old(self).physical_head(), old(self)@.len() as int, N as int),
    {
        self.rearrange_contiguous();
        let bytes = self.to_bytes();
        match utf8_text(bytes.as_slice()) {
            Some(s) => {
                proof {
                    encode_utf8_decode_utf8(s@);
                }
                buf.append(s);
                let len = self.len;
                self.clear();
                Some(len)
            },
            None => None,
        }
    }

    /// The bytes, front to back, in a new `Vec`.
    fn to_bytes(&self) -> (v: Vec<u8>)
        requires
            self.wf(),
        ensures
            v@ == self@,
    {
        let mut v: Vec<u8> = Vec::new();
        let mut i: usize = 0;
        while i < self.len
            invariant
                self.wf(),
                i <= self@.len(),
                v@ == self@.take(i as int),
            decreases self@.len() - i,
        {
            v.push(*self.get(i).unwrap());
            assert(self@.take(i + 1) =~= self@.take(i as int).push(self@[i as int]));
            i = i + 1;
        }
        assert(self@.take(i as int) =~= self@);
        v
    }

    /// The bytes of the first run of slots (the first slice of `as_slices`), which reading
    /// consumes first.
    pub fn fill_buf(&self) -> (r: Vec<u8>)
        requires
            self.wf(),
        ensures
            r@ == self@.take(first_run_len(self.physical_head(), self@.len() as int, N as int)),
    {
        let front = self.front_run_len();
        let mut r: Vec<u8> = Vec::new();
        let mut i: usize = 0;
        while i < front
            invariant
                self.wf(),
                front <= self@.len(),
                i <= front,
                r@ == self@.take(i as int),
            decreases front - i,
        {
            r.push(*self.get(i).unwrap());
            assert(self@.take(i + 1) =~= self@.take(i as int).push(self@[i as int]));
            i = i + 1;
        }
        r
    }

    /// Removes the first `amt` bytes, which must be there.
    pub fn consume(&mut self, amt: usize)
        requires
            old(self).wf(),
            amt <= old(self)@.len(),
        ensures
            final(self).wf(),
            final(self)@ == old(self)@.skip(amt as int),
            final(self).physical_head() == drain_head(old(self).physical_head(), 0, amt as int, old(self)@.len() as int, N as int),
    {
        self.consume_front(amt);
    }

    /// Appends as many bytes of `buf` as fit and returns how many that was.
    pub fn write(&mut self, buf: &[u8]) -> (n: usize)
        requires
            old(self).wf(),
        ensures
            final(self).wf(),
            final(self).physical_head() == old(self).physical_head(),
            n == if N - old(self)@.len() <= buf@.len() { N - old(self)@.len() } else { buf@.len() as int },
            final(self)@ == old(self)@ + buf@.take(n as int),
    {
        let remaining = self.remaining_capacity();
        if remaining == 0 || buf.len() == 0 {
            assert(old(self)@ + buf@.take(0) =~= old(self)@);
            return 0;
        }
        let n = min_len(remaining, buf.len());
        let part = vstd::slice::slice_subrange(buf, 0, n);
        self.extend_bytes(part);
        n
    }

    /// Appends the buffers in order, as many bytes as fit, and returns how many that was:
    /// like `write` on their concatenation.
    pub fn write_vectored(&mut self, bufs: &[&[u8]]) -> (n: usize)
        requires
            old(self).wf(),
        ensures
            final(self).wf(),
            final(self).physical_head() == old(self).physical_head(),
            ({
                let all = bufs@.map_values(|b: &[u8]| b@).flatten();
                &&& n == if N - old(self)@.len() <= all.len() { N - old(self)@.len() } else { all.len() as int }
                &&& final(self)@ == old(self)@ + all.take(n as int)
            }),
    {
        let ghost parts = bufs@.map_values(|b: &[u8]| b@);
        let mut written: usize = 0;
        let mut k: usize = 0;
        proof {
            assert(bufs@.len() == 0 ==> parts.take(0) =~= parts);
            assert(parts.take(0) =~= Seq::<Seq<u8>>::empty());
            assert(old(self)@ + Seq::<Seq<u8>>::empty().flatten() =~= old(self)@);
        }
        while k < bufs.len()
            invariant_except_break
                self.wf(),
                self.physical_head() == old(self).physical_head(),
                parts == bufs@.map_values(|b: &[u8]| b@),
                k <= bufs@.len(),
                written == parts.take(k as int).flatten().len(),
                self@ == old(self)@ + parts.take(k as int).flatten(),
                self@.len() <= N,
                k == bufs@.len() ==> parts.take(k as int) == parts,
            ensures
                self.wf(),
                self.physical_head() == old(self).physical_head(),
                ({
                    let all = parts.flatten();
                    &&& written == if N - old(self)@.len() <= all.len() { N - old(self)@.len() } else { all.len() as int }
                    &&& self@ == old(self)@ + all.take(written as int)
                }),
            decreases bufs@.len() - k,
        {
            let b = bufs[k];
            let remaining = self.remaining_capacity();
            proof {
                assert(parts.take(k + 1) =~= parts.take(k as int).push(b@));
                parts.take(k as int).lemma_flatten_push(b@);
                lemma_flatten_prefix(parts, k as int);
            }
            if remaining == 0 {
                proof {
                    lemma_full_prefix(parts, k as int, old(self)@.len() as int, N as int);
                }
                break;
            }
            let m = min_len(remaining, b.len());
            let part = vstd::slice::slice_subrange(b, 0, m);
            self.extend_bytes(part);
            written = written + m;
            if m < b.len() {
                proof {
                    lemma_partial_prefix(parts, k as int, m as int);
                }
                break;
            }
            proof {
                assert(b@.subrange(0, m as int) =~= b@);
                assert(k + 1 == bufs@.len() ==> parts.take(k + 1) =~= parts);
            }
            k = k + 1;
        }
        written
    }

    /// Appends all of `buf` if it fits; else returns `false` and leaves the deque unchanged.
    pub fn write_all(&mut self, buf: &[u8]) -> (r: bool)
        requires
            old(self).wf(),
        ensures
            final(self).wf(),
            final(self).physical_head() == old(self).physical_head(),
            r == (old(self)@.len() + buf@.len() <= N),
            r ==> final(self)@ == old(self)@ + buf@,
            !r ==> final(self)@ == old(self)@,
    {
        if buf.len() > self.remaining_capacity() {
            return false;
        }
        self.extend_bytes(buf);
        true
    }
}

/// The concatenation of the first `k` parts is a prefix of the concatenation of all.
proof fn lemma_flatten_prefix(parts: Seq<Seq<u8>>, k: int)
    requires
        0 <= k <= parts.len(),
    ensures
        parts.flatten() == parts.take(k).flatten() + parts.skip(k).flatten(),
    decreases parts.len() - k,
{
    if k == parts.len() {
        assert(parts.take(k) =~= parts);
        assert(parts.skip(k) =~= Seq::<Seq<u8>>::empty());
        assert(parts.flatten() =~= parts.flatten() + Seq::<u8>::empty());
    } else {
        lemma_flatten_prefix(parts, k + 1);
        assert(parts.take(k + 1) =~= parts.take(k).push(parts[k]));
        parts.take(k).lemma_flatten_push(parts[k]);
        assert(parts.skip(k) =~= seq![parts[k]] + parts.skip(k + 1));
        lemma_flatten_cons(parts[k], parts.skip(k + 1));
        assert(parts.take(k).flatten() + parts[k] + parts.skip(k + 1).flatten() =~= parts.take(k).flatten()
            + (parts[k] + parts.skip(k + 1).flatten()));
    }
}

/// Flattening a sequence that starts with `a` gives `a` followed by the rest flattened.
proof fn lemma_flatten_cons(a: Seq<u8>, rest: Seq<Seq<u8>>)
    ensures
        (seq![a] + rest).flatten() == a + rest.flatten(),
{
    assert((seq![a] + rest).drop_first() =~= rest);
}

/// Once the first `k` parts have filled the deque, taking as many bytes of all parts as fit
/// gives exactly the first `k` parts.
proof fn lemma_full_prefix(parts: Seq<Seq<u8>>, k: int, l0: int, cap: int)
    requires
        0 <= k <= parts.len(),
        l0 + parts.take(k).flatten().len() == cap,
    ensures
        cap - l0 <= parts.flatten().len(),
        parts.flatten().take(cap - l0) == parts.take(k).flatten(),
{
    lemma_flatten_prefix(parts, k);
    assert(parts.flatten().take(cap - l0) =~= parts.take(k).flatten());
}

/// Taking the first `k` parts and then `m` bytes of part `k` is a prefix of all parts.
proof fn lemma_partial_prefix(parts: Seq<Seq<u8>>, k: int, m: int)
    requires
        0 <= k < parts.len(),
        0 <= m < parts[k].len(),
    ensures
        parts.take(k).flatten().len() + m < parts.flatten().len(),
        parts.flatten().take(parts.take(k).flatten().len() + m) == parts.take(k).flatten() + parts[k].take(m),
{
    lemma_flatten_prefix(parts, k);
    lemma_flatten_cons(parts[k], parts.skip(k + 1));
    assert(parts.skip(k) =~= seq![parts[k]] + parts.skip(k + 1));
    let pre = parts.take(k).flatten();
    assert(parts.flatten() =~= pre + (parts[k] + parts.skip(k + 1).flatten()));
    assert(parts.flatten().take(pre.len() + m) =~= pre + parts[k].take(m));
}

} // verus!
