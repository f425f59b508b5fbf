//! Byte storage behind an index, with bounds-checked little-endian reads.
use vstd::prelude::*;

verus! {

/// Declares `memmap2::Mmap` so that a mapped file can be held by `Storage`.
#[verifier::external_type_specification]
#[verifier::external_body]
pub struct ExMmap(memmap2::Mmap);

/// The bytes of a read-only memory map.
pub uninterp spec fn mapped_bytes(m: memmap2::Mmap) -> Seq<u8>;

/// Relies on `Deref<Target = [u8]>` for `memmap2::Mmap`: the slice of the
/// mapped region, which stays the same for the life of the read-only map.
#[verifier::external_body]
fn mapped_slice(m: &memmap2::Mmap) -> (r: &[u8])
    ensures
        r@ == mapped_bytes(*m),
{
    &m[..]
}

/// The unsigned value of the four little-endian bytes of `s` at `off`.
pub open spec fn le_u32(s: Seq<u8>, off: int) -> nat {
    (s[off] as nat) + 256 * (s[off + 1] as nat) + 65536 * (s[off + 2] as nat) + 16777216 * (
    s[off + 3] as nat)
}

/// The signed (two's complement) value of the four little-endian bytes of `s` at `off`.
pub open spec fn le_i32(s: Seq<u8>, off: int) -> i32 {
    (le_u32(s, off) as u32) as i32
}

/// Four bytes at `off` lie inside `s`.
pub open spec fn word_in(s: Seq<u8>, off: int) -> bool {
    0 <= off && off + 4 <= s.len()
}

/// A contiguous read-only byte region: a mapped file or an owned buffer.
pub enum Storage {
    Mapped(memmap2::Mmap),
    Buffer(Vec<u8>),
}

impl View for Storage {
    type V = Seq<u8>;

    open spec fn view(&self) -> Seq<u8> {
        match self {
            Storage::Mapped(m) => mapped_bytes(*m),
            Storage::Buffer(b) => b@,
        }
    }
}

/// Reads the little-endian `u32` of `bytes` at `off`.
pub fn read_u32_at(bytes: &[u8], off: usize) -> (r: u32)
    requires
        word_in(bytes@, off as int),
    ensures
        r as nat == le_u32(bytes@, off as int),
{
    let b0 = bytes[off] as u32;
    let b1 = bytes[off + 1] as u32;
    let b2 = bytes[off + 2] as u32;
    let b3 = bytes[off + 3] as u32;
    b0 + 256 * b1 + 65536 * b2 + 16777216 * b3
}

impl Storage {
    /// The whole region as a byte slice.
    pub fn as_slice(&self) -> (r: &[u8])
        ensures
            r@ == self@,
    {
        match self {
            Storage::Mapped(m) => mapped_slice(m),
            Storage::Buffer(b) => b.as_slice(),
        }
    }

    /// Length of the region in bytes.
    pub fn len(&self) -> (r: usize)
        ensures
            r == self@.len(),
    {
        self.as_slice().len()
    }

    /// Reads the little-endian `i32` at `off`.
    pub fn read_i32(&self, off: usize) -> (r: i32)
        requires
            word_in(self@, off as int),
        ensures
            r == le_i32(self@, off as int),
    {
        read_u32_at(self.as_slice(), off) as i32
    }

    /// Reads the raw bits of the little-endian `f32` at `off`.
    pub fn read_f32_bits(&self, off: usize) -> (r: u32)
        requires
            word_in(self@, off as int),
        ensures
            r as nat == le_u32(self@, off as int),
    {
        read_u32_at(self.as_slice(), off)
    }

    /// Reads `len` consecutive little-endian `i32` values starting at `off`.
    pub fn read_i32_slice(&self, off: usize, len: usize) -> (r: Vec<i32>)
        requires
            off + 4 * len <= self@.len(),
        ensures
            r@.len() == len,
            forall|j: int| 0 <= j < len ==> r@[j] == le_i32(self@, off + 4 * j),
    {
        let bytes = self.as_slice();
        let region_len = bytes.len();
        let mut r: Vec<i32> = Vec::new();
        let mut j: usize = 0;
        let mut pos: usize = off;
        while j < len
            invariant
                pos == off + 4 * j,
                bytes@ == self@,
                region_len == bytes@.len(),
                off + 4 * len <= bytes@.len(),
                j <= len,
                r@.len() == j,
                forall|k: int| 0 <= k < j ==> r@[k] == le_i32(self@, off + 4 * k),
            decreases len - j,
        {
            r.push(read_u32_at(bytes, pos) as i32);
            pos = pos + 4;
            j = j + 1;
        }
        r
    }

    /// Reads the raw bits of `len` consecutive little-endian `f32` values starting at `off`.
    pub fn read_f32_bits_slice(&self, off: usize, len: usize) -> (r: Vec<u32>)
        requires
            off + 4 * len <= self@.len(),
        ensures
            r@.len() == len,
            forall|j: int| 0 <= j < len ==> r@[j] as nat == le_u32(self@, off + 4 * j),
    {
        let bytes = self.as_slice();
        let region_len = bytes.len();
        let mut r: Vec<u32> = Vec::new();
        let mut j: usize = 0;
        let mut pos: usize = off;
        while j < len
            invariant
                pos == off + 4 * j,
                bytes@ == self@,
                region_len == bytes@.len(),
                off + 4 * len <= bytes@.len(),
                j <= len,
                r@.len() == j,
                forall|k: int| 0 <= k < j ==> r@[k] as nat == le_u32(self@, off + 4 * k),
            decreases len - j,
        {
            r.push(read_u32_at(bytes, pos));
            pos = pos + 4;
            j = j + 1;
        }
        r
    }
}

} // verus!
