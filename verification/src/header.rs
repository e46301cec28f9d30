//! The loader's view of an application image in flash memory.
//!
//! Memory is modelled as a byte slice `mem`; an address is an offset into it.
//! The image starts with a size field of `ptr_len` bytes, of which the first
//! two bytes hold a big-endian 16-bit value.

use vstd::prelude::*;

verus! {

/// The big-endian 16-bit value held by the first two bytes of `b`.
pub open spec fn be16(b: Seq<u8>) -> int
    recommends
        b.len() >= 2,
{
    b[0] as int * 256 + b[1] as int
}

/// The big-endian bytes of a 16-bit value.
pub open spec fn u16_be_bytes(x: nat) -> Seq<u8> {
    seq![(x / 256) as u8, (x % 256) as u8]
}

/// `be16` reads back every 16-bit value from its big-endian bytes, so a
/// size field holds exactly the value written into it.
pub proof fn lemma_be16_round_trip(x: nat)
    requires
        x < 0x1_0000,
    ensures
        be16(u16_be_bytes(x)) == x,
        u16_be_bytes(x).len() == 2,
{
    assert((x / 256) * 256 + x % 256 == x) by (nonlinear_arith);
    assert(x / 256 < 256) by (nonlinear_arith)
        requires
            x < 0x1_0000,
    ;
}

/// One application found in the image: where its content starts, its size,
/// and the content itself.
pub struct AppHeader<'a> {
    pub start: usize,
    pub size: usize,
    pub content: &'a [u8],
}

impl<'a> AppHeader<'a> {
    pub fn new(start: usize, size: usize, content: &'a [u8]) -> (r: Self)
        ensures
            r.start == start,
            r.size == size,
            r.content@ == content@,
    {
        Self { start, size, content }
    }
}

/// The image header reader; `ptr_len` is the width in bytes of a size field.
pub struct ImageHeader {
    pub ptr_len: usize,
}

impl ImageHeader {
    pub fn new(ptr_len: usize) -> (r: Self)
        ensures
            r.ptr_len == ptr_len,
    {
        Self { ptr_len }
    }

    /// Reads the number of applications from the size field at `image_start`.
    pub fn load_app_nums(&self, mem: &[u8], image_start: usize) -> (r: usize)
        requires
            self.ptr_len >= 2,
            image_start + self.ptr_len <= mem.len(),
        ensures
            r == be16(mem@.subrange(image_start as int, image_start + self.ptr_len)),
    {
        let app_size = self.read_bytes(mem, image_start, self.ptr_len);
        self.bytes_to_usize(app_size)
    }

    /// Reads the application whose size field starts at `app_start`: the
    /// content follows the size field and is as long as that field says.
    pub fn load_app<'a>(&self, mem: &'a [u8], app_start: usize) -> (r: AppHeader<'a>)
        requires
            self.ptr_len >= 2,
            app_start + self.ptr_len <= mem.len(),
            app_start + self.ptr_len + be16(mem@.subrange(app_start as int, app_start + self.ptr_len))
                <= mem.len(),
        ensures
            r.start == app_start + self.ptr_len,
            r.size == be16(mem@.subrange(app_start as int, app_start + self.ptr_len)),
            r.content@ == mem@.subrange(r.start as int, r.start + r.size),
    {
        let tmp = self.read_bytes(mem, app_start, self.ptr_len);
        let app_size = self.bytes_to_usize(tmp);
        let app_start = app_start + self.ptr_len;
        AppHeader::new(app_start, app_size, self.read_bytes(mem, app_start, app_size))
    }

    /// The `ptr_len` bytes at `ptr`.
    fn read_bytes<'a>(&self, mem: &'a [u8], ptr: usize, ptr_len: usize) -> (r: &'a [u8])
        requires
            ptr + ptr_len <= mem.len(),
        ensures
            r@ == mem@.subrange(ptr as int, ptr + ptr_len),
    {
        vstd::slice::slice_subrange(mem, ptr, ptr + ptr_len)
    }

    /// The big-endian value of the first two bytes.
    fn bytes_to_usize(&self, binary: &[u8]) -> (r: usize)
        requires
            binary@.len() >= 2,
        ensures
            r == be16(binary@),
    {
        let high_byte = binary[0] as usize;
        let low_byte = binary[1] as usize;
        high_byte * 256 + low_byte
    }
}

} // verus!
