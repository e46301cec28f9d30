//! The platform facts a kernel takes from its device tree: the memory region
//! (`reg` of `/memory`) and the regions of the eight virtio MMIO devices
//! (`reg` of `/soc/virtio_mmio@10008000` down to `/soc/virtio_mmio@10001000`).

use vstd::prelude::*;
use vstd::string::StringExecFns;
use crate::dtb::{blob_readable, header_ok, lookup_walk, struct_block, strings_block, Dtb, Lookup};
use crate::fdt_format::{be32, read_be32};
use crate::fdt_tree::{lemma_word, word};

verus! {

/// Memory and device regions of a platform.
pub struct DtbInfo {
    pub memory_addr: usize,
    pub memory_size: usize,
    pub mmio_regions: Vec<(usize, usize)>,
}

/// The region that an absent device stands for in `mmio_regions`.
pub const ABSENT_REGION: (usize, usize) = (1, 2);

/// The big-endian 64-bit value of the first eight bytes of `b`.
pub open spec fn be64(b: Seq<u8>) -> int
    recommends
        b.len() >= 8,
{
    b[0] as int * 0x100_0000_0000_0000 + b[1] as int * 0x1_0000_0000_0000 + b[2] as int
        * 0x100_0000_0000 + b[3] as int * 0x1_0000_0000 + b[4] as int * 0x100_0000 + b[5] as int
        * 0x1_0000 + b[6] as int * 0x100 + b[7] as int
}

/// The big-endian bytes of a 64-bit value.
pub open spec fn word64(x: nat) -> Seq<u8> {
    word(x / 0x1_0000_0000) + word(x % 0x1_0000_0000)
}

/// `be64` is made of the two big-endian words of its bytes, high first.
pub proof fn lemma_be64_split(b: Seq<u8>)
    requires
        b.len() >= 8,
    ensures
        be64(b) == be32(b) * 0x1_0000_0000 + be32(b.skip(4)),
{
    assert(b.skip(4)[0] == b[4] && b.skip(4)[1] == b[5] && b.skip(4)[2] == b[6] && b.skip(4)[3] == b[7]);
}

/// `be64` reads back every 64-bit value from its big-endian bytes.
pub proof fn lemma_be64_round_trip(x: nat)
    requires
        x < 0x1_0000_0000_0000_0000,
    ensures
        word64(x).len() == 8,
        be64(word64(x)) == x,
{
    let hi = x / 0x1_0000_0000;
    let lo = x % 0x1_0000_0000;
    assert(hi < 0x1_0000_0000 && lo < 0x1_0000_0000 && hi * 0x1_0000_0000 + lo == x) by (nonlinear_arith)
        requires
            x < 0x1_0000_0000_0000_0000,
            hi == x / 0x1_0000_0000,
            lo == x % 0x1_0000_0000,
    ;
    lemma_word(hi, word(lo));
    lemma_word(lo, Seq::empty());
    assert(word(lo) + Seq::<u8>::empty() =~= word(lo));
    lemma_be64_split(word64(x));
}

/// A `reg` property written as a big-endian address and size reads back as
/// that address and that size.
pub proof fn lemma_reg_region(addr: nat, size: nat, rest: Seq<u8>)
    requires
        addr < 0x1_0000_0000_0000_0000,
        size < 0x1_0000_0000_0000_0000,
    ensures
        reg_region(word64(addr) + word64(size) + rest) == (addr as int, size as int),
{
    let d = word64(addr) + word64(size) + rest;
    lemma_be64_round_trip(addr);
    lemma_be64_round_trip(size);
    assert(d.take(8) =~= word64(addr));
    assert(d.skip(8).take(8) =~= word64(size));
    assert(be64(d) == be64(d.take(8)));
    assert(be64(d.skip(8)) == be64(d.skip(8).take(8)));
}

/// The (address, size) pair that a `reg` property holds: two big-endian
/// 64-bit words.
pub open spec fn reg_region(data: Seq<u8>) -> (int, int) {
    (be64(data), be64(data.skip(8)))
}

/// The bytes of `"/memory"`.
pub open spec fn memory_path() -> Seq<u8> {
    seq![0x2Fu8, 0x6D, 0x65, 0x6D, 0x6F, 0x72, 0x79]
}

/// The bytes of `"reg"`.
pub open spec fn reg_name() -> Seq<u8> {
    seq![0x72u8, 0x65, 0x67]
}

/// The bytes of `"/soc/virtio_mmio@1000"`.
pub open spec fn mmio_prefix() -> Seq<u8> {
    seq![
        0x2Fu8, 0x73, 0x6F, 0x63, 0x2F, 0x76, 0x69, 0x72, 0x74, 0x69, 0x6F, 0x5F, 0x6D, 0x6D,
        0x69, 0x6F, 0x40, 0x31, 0x30, 0x30, 0x30,
    ]
}

/// The path of the device whose address is `0x1000_0000 + k * 0x1000`, that
/// is `mmio_prefix()` followed by the decimal digits of `k * 1000`, for `k`
/// from 1 to 9.
pub open spec fn mmio_path(k: int) -> Seq<u8> {
    mmio_prefix() + seq![(0x30 + k) as u8, 0x30u8, 0x30u8, 0x30u8]
}

/// The decimal digits of `n`, as `usize::to_string` writes them.
pub open spec fn decimal(n: nat) -> Seq<u8>
    decreases n,
{
    if n < 10 {
        seq![(0x30 + n) as u8]
    } else {
        decimal(n / 10) + seq![(0x30 + n % 10) as u8]
    }
}

/// The path of a device is `"/soc/virtio_mmio@1000"` followed by the
/// decimal digits of `k * 1000`, the offset of its registers.
pub proof fn lemma_mmio_path_decimal(k: int)
    requires
        1 <= k <= 9,
    ensures
        mmio_path(k) == mmio_prefix() + decimal((k * 1000) as nat),
{
    let n = (k * 1000) as nat;
    assert(n / 10 == k * 100 && n % 10 == 0);
    assert((k * 100) as nat / 10 == k * 10 && (k * 100) as nat % 10 == 0);
    assert((k * 10) as nat / 10 == k && (k * 10) as nat % 10 == 0);
    assert(decimal(k as nat) == seq![(0x30 + k) as u8]);
    assert(decimal((k * 10) as nat) =~= seq![(0x30 + k) as u8, 0x30u8]);
    assert(decimal((k * 100) as nat) =~= seq![(0x30 + k) as u8, 0x30u8, 0x30u8]);
    assert(decimal(n) =~= seq![(0x30 + k) as u8, 0x30u8, 0x30u8, 0x30u8]);
}

/// The lookup of `reg` under `path` in the tree of `blob`.
pub open spec fn reg_lookup(blob: Seq<u8>, path: Seq<u8>) -> Lookup {
    lookup_walk(struct_block(blob), strings_block(blob), path, 0, 1, reg_name())
}

/// Whether a `reg` lookup neither meets unreadable bytes nor finds a
/// property too short for an address and a size (whose values a `usize`
/// holds on the 64-bit targets that this reader is built for).
pub open spec fn reg_readable(l: Lookup) -> bool {
    match l {
        Lookup::Found(d) => d.len() >= 16 && reg_region(d).0 <= usize::MAX && reg_region(d).1
            <= usize::MAX,
        Lookup::Absent => true,
        Lookup::Malformed => false,
    }
}

/// The region read from a `reg` lookup, or `default` where it is absent.
pub open spec fn region_or(l: Lookup, default: (int, int)) -> (int, int) {
    match l {
        Lookup::Found(d) => reg_region(d),
        _ => default,
    }
}

/// The index in `mmio_regions` of the device with digit `k` (8 comes first).
pub open spec fn mmio_index(k: int) -> int {
    8 - k
}

/// What parsing the tree of `blob` needs beyond a readable blob: each of the
/// nine `reg` lookups can be read.
pub open spec fn dtb_parsable(blob: Seq<u8>) -> bool {
    header_ok(blob) ==> {
        &&& reg_readable(reg_lookup(blob, memory_path()))
        &&& forall|k: int| 1 <= k <= 8 ==> #[trigger] reg_readable(reg_lookup(blob, mmio_path(k)))
    }
}

/// What [`parse_dtb`] returns for `blob`: an error exactly where the blob
/// holds no tree; otherwise the memory region of `/memory` (or (0, 0)) and
/// the regions of the eight devices, `virtio_mmio@10008000` first (or
/// (1, 2) for a device without `reg`).
pub open spec fn parse_dtb_outcome(blob: Seq<u8>, r: Result<DtbInfo, String>) -> bool {
    &&& r is Ok <==> header_ok(blob)
    &&& r matches Err(e) ==> e@ == "dtb error"@
    &&& r matches Ok(info) ==> {
        &&& (info.memory_addr as int, info.memory_size as int) == region_or(
            reg_lookup(blob, memory_path()),
            (0, 0),
        )
        &&& info.mmio_regions@.len() == 8
        &&& forall|k: int|
            1 <= k <= 8 ==> {
                let region = #[trigger] info.mmio_regions@[mmio_index(k)];
                (region.0 as int, region.1 as int) == region_or(
                    reg_lookup(blob, mmio_path(k)),
                    absent_region(),
                )
            }
    }
}

/// [`ABSENT_REGION`] as integers.
pub open spec fn absent_region() -> (int, int) {
    (ABSENT_REGION.0 as int, ABSENT_REGION.1 as int)
}

/// The big-endian 64-bit word at the start of `s`.
fn read_be64(s: &[u8]) -> (r: u64)
    requires
        s@.len() >= 8,
    ensures
        r == be64(s@),
{
    let high = read_be32(vstd::slice::slice_subrange(s, 0, 4)) as u64;
    let low = read_be32(vstd::slice::slice_subrange(s, 4, 8)) as u64;
    high * 0x1_0000_0000 + low
}

/// The address and size in a `reg` property, where both fit a `usize`.
fn read_region(data: &[u8]) -> (r: Option<(usize, usize)>)
    requires
        data@.len() >= 16,
    ensures
        r is Some <==> reg_region(data@).0 <= usize::MAX && reg_region(data@).1 <= usize::MAX,
        r matches Some(p) ==> p.0 == reg_region(data@).0 && p.1 == reg_region(data@).1,
{
    let (addr, size) = data.split_at(8);
    let addr = read_be64(addr);
    let size = read_be64(size);
    if addr <= usize::MAX as u64 && size <= usize::MAX as u64 {
        Some((addr as usize, size as usize))
    } else {
        None
    }
}

/// The bytes of `mmio_path(k)`.
fn mmio_path_bytes(k: u8) -> (r: Vec<u8>)
    requires
        1 <= k <= 9,
    ensures
        r@ == mmio_path(k as int),
{
    let mut path: Vec<u8> = vec![
        0x2F, 0x73, 0x6F, 0x63, 0x2F, 0x76, 0x69, 0x72, 0x74, 0x69, 0x6F, 0x5F, 0x6D, 0x6D,
        0x69, 0x6F, 0x40, 0x31, 0x30, 0x30, 0x30,
    ];
    path.push(0x30 + k);
    path.push(0x30);
    path.push(0x30);
    path.push(0x30);
    assert(path@ =~= mmio_path(k as int));
    path
}

/// Reads the memory region and the eight virtio MMIO regions from the tree
/// in `blob`. Fails with `"dtb error"` where the blob does not hold a tree.
/// Where `/memory` has no `reg`, the memory region is (0, 0); where a device
/// has none, its region is [`ABSENT_REGION`].
pub fn parse_dtb(blob: &[u8]) -> (r: Result<DtbInfo, String>)
    requires
        blob_readable(blob@),
        dtb_parsable(blob@),
    ensures
        parse_dtb_outcome(blob@, r),
{
    match Dtb::from_raw(blob) {
        None => Err(String::from_str("dtb error")),
        Some(dtb) => {
            let reg: Vec<u8> = vec![0x72, 0x65, 0x67];
            let memory: Vec<u8> = vec![0x2F, 0x6D, 0x65, 0x6D, 0x6F, 0x72, 0x79];
            assert(reg@ =~= reg_name());
            assert(memory@ =~= memory_path());
            let mut memory_addr: usize = 0;
            let mut memory_size: usize = 0;
            match dtb.try_get_property(memory.as_slice(), reg.as_slice()) {
                Ok(Some(memory_addr_property)) => {
                    if let Some((addr, size)) = read_region(memory_addr_property) {
                        memory_addr = addr;
                        memory_size = size;
                    }
                },
                _ => {},
            }
            let mut mmio_regions: Vec<(usize, usize)> = Vec::new();
            let mut k: u8 = 8;
            while k > 0
                invariant
                    k <= 8,
                    mmio_regions@.len() == 8 - k,
                    reg@ == reg_name(),
                    dtb.struct_slice@ == struct_block(blob@),
                    dtb.strings_slice@ == strings_block(blob@),
                    forall|j: int| 1 <= j <= 8 ==> #[trigger] reg_readable(reg_lookup(blob@, mmio_path(j))),
                    forall|j: int|
                        k < j <= 8 ==> {
                            let region = #[trigger] mmio_regions@[mmio_index(j)];
                            (region.0 as int, region.1 as int) == region_or(
                                reg_lookup(blob@, mmio_path(j)),
                                absent_region(),
                            )
                        },
                decreases k,
            {
                let path = mmio_path_bytes(k);
                assert(reg_readable(reg_lookup(blob@, mmio_path(k as int))));
                let region = match dtb.try_get_property(path.as_slice(), reg.as_slice()) {
                    Ok(Some(mmio_property)) => match read_region(mmio_property) {
                        Some(region) => region,
                        None => ABSENT_REGION,
                    },
                    _ => ABSENT_REGION,
                };
                mmio_regions.push(region);
                k = k - 1;
            }
            Ok(DtbInfo { memory_addr, memory_size, mmio_regions })
        },
    }
}

/// Whether [`parse_dtb`] can read the tree in `blob`, checked by running
/// its lookups.
pub fn dtb_is_parsable(blob: &[u8]) -> (r: bool)
    requires
        blob_readable(blob@),
    ensures
        r == dtb_parsable(blob@),
{
    match Dtb::from_raw(blob) {
        None => true,
        Some(dtb) => {
            let reg: Vec<u8> = vec![0x72, 0x65, 0x67];
            let memory: Vec<u8> = vec![0x2F, 0x6D, 0x65, 0x6D, 0x6F, 0x72, 0x79];
            assert(reg@ =~= reg_name());
            assert(memory@ =~= memory_path());
            if !lookup_readable(&dtb, memory.as_slice(), reg.as_slice()) {
                return false;
            }
            let mut k: u8 = 8;
            while k > 0
                invariant
                    k <= 8,
                    header_ok(blob@),
                    reg@ == reg_name(),
                    dtb.struct_slice@ == struct_block(blob@),
                    dtb.strings_slice@ == strings_block(blob@),
                    forall|j: int| k < j <= 8 ==> #[trigger] reg_readable(reg_lookup(blob@, mmio_path(j))),
                decreases k,
            {
                let path = mmio_path_bytes(k);
                if !lookup_readable(&dtb, path.as_slice(), reg.as_slice()) {
                    assert(!reg_readable(reg_lookup(blob@, mmio_path(k as int))));
                    return false;
                }
                k = k - 1;
            }
            true
        },
    }
}

/// Whether the lookup of `property` under `path` is readable as a region.
fn lookup_readable(dtb: &Dtb, path: &[u8], property: &[u8]) -> (r: bool)
    ensures
        r == reg_readable(
            lookup_walk(dtb.struct_slice@, dtb.strings_slice@, path@, 0, 1, property@),
        ),
{
    match dtb.try_get_property(path, property) {
        Ok(Some(data)) => data.len() >= 16 && read_region(data).is_some(),
        Ok(None) => true,
        Err(_) => false,
    }
}

/// [`parse_dtb`] on any readable blob: `None` where the tree cannot be read
/// as [`dtb_parsable`] asks, which is where `parse_dtb` would not return.
pub fn parse_dtb_checked(blob: &[u8]) -> (r: Option<Result<DtbInfo, String>>)
    requires
        blob_readable(blob@),
    ensures
        r is None <==> !dtb_parsable(blob@),
        r matches Some(res) ==> parse_dtb_outcome(blob@, res),
{
    if dtb_is_parsable(blob) {
        Some(parse_dtb(blob))
    } else {
        None
    }
}

} // verus!
