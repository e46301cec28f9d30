//! Reading a flattened device tree: the header, property lookup by path, and
//! enumeration of the subnodes and properties of a node.
//!
//! A tree is given as the bytes of its blob. The readers walk the structure
//! block token by token, keeping the rest of the block, the part of the path
//! not yet matched, the current nesting level and the level on which the next
//! path component is looked for. Each walk is stated as a recursive spec
//! function over that state; where the walk meets bytes that cannot be read
//! (a truncated block, a name that is not UTF-8, an unknown token, ...) the
//! spec says `Malformed`.

use vstd::prelude::*;
use vstd::string::StringSliceAdditionalSpecFns;
use crate::fdt_format::{
    align4, be32, bytes_eq, cstr_len, match_component, parse_begin_node, parse_prop_data_length,
    parse_prop_name, parse_token, read_be32, lemma_align4, lemma_cstr_len, begin_node_malformed, begin_node_rest, component_malformed, cstr,
    path_after_component, prop_name_at, prop_name_malformed, DTB_MAGIC, DTB_VERSION,
    FDT_BEGIN_NODE, FDT_END, FDT_END_NODE, FDT_NOP, FDT_PROP,
};

verus! {

/// The decoded header words of a device tree blob.
pub struct DtbHeader {
    pub magic: u32,
    pub totalsize: u32,
    pub off_dt_struct: u32,
    pub off_dt_strings: u32,
    pub off_mem_rsvmap: u32,
    pub version: u32,
    pub last_comp_version: u32,
    pub boot_cpuid_phys: u32,
    pub size_dt_strings: u32,
    pub size_dt_struct: u32,
}

/// A device tree: its header, its structure block and its strings block.
pub struct Dtb<'a> {
    pub header: DtbHeader,
    pub struct_slice: &'a [u8],
    pub strings_slice: &'a [u8],
}

/// The error of the checked readers: the walk met bytes that it cannot read.
#[derive(Debug, PartialEq, Eq, Clone, Copy)]
pub struct MalformedTree;

/// The `i`-th big-endian word of the header at the start of `blob`.
pub open spec fn header_word(blob: Seq<u8>, i: int) -> int {
    be32(blob.skip(4 * i))
}

/// Whether the header carries the magic number and the supported version.
pub open spec fn header_ok(blob: Seq<u8>) -> bool {
    header_word(blob, 0) == DTB_MAGIC && header_word(blob, 5) == DTB_VERSION
}

/// The structure block that the header of `blob` points to.
pub open spec fn struct_block(blob: Seq<u8>) -> Seq<u8> {
    blob.subrange(header_word(blob, 2), header_word(blob, 2) + header_word(blob, 9))
}

/// The strings block that the header of `blob` points to.
pub open spec fn strings_block(blob: Seq<u8>) -> Seq<u8> {
    blob.subrange(header_word(blob, 3), header_word(blob, 3) + header_word(blob, 8))
}

/// What reading a tree from `blob` needs: the whole header lies in it and,
/// when the header is accepted, so do both blocks that it points to.
pub open spec fn blob_readable(blob: Seq<u8>) -> bool {
    &&& blob.len() >= 40
    &&& header_ok(blob) ==> {
        &&& header_word(blob, 2) + header_word(blob, 9) <= blob.len()
        &&& header_word(blob, 3) + header_word(blob, 8) <= blob.len()
    }
}

/// The state of a walk over a structure block.
pub struct WalkState {
    pub rest: Seq<u8>,
    pub path: Seq<u8>,
    pub nesting: int,
    pub looking: int,
}

/// The outcome of a property lookup.
pub enum Lookup {
    Found(Seq<u8>),
    Absent,
    Malformed,
}

/// The outcome of one step of an enumeration.
pub enum Step {
    Yield(Seq<u8>),
    Finished,
    Malformed,
}

/// The state after a FDT_BEGIN_NODE token whose node name starts `r`, while a
/// path component is still to be matched; `None` where this fails.
pub open spec fn enter_node(r: Seq<u8>, path: Seq<u8>, nesting: int, looking: int) -> Option<
    WalkState,
> {
    if nesting + 1 > usize::MAX || begin_node_malformed(r) {
        None
    } else {
        let name = cstr(r);
        let next = begin_node_rest(r);
        if looking == nesting + 1 {
            if component_malformed(path, name) {
                None
            } else {
                match path_after_component(path, name) {
                    Some(p) => if looking + 1 > usize::MAX {
                        None
                    } else {
                        Some(WalkState { rest: next, path: p, nesting: nesting + 1, looking: looking + 1 })
                    },
                    None => Some(WalkState { rest: next, path, nesting: nesting + 1, looking }),
                }
            }
        } else {
            Some(WalkState { rest: next, path, nesting: nesting + 1, looking })
        }
    }
}

/// What follows a property whose FDT_PROP token has just been read, where
/// the property is skipped; `None` where it does not fit.
pub open spec fn skip_property(r: Seq<u8>) -> Option<Seq<u8>> {
    if r.len() < 4 || be32(r) + 3 > usize::MAX || r.len() < 8 || align4(be32(r)) > r.len() - 8 {
        None
    } else {
        Some(r.skip(8).skip(align4(be32(r))))
    }
}

/// Entering a node consumes its name.
pub proof fn lemma_enter_node_shrinks(r: Seq<u8>, path: Seq<u8>, nesting: int, looking: int)
    ensures
        enter_node(r, path, nesting, looking) matches Some(s) ==> s.rest.len() < r.len(),
{
    lemma_cstr_len(r);
    lemma_align4(cstr_len(r) + 1);
}

/// Skipping a property consumes its header and its data.
pub proof fn lemma_skip_property_shrinks(r: Seq<u8>)
    ensures
        skip_property(r) matches Some(next) ==> next.len() < r.len(),
{
    if r.len() >= 4 {
        lemma_align4(be32(r));
    }
}

/// The property lookup of `get_property`: the data of the property named
/// `prop` of the node that `path` leads to.
pub open spec fn lookup_walk(
    rest: Seq<u8>,
    strings: Seq<u8>,
    path: Seq<u8>,
    nesting: int,
    looking: int,
    prop: Seq<u8>,
) -> Lookup
    decreases rest.len(),
{
    if rest.len() == 0 {
        Lookup::Absent
    } else if rest.len() < 4 {
        Lookup::Malformed
    } else {
        let token = be32(rest);
        let r = rest.skip(4);
        if token == FDT_BEGIN_NODE {
            if path.len() == 0 {
                // A subnode of the node looked for: its properties are all behind.
                Lookup::Absent
            } else {
                proof {
                    lemma_enter_node_shrinks(r, path, nesting, looking);
                }
                match enter_node(r, path, nesting, looking) {
                    Some(s) => lookup_walk(s.rest, strings, s.path, s.nesting, s.looking, prop),
                    None => Lookup::Malformed,
                }
            }
        } else if token == FDT_END_NODE {
            if nesting == 0 {
                Lookup::Malformed
            } else if path.len() == 0 || nesting - 1 < looking - 1 {
                // Either the node looked for, or the last node that the path
                // matched, ends here: the property is not in the tree.
                Lookup::Absent
            } else {
                lookup_walk(r, strings, path, nesting - 1, looking, prop)
            }
        } else if token == FDT_PROP {
            if path.len() == 0 {
                if r.len() < 4 || be32(r) + 3 > usize::MAX || prop_name_malformed(
                    r.skip(4),
                    strings,
                ) {
                    Lookup::Malformed
                } else {
                    let len = be32(r);
                    let data = r.skip(8);
                    proof {
                        lemma_align4(len);
                    }
                    if prop_name_at(strings, be32(r.skip(4))) == prop {
                        if len > data.len() {
                            Lookup::Malformed
                        } else {
                            Lookup::Found(data.take(len))
                        }
                    } else if align4(len) > data.len() {
                        Lookup::Malformed
                    } else {
                        lookup_walk(data.skip(align4(len)), strings, path, nesting, looking, prop)
                    }
                }
            } else {
                proof {
                    lemma_skip_property_shrinks(r);
                }
                match skip_property(r) {
                    Some(next) => lookup_walk(next, strings, path, nesting, looking, prop),
                    None => Lookup::Malformed,
                }
            }
        } else if token == FDT_NOP {
            lookup_walk(r, strings, path, nesting, looking, prop)
        } else if token == FDT_END {
            Lookup::Absent
        } else {
            Lookup::Malformed
        }
    }
}

/// Whether an exec result agrees with the spec outcome of a lookup.
pub open spec fn lookup_agrees(r: Result<Option<&[u8]>, MalformedTree>, w: Lookup) -> bool {
    match w {
        Lookup::Found(d) => r matches Ok(Some(s)) && s@ == d,
        Lookup::Absent => r matches Ok(None),
        Lookup::Malformed => r is Err,
    }
}

/// Whether an exec walk state is the spec state `s`.
pub open spec fn state_is(rest: &[u8], path: &[u8], nesting: usize, looking: usize, s: WalkState) -> bool {
    rest@ == s.rest && path@ == s.path && nesting == s.nesting && looking == s.looking
}

/// Reads the node name after a FDT_BEGIN_NODE token and matches it against
/// the path, as [`enter_node`] says.
fn step_into_node<'a, 'b>(r: &'a [u8], path: &'b [u8], nesting: usize, looking: usize) -> (res: Option<
    (&'a [u8], &'b [u8], usize, usize),
>)
    ensures
        match enter_node(r@, path@, nesting as int, looking as int) {
            Some(s) => res matches Some((a, b, n, l)) && state_is(a, b, n, l, s),
            None => res is None,
        },
{
    if nesting == usize::MAX {
        return None;
    }
    let nesting_level = nesting + 1;
    match parse_begin_node(r) {
        None => None,
        Some((node_name, next)) => {
            if looking == nesting_level {
                match match_component(path, node_name) {
                    None => None,
                    Some(Some(p)) => {
                        if looking == usize::MAX {
                            None
                        } else {
                            Some((next, p, nesting_level, looking + 1))
                        }
                    },
                    Some(None) => Some((next, path, nesting_level, looking)),
                }
            } else {
                Some((next, path, nesting_level, looking))
            }
        },
    }
}

/// Skips the property whose FDT_PROP token has just been read, as
/// [`skip_property`] says.
fn step_over_property<'a>(r: &'a [u8]) -> (res: Option<&'a [u8]>)
    ensures
        match skip_property(r@) {
            Some(next) => res matches Some(a) && a@ == next,
            None => res is None,
        },
{
    if r.len() < 4 {
        return None;
    }
    let (property_length, after_length) = parse_prop_data_length(r);
    if property_length > usize::MAX - 3 || after_length.len() < 4 {
        return None;
    }
    let aligned_length = (property_length + 3) / 4 * 4;
    let (_, data) = after_length.split_at(4);
    if aligned_length > data.len() {
        return None;
    }
    let (_, next) = data.split_at(aligned_length);
    assert(r@.skip(8) == r@.skip(4).skip(4));
    Some(next)
}

impl DtbHeader {
    /// Reads the ten big-endian header words at the start of `blob`.
    pub fn read(blob: &[u8]) -> (h: DtbHeader)
        requires
            blob@.len() >= 40,
        ensures
            h.magic == header_word(blob@, 0),
            h.totalsize == header_word(blob@, 1),
            h.off_dt_struct == header_word(blob@, 2),
            h.off_dt_strings == header_word(blob@, 3),
            h.off_mem_rsvmap == header_word(blob@, 4),
            h.version == header_word(blob@, 5),
            h.last_comp_version == header_word(blob@, 6),
            h.boot_cpuid_phys == header_word(blob@, 7),
            h.size_dt_strings == header_word(blob@, 8),
            h.size_dt_struct == header_word(blob@, 9),
    {
        DtbHeader {
            magic: read_be32(vstd::slice::slice_subrange(blob, 0, 4)),
            totalsize: read_be32(vstd::slice::slice_subrange(blob, 4, 8)),
            off_dt_struct: read_be32(vstd::slice::slice_subrange(blob, 8, 12)),
            off_dt_strings: read_be32(vstd::slice::slice_subrange(blob, 12, 16)),
            off_mem_rsvmap: read_be32(vstd::slice::slice_subrange(blob, 16, 20)),
            version: read_be32(vstd::slice::slice_subrange(blob, 20, 24)),
            last_comp_version: read_be32(vstd::slice::slice_subrange(blob, 24, 28)),
            boot_cpuid_phys: read_be32(vstd::slice::slice_subrange(blob, 28, 32)),
            size_dt_strings: read_be32(vstd::slice::slice_subrange(blob, 32, 36)),
            size_dt_struct: read_be32(vstd::slice::slice_subrange(blob, 36, 40)),
        }
    }
}

/// Whether `blob` is readable as [`blob_readable`] asks: the test to make
/// before [`Dtb::from_raw`].
pub fn blob_is_readable(blob: &[u8]) -> (r: bool)
    ensures
        r == blob_readable(blob@),
{
    if blob.len() < 40 {
        return false;
    }
    let header = DtbHeader::read(blob);
    if !Dtb::check_header(&header) {
        return true;
    }
    let struct_end = header.off_dt_struct as u64 + header.size_dt_struct as u64;
    let strings_end = header.off_dt_strings as u64 + header.size_dt_strings as u64;
    struct_end <= blob.len() as u64 && strings_end <= blob.len() as u64
}

impl<'a> Dtb<'a> {
    /// Whether the header carries the magic number and the supported version.
    pub fn check_header(header: &DtbHeader) -> (r: bool)
        ensures
            r == (header.magic == DTB_MAGIC && header.version == DTB_VERSION),
    {
        header.magic == DTB_MAGIC && header.version == DTB_VERSION
    }

    /// Reads the tree whose blob is `blob`: `None` where the header does not
    /// carry the magic number and the supported version; otherwise the tree
    /// with the structure and strings blocks that the header points to.
    pub fn from_raw(blob: &'a [u8]) -> (r: Option<Self>)
        requires
            blob_readable(blob@),
        ensures
            r is Some <==> header_ok(blob@),
            r matches Some(d) ==> {
                &&& d.struct_slice@ == struct_block(blob@)
                &&& d.strings_slice@ == strings_block(blob@)
                &&& d.header.magic == header_word(blob@, 0)
                &&& d.header.totalsize == header_word(blob@, 1)
                &&& d.header.off_dt_struct == header_word(blob@, 2)
                &&& d.header.off_dt_strings == header_word(blob@, 3)
                &&& d.header.off_mem_rsvmap == header_word(blob@, 4)
                &&& d.header.version == header_word(blob@, 5)
                &&& d.header.last_comp_version == header_word(blob@, 6)
                &&& d.header.boot_cpuid_phys == header_word(blob@, 7)
                &&& d.header.size_dt_strings == header_word(blob@, 8)
                &&& d.header.size_dt_struct == header_word(blob@, 9)
            },
    {
        let blob_len = blob.len();
        let header = DtbHeader::read(blob);
        if !Self::check_header(&header) {
            return None;
        }
        let start = header.off_dt_struct as usize;
        let length = header.size_dt_struct as usize;
        let struct_slice = vstd::slice::slice_subrange(blob, start, start + length);
        let start = header.off_dt_strings as usize;
        let length = header.size_dt_strings as usize;
        let strings_slice = vstd::slice::slice_subrange(blob, start, start + length);
        Some(Self { header, struct_slice, strings_slice })
    }

    /// The lookup of [`Dtb::get_property`] on byte strings, which reports
    /// where it meets bytes that it cannot read.
    pub fn try_get_property(&self, path: &[u8], property: &[u8]) -> (r: Result<
        Option<&'a [u8]>,
        MalformedTree,
    >)
        ensures
            lookup_agrees(
                r,
                lookup_walk(self.struct_slice@, self.strings_slice@, path@, 0, 1, property@),
            ),
    {
        let ghost goal = lookup_walk(self.struct_slice@, self.strings_slice@, path@, 0, 1, property@);
        let mut struct_slice = self.struct_slice;
        let mut cur_path = path;
        let mut nesting_level: usize = 0;
        let mut looking_on_level: usize = 1;
        while struct_slice.len() > 0
            invariant
                lookup_walk(
                    struct_slice@,
                    self.strings_slice@,
                    cur_path@,
                    nesting_level as int,
                    looking_on_level as int,
                    property@,
                ) == goal,
                goal == lookup_walk(self.struct_slice@, self.strings_slice@, path@, 0, 1, property@),
            decreases struct_slice@.len(),
        {
            if struct_slice.len() < 4 {
                return Err(MalformedTree);
            }
            let (token, rest) = parse_token(struct_slice);
            if token == FDT_BEGIN_NODE {
                if cur_path.len() == 0 {
                    return Ok(None);
                }
                proof {
                    lemma_enter_node_shrinks(rest@, cur_path@, nesting_level as int, looking_on_level as int);
                }
                match step_into_node(rest, cur_path, nesting_level, looking_on_level) {
                    None => return Err(MalformedTree),
                    Some((next, p, n, l)) => {
                        struct_slice = next;
                        cur_path = p;
                        nesting_level = n;
                        looking_on_level = l;
                    },
                }
            } else if token == FDT_END_NODE {
                if nesting_level == 0 {
                    return Err(MalformedTree);
                }
                nesting_level = nesting_level - 1;
                if cur_path.len() == 0 || nesting_level + 1 < looking_on_level {
                    return Ok(None);
                }
                struct_slice = rest;
            } else if token == FDT_PROP {
                if cur_path.len() == 0 {
                    if rest.len() < 4 {
                        return Err(MalformedTree);
                    }
                    let (property_length, after_length) = parse_prop_data_length(rest);
                    if property_length > usize::MAX - 3 {
                        return Err(MalformedTree);
                    }
                    let aligned_length = (property_length + 3) / 4 * 4;
                    match parse_prop_name(after_length, self.strings_slice) {
                        None => return Err(MalformedTree),
                        Some((property_name, data)) => {
                            assert(data@ == rest@.skip(8));
                            proof {
                                lemma_align4(property_length as int);
                            }
                            if bytes_eq(property_name.as_bytes(), property) {
                                if property_length > data.len() {
                                    return Err(MalformedTree);
                                }
                                let (property_data, _) = data.split_at(property_length);
                                return Ok(Some(property_data));
                            }
                            if aligned_length > data.len() {
                                return Err(MalformedTree);
                            }
                            let (_, next) = data.split_at(aligned_length);
                            struct_slice = next;
                        },
                    }
                } else {
                    proof {
                        lemma_skip_property_shrinks(rest@);
                    }
                    match step_over_property(rest) {
                        None => return Err(MalformedTree),
                        Some(next) => struct_slice = next,
                    }
                }
            } else if token == FDT_NOP {
                struct_slice = rest;
            } else if token == FDT_END {
                return Ok(None);
            } else {
                return Err(MalformedTree);
            }
        }
        Ok(None)
    }

    /// The data of the property named `property` of the node that `path`
    /// leads to, or `None` where there is no such node or no such property. A path component
    /// may leave out the unit address of a node name (`"uart@"` matches
    /// `"uart@fe001000"`).
    pub fn get_property(&self, path: &str, property: &str) -> (r: Option<&'a [u8]>)
        requires
            !(lookup_walk(
                self.struct_slice@,
                self.strings_slice@,
                path.spec_bytes(),
                0,
                1,
                property.spec_bytes(),
            ) is Malformed),
        ensures
            lookup_agrees(
                Ok(r),
                lookup_walk(
                    self.struct_slice@,
                    self.strings_slice@,
                    path.spec_bytes(),
                    0,
                    1,
                    property.spec_bytes(),
                ),
            ),
    {
        match self.try_get_property(path.as_bytes(), property.as_bytes()) {
            Ok(r) => r,
            Err(_) => None,
        }
    }
}

/// One call of `EnumSubnodesIter::next`: walks on from `s` to the next node
/// on the level below the node that the path leads to, and gives its name.
pub open spec fn subnodes_walk(s: WalkState) -> (Step, WalkState)
    decreases s.rest.len(),
{
    if s.rest.len() == 0 {
        (Step::Finished, s)
    } else if s.rest.len() < 4 {
        (Step::Malformed, s)
    } else {
        let token = be32(s.rest);
        let r = s.rest.skip(4);
        if token == FDT_BEGIN_NODE {
            if s.looking == s.nesting + 1 && s.path.len() == 0 {
                if s.nesting + 1 > usize::MAX || begin_node_malformed(r) {
                    (Step::Malformed, s)
                } else {
                    (
                        Step::Yield(cstr(r)),
                        WalkState {
                            rest: begin_node_rest(r),
                            path: s.path,
                            nesting: s.nesting + 1,
                            looking: s.looking,
                        },
                    )
                }
            } else {
                proof {
                    lemma_enter_node_shrinks(r, s.path, s.nesting, s.looking);
                }
                match enter_node(r, s.path, s.nesting, s.looking) {
                    Some(n) => subnodes_walk(n),
                    None => (Step::Malformed, s),
                }
            }
        } else if token == FDT_END_NODE {
            if s.nesting == 0 {
                (Step::Malformed, s)
            } else if s.nesting - 1 < s.looking - 1 {
                // Two levels above the level looked on: the parent is done.
                (
                    Step::Finished,
                    WalkState { rest: Seq::empty(), path: s.path, nesting: s.nesting - 1, looking: s.looking },
                )
            } else {
                subnodes_walk(WalkState { rest: r, path: s.path, nesting: s.nesting - 1, looking: s.looking })
            }
        } else if token == FDT_PROP {
            proof {
                lemma_skip_property_shrinks(r);
            }
            match skip_property(r) {
                Some(next) => subnodes_walk(WalkState { rest: next, ..s }),
                None => (Step::Malformed, s),
            }
        } else if token == FDT_NOP {
            subnodes_walk(WalkState { rest: r, ..s })
        } else if token == FDT_END {
            (Step::Finished, WalkState { rest: Seq::empty(), ..s })
        } else {
            (Step::Malformed, s)
        }
    }
}

/// One call of `EnumPropertiesIter::next`: walks on from `s` to the next
/// property of the node that the path leads to, and gives its name.
pub open spec fn props_walk(s: WalkState, strings: Seq<u8>) -> (Step, WalkState)
    decreases s.rest.len(),
{
    if s.rest.len() == 0 {
        (Step::Finished, s)
    } else if s.rest.len() < 4 {
        (Step::Malformed, s)
    } else {
        let token = be32(s.rest);
        let r = s.rest.skip(4);
        if token == FDT_BEGIN_NODE {
            if s.path.len() == 0 {
                // A subnode: the properties of the node always come before it.
                (Step::Finished, WalkState { rest: Seq::empty(), ..s })
            } else {
                proof {
                    lemma_enter_node_shrinks(r, s.path, s.nesting, s.looking);
                }
                match enter_node(r, s.path, s.nesting, s.looking) {
                    Some(n) => props_walk(n, strings),
                    None => (Step::Malformed, s),
                }
            }
        } else if token == FDT_END_NODE {
            if s.nesting == 0 {
                (Step::Malformed, s)
            } else if s.path.len() == 0 || s.nesting - 1 < s.looking - 1 {
                // Either the node enumerated, or the last node that the path
                // matched, ends here.
                (
                    Step::Finished,
                    WalkState { rest: Seq::empty(), path: s.path, nesting: s.nesting - 1, looking: s.looking },
                )
            } else {
                props_walk(
                    WalkState { rest: r, path: s.path, nesting: s.nesting - 1, looking: s.looking },
                    strings,
                )
            }
        } else if token == FDT_PROP {
            if s.path.len() == 0 {
                if r.len() < 4 || be32(r) + 3 > usize::MAX || prop_name_malformed(r.skip(4), strings)
                    || align4(be32(r)) > r.len() - 8 {
                    (Step::Malformed, s)
                } else {
                    (
                        Step::Yield(prop_name_at(strings, be32(r.skip(4)))),
                        WalkState { rest: r.skip(8).skip(align4(be32(r))), ..s },
                    )
                }
            } else {
                proof {
                    lemma_skip_property_shrinks(r);
                }
                match skip_property(r) {
                    Some(next) => props_walk(WalkState { rest: next, ..s }, strings),
                    None => (Step::Malformed, s),
                }
            }
        } else if token == FDT_NOP {
            props_walk(WalkState { rest: r, ..s }, strings)
        } else if token == FDT_END {
            (Step::Finished, WalkState { rest: Seq::empty(), ..s })
        } else {
            (Step::Malformed, s)
        }
    }
}

/// Whether an exec result of `try_next` and the iterator state after it
/// agree with the spec outcome `w` of one step.
pub open spec fn step_agrees(r: Result<Option<&str>, MalformedTree>, after: WalkState, w: (Step, WalkState)) -> bool {
    match w.0 {
        Step::Yield(name) => r matches Ok(Some(s)) && s.spec_bytes() == name && after == w.1,
        Step::Finished => r matches Ok(None) && after == w.1,
        Step::Malformed => r is Err,
    }
}

/// Enumerates the names of the subnodes of a node.
pub struct EnumSubnodesIter<'a, 'b> {
    struct_slice: &'a [u8],
    path: &'b [u8],
    nesting_level: usize,
    looking_on_level: usize,
}

/// Enumerates the names of the properties of a node.
pub struct EnumPropertiesIter<'a, 'b> {
    struct_slice: &'a [u8],
    strings_slice: &'a [u8],
    path: &'b [u8],
    nesting_level: usize,
    looking_on_level: usize,
}

impl<'a, 'b> EnumSubnodesIter<'a, 'b> {
    #[verifier::type_invariant]
    spec fn looks_below_root(&self) -> bool {
        self.looking_on_level >= 1
    }

    /// The state of the walk.
    pub closed spec fn state(&self) -> WalkState {
        WalkState {
            rest: self.struct_slice@,
            path: self.path@,
            nesting: self.nesting_level as int,
            looking: self.looking_on_level as int,
        }
    }

    /// One step of the enumeration, which reports where it meets bytes that
    /// it cannot read.
    pub fn try_next(&mut self) -> (r: Result<Option<&'a str>, MalformedTree>)
        ensures
            step_agrees(r, final(self).state(), subnodes_walk(old(self).state())),
    {
        proof {
            use_type_invariant(&*self);
        }
        let ghost goal = subnodes_walk(self.state());
        let mut struct_slice = self.struct_slice;
        let mut nesting_level = self.nesting_level;
        let mut looking_on_level = self.looking_on_level;
        let mut path = self.path;
        while struct_slice.len() > 0
            invariant
                *self == *old(self),
                goal == subnodes_walk(old(self).state()),
                looking_on_level >= 1,
                subnodes_walk(
                    WalkState {
                        rest: struct_slice@,
                        path: path@,
                        nesting: nesting_level as int,
                        looking: looking_on_level as int,
                    },
                ) == goal,
            decreases struct_slice@.len(),
        {
            if struct_slice.len() < 4 {
                return Err(MalformedTree);
            }
            let (token, rest) = parse_token(struct_slice);
            if token == FDT_BEGIN_NODE {
                if nesting_level < usize::MAX && looking_on_level == nesting_level + 1 && path.len() == 0 {
                    match parse_begin_node(rest) {
                        None => return Err(MalformedTree),
                        Some((node_name, next)) => {
                            *self = EnumSubnodesIter {
                                struct_slice: next,
                                path,
                                nesting_level: nesting_level + 1,
                                looking_on_level,
                            };
                            return Ok(Some(node_name));
                        },
                    }
                }
                proof {
                    lemma_enter_node_shrinks(rest@, path@, nesting_level as int, looking_on_level as int);
                }
                match step_into_node(rest, path, nesting_level, looking_on_level) {
                    None => return Err(MalformedTree),
                    Some((next, p, n, l)) => {
                        struct_slice = next;
                        path = p;
                        nesting_level = n;
                        looking_on_level = l;
                    },
                }
            } else if token == FDT_END_NODE {
                if nesting_level == 0 {
                    return Err(MalformedTree);
                }
                nesting_level = nesting_level - 1;
                if nesting_level < looking_on_level - 1 {
                    struct_slice = &[];
                    assert(struct_slice@ =~= Seq::<u8>::empty());
                } else {
                    struct_slice = rest;
                }
            } else if token == FDT_PROP {
                proof {
                    lemma_skip_property_shrinks(rest@);
                }
                match step_over_property(rest) {
                    None => return Err(MalformedTree),
                    Some(next) => struct_slice = next,
                }
            } else if token == FDT_NOP {
                struct_slice = rest;
            } else if token == FDT_END {
                struct_slice = &[];
                assert(struct_slice@ =~= Seq::<u8>::empty());
            } else {
                return Err(MalformedTree);
            }
        }
        *self = EnumSubnodesIter { struct_slice, path, nesting_level, looking_on_level };
        Ok(None)
    }

    /// The name of the next subnode, or `None` once all are enumerated.
    pub fn next(&mut self) -> (r: Option<&'a str>)
        requires
            !(subnodes_walk(old(self).state()).0 is Malformed),
        ensures
            step_agrees(Ok(r), final(self).state(), subnodes_walk(old(self).state())),
    {
        match self.try_next() {
            Ok(r) => r,
            Err(_) => None,
        }
    }
}

impl<'a, 'b> EnumPropertiesIter<'a, 'b> {
    /// The state of the walk.
    pub closed spec fn state(&self) -> WalkState {
        WalkState {
            rest: self.struct_slice@,
            path: self.path@,
            nesting: self.nesting_level as int,
            looking: self.looking_on_level as int,
        }
    }

    /// The strings block that property names are read from.
    pub closed spec fn strings(&self) -> Seq<u8> {
        self.strings_slice@
    }

    /// One step of the enumeration, which reports where it meets bytes that
    /// it cannot read.
    pub fn try_next(&mut self) -> (r: Result<Option<&'a str>, MalformedTree>)
        ensures
            final(self).strings() == old(self).strings(),
            step_agrees(r, final(self).state(), props_walk(old(self).state(), old(self).strings())),
    {
        let ghost goal = props_walk(self.state(), self.strings());
        let strings_slice = self.strings_slice;
        let mut struct_slice = self.struct_slice;
        let mut nesting_level = self.nesting_level;
        let mut looking_on_level = self.looking_on_level;
        let mut path = self.path;
        while struct_slice.len() > 0
            invariant
                *self == *old(self),
                goal == props_walk(old(self).state(), old(self).strings()),
                strings_slice@ == self.strings(),
                props_walk(
                    WalkState {
                        rest: struct_slice@,
                        path: path@,
                        nesting: nesting_level as int,
                        looking: looking_on_level as int,
                    },
                    strings_slice@,
                ) == goal,
            decreases struct_slice@.len(),
        {
            if struct_slice.len() < 4 {
                return Err(MalformedTree);
            }
            let (token, rest) = parse_token(struct_slice);
            if token == FDT_BEGIN_NODE {
                if path.len() == 0 {
                    struct_slice = &[];
                    assert(struct_slice@ =~= Seq::<u8>::empty());
                } else {
                    proof {
                        lemma_enter_node_shrinks(rest@, path@, nesting_level as int, looking_on_level as int);
                    }
                    match step_into_node(rest, path, nesting_level, looking_on_level) {
                        None => return Err(MalformedTree),
                        Some((next, p, n, l)) => {
                            struct_slice = next;
                            path = p;
                            nesting_level = n;
                            looking_on_level = l;
                        },
                    }
                }
            } else if token == FDT_END_NODE {
                if nesting_level == 0 {
                    return Err(MalformedTree);
                }
                nesting_level = nesting_level - 1;
                if path.len() == 0 || nesting_level + 1 < looking_on_level {
                    struct_slice = &[];
                    assert(struct_slice@ =~= Seq::<u8>::empty());
                } else {
                    struct_slice = rest;
                }
            } else if token == FDT_PROP {
                if path.len() == 0 {
                    if rest.len() < 4 {
                        return Err(MalformedTree);
                    }
                    let (property_length, after_length) = parse_prop_data_length(rest);
                    if property_length > usize::MAX - 3 {
                        return Err(MalformedTree);
                    }
                    let aligned_length = (property_length + 3) / 4 * 4;
                    match parse_prop_name(after_length, strings_slice) {
                        None => return Err(MalformedTree),
                        Some((property_name, data)) => {
                            assert(data@ == rest@.skip(8));
                            if aligned_length > data.len() {
                                return Err(MalformedTree);
                            }
                            let (_, next) = data.split_at(aligned_length);
                            self.struct_slice = next;
                            self.path = path;
                            self.nesting_level = nesting_level;
                            self.looking_on_level = looking_on_level;
                            return Ok(Some(property_name));
                        },
                    }
                } else {
                    proof {
                        lemma_skip_property_shrinks(rest@);
                    }
                    match step_over_property(rest) {
                        None => return Err(MalformedTree),
                        Some(next) => struct_slice = next,
                    }
                }
            } else if token == FDT_NOP {
                struct_slice = rest;
            } else if token == FDT_END {
                struct_slice = &[];
                assert(struct_slice@ =~= Seq::<u8>::empty());
            } else {
                return Err(MalformedTree);
            }
        }
        self.struct_slice = struct_slice;
        self.path = path;
        self.nesting_level = nesting_level;
        self.looking_on_level = looking_on_level;
        Ok(None)
    }

    /// The name of the next property, or `None` once all are enumerated.
    pub fn next(&mut self) -> (r: Option<&'a str>)
        requires
            !(props_walk(old(self).state(), old(self).strings()).0 is Malformed),
        ensures
            final(self).strings() == old(self).strings(),
            step_agrees(Ok(r), final(self).state(), props_walk(old(self).state(), old(self).strings())),
    {
        match self.try_next() {
            Ok(r) => r,
            Err(_) => None,
        }
    }
}

impl<'a> Dtb<'a> {
    /// Enumerates the subnodes of the node that `path` leads to.
    pub fn enum_subnodes<'b>(&self, path: &'b str) -> (r: EnumSubnodesIter<'a, 'b>)
        requires
            path@.len() > 0,
        ensures
            r.state() == (WalkState { rest: self.struct_slice@, path: path.spec_bytes(), nesting: 0, looking: 1 }),
    {
        EnumSubnodesIter {
            struct_slice: self.struct_slice,
            path: path.as_bytes(),
            nesting_level: 0,
            looking_on_level: 1,
        }
    }

    /// Enumerates the properties of the node that `path` leads to.
    pub fn enum_properties<'b>(&self, path: &'b str) -> (r: EnumPropertiesIter<'a, 'b>)
        requires
            path@.len() > 0,
        ensures
            r.state() == (WalkState { rest: self.struct_slice@, path: path.spec_bytes(), nesting: 0, looking: 1 }),
            r.strings() == self.strings_slice@,
    {
        EnumPropertiesIter {
            struct_slice: self.struct_slice,
            strings_slice: self.strings_slice,
            path: path.as_bytes(),
            nesting_level: 0,
            looking_on_level: 1,
        }
    }
}

/// A finished subnode enumeration has used up the structure block.
proof fn lemma_subnodes_finished_empty(s: WalkState)
    requires
        subnodes_walk(s).0 is Finished,
    ensures
        subnodes_walk(s).1.rest.len() == 0,
    decreases s.rest.len(),
{
    if s.rest.len() >= 4 {
        let r = s.rest.skip(4);
        lemma_enter_node_shrinks(r, s.path, s.nesting, s.looking);
        lemma_skip_property_shrinks(r);
        if let Some(n) = enter_node(r, s.path, s.nesting, s.looking) {
            if subnodes_walk(n).0 is Finished {
                lemma_subnodes_finished_empty(n);
            }
        }
        if let Some(next) = skip_property(r) {
            let n = WalkState { rest: next, ..s };
            if subnodes_walk(n).0 is Finished {
                lemma_subnodes_finished_empty(n);
            }
        }
        let n = WalkState { rest: r, ..s };
        if subnodes_walk(n).0 is Finished {
            lemma_subnodes_finished_empty(n);
        }
        if s.nesting != 0 {
            let n = WalkState { rest: r, path: s.path, nesting: s.nesting - 1, looking: s.looking };
            if subnodes_walk(n).0 is Finished {
                lemma_subnodes_finished_empty(n);
            }
        }
    }
}

/// Once a subnode enumeration has finished, every further step finishes
/// again and leaves the iterator as it is.
pub proof fn lemma_subnodes_stay_finished(s: WalkState)
    requires
        subnodes_walk(s).0 is Finished,
    ensures
        subnodes_walk(subnodes_walk(s).1) == (Step::Finished, subnodes_walk(s).1),
{
    lemma_subnodes_finished_empty(s);
}

/// A finished property enumeration has used up the structure block.
proof fn lemma_props_finished_empty(s: WalkState, strings: Seq<u8>)
    requires
        props_walk(s, strings).0 is Finished,
    ensures
        props_walk(s, strings).1.rest.len() == 0,
    decreases s.rest.len(),
{
    if s.rest.len() >= 4 {
        let r = s.rest.skip(4);
        lemma_enter_node_shrinks(r, s.path, s.nesting, s.looking);
        lemma_skip_property_shrinks(r);
        if let Some(n) = enter_node(r, s.path, s.nesting, s.looking) {
            if props_walk(n, strings).0 is Finished {
                lemma_props_finished_empty(n, strings);
            }
        }
        if let Some(next) = skip_property(r) {
            let n = WalkState { rest: next, ..s };
            if props_walk(n, strings).0 is Finished {
                lemma_props_finished_empty(n, strings);
            }
        }
        let n = WalkState { rest: r, ..s };
        if props_walk(n, strings).0 is Finished {
            lemma_props_finished_empty(n, strings);
        }
        if s.nesting != 0 {
            let n = WalkState { rest: r, path: s.path, nesting: s.nesting - 1, looking: s.looking };
            if props_walk(n, strings).0 is Finished {
                lemma_props_finished_empty(n, strings);
            }
        }
    }
}

/// Once a property enumeration has finished, every further step finishes
/// again and leaves the iterator as it is.
pub proof fn lemma_props_stay_finished(s: WalkState, strings: Seq<u8>)
    requires
        props_walk(s, strings).0 is Finished,
    ensures
        props_walk(props_walk(s, strings).1, strings) == (Step::Finished, props_walk(s, strings).1),
{
    lemma_props_finished_empty(s, strings);
}

/// `get_property` agrees with `enum_properties` on the same path: where the
/// enumeration's next step gives the name looked for, the lookup finds the
/// property; where it gives another name, the lookup goes on as from the
/// state the enumeration moved to; where it finishes, the property is absent.
pub proof fn lemma_lookup_follows_enumeration(s: WalkState, strings: Seq<u8>, prop: Seq<u8>)
    requires
        !(props_walk(s, strings).0 is Malformed),
    ensures
        ({
            let (step, next) = props_walk(s, strings);
            let found = lookup_walk(s.rest, strings, s.path, s.nesting, s.looking, prop);
            match step {
                Step::Yield(name) => if name == prop {
                    found is Found
                } else {
                    found == lookup_walk(next.rest, strings, next.path, next.nesting, next.looking, prop)
                },
                Step::Finished => found is Absent,
                Step::Malformed => true,
            }
        }),
    decreases s.rest.len(),
{
    if s.rest.len() >= 4 {
        let r = s.rest.skip(4);
        lemma_enter_node_shrinks(r, s.path, s.nesting, s.looking);
        lemma_skip_property_shrinks(r);
        if r.len() >= 4 {
            lemma_align4(be32(r));
        }
        if let Some(n) = enter_node(r, s.path, s.nesting, s.looking) {
            if !(props_walk(n, strings).0 is Malformed) {
                lemma_lookup_follows_enumeration(n, strings, prop);
            }
        }
        if let Some(next) = skip_property(r) {
            let n = WalkState { rest: next, ..s };
            if !(props_walk(n, strings).0 is Malformed) {
                lemma_lookup_follows_enumeration(n, strings, prop);
            }
        }
        let n = WalkState { rest: r, ..s };
        if !(props_walk(n, strings).0 is Malformed) {
            lemma_lookup_follows_enumeration(n, strings, prop);
        }
        if s.nesting != 0 {
            let n = WalkState { rest: r, path: s.path, nesting: s.nesting - 1, looking: s.looking };
            if !(props_walk(n, strings).0 is Malformed) {
                lemma_lookup_follows_enumeration(n, strings, prop);
            }
        }
    }
}

/// Whether `d` is a contiguous piece of `block`.
pub open spec fn piece_of(d: Seq<u8>, block: Seq<u8>) -> bool {
    exists|i: int| 0 <= i && i + d.len() <= block.len() && #[trigger] block.subrange(i, i + d.len()) == d
}

/// A piece of a suffix of a block is a piece of the block.
proof fn lemma_piece_of_suffix(d: Seq<u8>, block: Seq<u8>, k: int)
    requires
        0 <= k <= block.len(),
        piece_of(d, block.skip(k)),
    ensures
        piece_of(d, block),
{
    let i = choose|i: int|
        0 <= i && i + d.len() <= block.skip(k).len() && #[trigger] block.skip(k).subrange(
            i,
            i + d.len(),
        ) == d;
    assert(block.subrange(k + i, k + i + d.len()) =~= block.skip(k).subrange(i, i + d.len()));
}

/// What `get_property` finds is a piece of the structure block itself.
pub proof fn lemma_found_in_block(
    rest: Seq<u8>,
    strings: Seq<u8>,
    path: Seq<u8>,
    nesting: int,
    looking: int,
    prop: Seq<u8>,
)
    requires
        lookup_walk(rest, strings, path, nesting, looking, prop) is Found,
    ensures
        piece_of(lookup_walk(rest, strings, path, nesting, looking, prop)->Found_0, rest),
    decreases rest.len(),
{
    let d = lookup_walk(rest, strings, path, nesting, looking, prop)->Found_0;
    if rest.len() >= 4 {
        let r = rest.skip(4);
        let token = be32(rest);
        lemma_enter_node_shrinks(r, path, nesting, looking);
        lemma_skip_property_shrinks(r);
        lemma_cstr_len(r);
        lemma_align4(cstr_len(r) + 1);
        if r.len() >= 4 {
            lemma_align4(be32(r));
        }
        if token == FDT_BEGIN_NODE {
            let n = enter_node(r, path, nesting, looking).unwrap();
            let k = 4 + align4(cstr_len(r) + 1);
            assert(n.rest =~= rest.skip(k));
            lemma_found_in_block(n.rest, strings, n.path, n.nesting, n.looking, prop);
            lemma_piece_of_suffix(d, rest, k);
        } else if token == FDT_END_NODE {
            lemma_found_in_block(r, strings, path, nesting - 1, looking, prop);
            lemma_piece_of_suffix(d, rest, 4);
        } else if token == FDT_PROP {
            let len = be32(r);
            if path.len() == 0 {
                let data = r.skip(8);
                if prop_name_at(strings, be32(r.skip(4))) == prop {
                    assert(rest.subrange(12, 12 + len) =~= data.take(len));
                } else {
                    let k = 12 + align4(len);
                    assert(data.skip(align4(len)) =~= rest.skip(k));
                    lemma_found_in_block(data.skip(align4(len)), strings, path, nesting, looking, prop);
                    lemma_piece_of_suffix(d, rest, k);
                }
            } else {
                let next = skip_property(r).unwrap();
                let k = 12 + align4(len);
                assert(next =~= rest.skip(k));
                lemma_found_in_block(next, strings, path, nesting, looking, prop);
                lemma_piece_of_suffix(d, rest, k);
            }
        } else if token == FDT_NOP {
            lemma_found_in_block(r, strings, path, nesting, looking, prop);
            lemma_piece_of_suffix(d, rest, 4);
        }
    }
}

/// A step of the property enumeration that gives a name moves forward in
/// the structure block.
pub proof fn lemma_props_yield_shrinks(s: WalkState, strings: Seq<u8>)
    ensures
        props_walk(s, strings).0 is Yield ==> props_walk(s, strings).1.rest.len() < s.rest.len(),
    decreases s.rest.len(),
{
    if s.rest.len() >= 4 {
        let r = s.rest.skip(4);
        lemma_enter_node_shrinks(r, s.path, s.nesting, s.looking);
        lemma_skip_property_shrinks(r);
        if r.len() >= 4 {
            lemma_align4(be32(r));
        }
        if let Some(n) = enter_node(r, s.path, s.nesting, s.looking) {
            lemma_props_yield_shrinks(n, strings);
        }
        if let Some(next) = skip_property(r) {
            lemma_props_yield_shrinks(WalkState { rest: next, ..s }, strings);
        }
        lemma_props_yield_shrinks(WalkState { rest: r, ..s }, strings);
        if s.nesting != 0 {
            lemma_props_yield_shrinks(
                WalkState { rest: r, path: s.path, nesting: s.nesting - 1, looking: s.looking },
                strings,
            );
        }
    }
}

/// All the names that the property enumeration gives from `s`, in order,
/// or `None` where one of its steps meets bytes that it cannot read.
pub open spec fn props_names(s: WalkState, strings: Seq<u8>) -> Option<Seq<Seq<u8>>>
    decreases s.rest.len(),
{
    proof {
        lemma_props_yield_shrinks(s, strings);
    }
    match props_walk(s, strings).0 {
        Step::Yield(name) => match props_names(props_walk(s, strings).1, strings) {
            Some(names) => Some(seq![name] + names),
            None => None,
        },
        Step::Finished => Some(Seq::empty()),
        Step::Malformed => None,
    }
}

/// Over a whole enumeration: `get_property` finds a property exactly when
/// `enum_properties` on the same path lists its name, and otherwise reports
/// it absent.
pub proof fn lemma_lookup_iff_enumerated(s: WalkState, strings: Seq<u8>, prop: Seq<u8>)
    requires
        props_names(s, strings) is Some,
    ensures
        lookup_walk(s.rest, strings, s.path, s.nesting, s.looking, prop) is Found
            <==> props_names(s, strings)->0.contains(prop),
        lookup_walk(s.rest, strings, s.path, s.nesting, s.looking, prop) is Found
            || lookup_walk(s.rest, strings, s.path, s.nesting, s.looking, prop) is Absent,
    decreases s.rest.len(),
{
    lemma_props_yield_shrinks(s, strings);
    lemma_lookup_follows_enumeration(s, strings, prop);
    let (step, next) = props_walk(s, strings);
    match step {
        Step::Yield(name) => {
            lemma_lookup_iff_enumerated(next, strings, prop);
            let rest = props_names(next, strings)->0;
            let names = seq![name] + rest;
            assert(names[0] == name);
            if name == prop {
                assert(names.contains(prop));
            } else {
                if rest.contains(prop) {
                    let k = choose|k: int| 0 <= k < rest.len() && rest[k] == prop;
                    assert(names[k + 1] == prop);
                }
                if names.contains(prop) {
                    let k = choose|k: int| 0 <= k < names.len() && names[k] == prop;
                    assert(k > 0);
                    assert(rest[k - 1] == prop);
                }
            }
        },
        _ => {},
    }
}

/// A step of the subnode enumeration that gives a name moves forward in
/// the structure block.
pub proof fn lemma_subnodes_yield_shrinks(s: WalkState)
    ensures
        subnodes_walk(s).0 is Yield ==> subnodes_walk(s).1.rest.len() < s.rest.len(),
    decreases s.rest.len(),
{
    if s.rest.len() >= 4 {
        let r = s.rest.skip(4);
        lemma_enter_node_shrinks(r, s.path, s.nesting, s.looking);
        lemma_skip_property_shrinks(r);
        lemma_cstr_len(r);
        lemma_align4(cstr_len(r) + 1);
        if let Some(n) = enter_node(r, s.path, s.nesting, s.looking) {
            lemma_subnodes_yield_shrinks(n);
        }
        if let Some(next) = skip_property(r) {
            lemma_subnodes_yield_shrinks(WalkState { rest: next, ..s });
        }
        lemma_subnodes_yield_shrinks(WalkState { rest: r, ..s });
        if s.nesting != 0 {
            lemma_subnodes_yield_shrinks(
                WalkState { rest: r, path: s.path, nesting: s.nesting - 1, looking: s.looking },
            );
        }
    }
}

/// All the names that the subnode enumeration gives from `s`, in order, or
/// `None` where one of its steps meets bytes that it cannot read.
pub open spec fn subnodes_names(s: WalkState) -> Option<Seq<Seq<u8>>>
    decreases s.rest.len(),
{
    proof {
        lemma_subnodes_yield_shrinks(s);
    }
    match subnodes_walk(s).0 {
        Step::Yield(name) => match subnodes_names(subnodes_walk(s).1) {
            Some(names) => Some(seq![name] + names),
            None => None,
        },
        Step::Finished => Some(Seq::empty()),
        Step::Malformed => None,
    }
}

/// An FDT_NOP token changes no walk: from a block that starts with one,
/// the lookup, the property enumeration and the subnode enumeration each do
/// what they do from the rest of the block after it.
pub proof fn lemma_nop_is_skipped(r: Seq<u8>, path: Seq<u8>, nesting: int, looking: int, strings: Seq<u8>, prop: Seq<u8>)
    ensures
        ({
            let s = WalkState { rest: seq![0u8, 0u8, 0u8, 4u8] + r, path, nesting, looking };
            let t = WalkState { rest: r, path, nesting, looking };
            &&& lookup_walk(s.rest, strings, path, nesting, looking, prop) == lookup_walk(
                r,
                strings,
                path,
                nesting,
                looking,
                prop,
            )
            &&& props_walk(s, strings) == props_walk(t, strings)
            &&& subnodes_walk(s) == subnodes_walk(t)
        }),
{
    let rest = seq![0u8, 0u8, 0u8, 4u8] + r;
    assert(be32(rest) == FDT_NOP);
    assert(rest.skip(4) =~= r);
}

} // verus!
