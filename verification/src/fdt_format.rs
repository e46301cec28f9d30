//! Byte-level layout of a flattened device tree (FDT) structure block:
//! big-endian words, NUL-terminated names and 4-byte alignment, together with
//! the small readers that take one item off the front of a block.

use vstd::prelude::*;
use vstd::utf8::{valid_utf8, decode_utf8, encode_utf8, decode_utf8_encode_utf8, is_char_boundary};
use vstd::string::StringSliceAdditionalSpecFns;

verus! {

/// The magic number in the first word of a device tree header.
pub const DTB_MAGIC: u32 = 0xD00D_FEED;
/// The only header version this reader accepts.
pub const DTB_VERSION: u32 = 17;

pub const FDT_BEGIN_NODE: u32 = 0x0000_0001;
pub const FDT_END_NODE: u32 = 0x0000_0002;
pub const FDT_PROP: u32 = 0x0000_0003;
pub const FDT_NOP: u32 = 0x0000_0004;
pub const FDT_END: u32 = 0x0000_0009;

/// The byte of `'/'`, which separates path components.
pub const PATH_SEPARATOR: u8 = 0x2F;

/// The big-endian 32-bit value of the first four bytes of `b`.
pub open spec fn be32(b: Seq<u8>) -> int
    recommends
        b.len() >= 4,
{
    b[0] as int * 0x100_0000 + b[1] as int * 0x1_0000 + b[2] as int * 0x100 + b[3] as int
}

/// `n` rounded up to the next multiple of four.
pub open spec fn align4(n: int) -> int {
    (n + 3) / 4 * 4
}

/// `align4(n)` is the least multiple of four that is at least `n`.
pub proof fn lemma_align4(n: int)
    requires
        n >= 0,
    ensures
        n <= align4(n) < n + 4,
        align4(n) % 4 == 0,
{
    assert(n <= (n + 3) / 4 * 4 < n + 4) by (nonlinear_arith);
    assert(((n + 3) / 4 * 4) % 4 == 0) by (nonlinear_arith);
}

/// The index of the first NUL byte of `s` at or after `i`, or the length of
/// `s` when there is none.
pub open spec fn nul_from(s: Seq<u8>, i: int) -> int
    decreases s.len() - i,
{
    if 0 <= i < s.len() && s[i] != 0 {
        nul_from(s, i + 1)
    } else {
        i
    }
}

/// The length of the NUL-terminated string at the start of `s` (all of `s`
/// when it holds no NUL).
pub open spec fn cstr_len(s: Seq<u8>) -> int {
    nul_from(s, 0)
}

/// The NUL-terminated string at the start of `s`, without its terminator.
pub open spec fn cstr(s: Seq<u8>) -> Seq<u8> {
    s.take(cstr_len(s))
}

pub proof fn lemma_nul_from(s: Seq<u8>, i: int)
    requires
        0 <= i <= s.len(),
    ensures
        i <= nul_from(s, i) <= s.len(),
        forall|j: int| i <= j < nul_from(s, i) ==> s[j] != 0,
        nul_from(s, i) < s.len() ==> s[nul_from(s, i)] == 0,
    decreases s.len() - i,
{
    if i < s.len() && s[i] != 0 {
        lemma_nul_from(s, i + 1);
    }
}

/// The length of the C string at the start of `s` lies within `s`, none of
/// its bytes is NUL, and it ends at a NUL or at the end of `s`.
pub proof fn lemma_cstr_len(s: Seq<u8>)
    ensures
        0 <= cstr_len(s) <= s.len(),
        forall|j: int| 0 <= j < cstr_len(s) ==> s[j] != 0,
        cstr_len(s) < s.len() ==> s[cstr_len(s)] == 0,
{
    lemma_nul_from(s, 0);
}

/// What `core::str::from_utf8` returns: the string whose UTF-8 encoding is
/// `bytes`, or nothing when `bytes` is not valid UTF-8. Its documentation
/// states both directions: `Ok` exactly on valid UTF-8, and the result is the
/// string slice of those same bytes.
#[verifier::external_body]
pub fn str_from_utf8<'a>(bytes: &'a [u8]) -> (r: Option<&'a str>)
    ensures
        r is Some <==> valid_utf8(bytes@),
        r matches Some(s) ==> s@ == decode_utf8(bytes@),
{
    core::str::from_utf8(bytes).ok()
}

/// The bytes of a string slice returned by [`str_from_utf8`] are the bytes it was made from.
pub proof fn lemma_utf8_round_trip(s: &str, bytes: Seq<u8>)
    requires
        valid_utf8(bytes),
        s@ == decode_utf8(bytes),
    ensures
        s.spec_bytes() == bytes,
{
    decode_utf8_encode_utf8(bytes);
}

/// The big-endian word at the start of `s`.
pub fn read_be32(s: &[u8]) -> (r: u32)
    requires
        s@.len() >= 4,
    ensures
        r == be32(s@),
{
    (s[0] as u32) * 0x100_0000 + (s[1] as u32) * 0x1_0000 + (s[2] as u32) * 0x100 + (s[3] as u32)
}

/// Get the length of a C-style null-terminated byte string, which is part of a larger slice.
pub fn c_strlen_on_slice(slice: &[u8]) -> (r: usize)
    ensures
        r == cstr_len(slice@),
{
    let mut end: usize = 0;
    while end < slice.len() && slice[end] != 0
        invariant
            0 <= end <= slice@.len(),
            nul_from(slice@, end as int) == nul_from(slice@, 0),
        decreases slice@.len() - end,
    {
        end = end + 1;
    }
    end
}

/// Get the token and advance the struct slice to the next token.
pub fn parse_token<'a>(struct_slice: &'a [u8]) -> (r: (u32, &'a [u8]))
    requires
        struct_slice@.len() >= 4,
    ensures
        r.0 == be32(struct_slice@),
        r.1@ == struct_slice@.skip(4),
{
    let (token_slice, remaining_slice) = struct_slice.split_at(4);
    (read_be32(token_slice), remaining_slice)
}

/// Whether reading a node name at the start of `r` fails: the name together
/// with its NUL and padding must fit in `r`, and it must be valid UTF-8.
pub open spec fn begin_node_malformed(r: Seq<u8>) -> bool {
    ||| cstr_len(r) + 4 > usize::MAX
    ||| align4(cstr_len(r) + 1) > r.len()
    ||| !valid_utf8(cstr(r))
}

/// What follows the padded node name at the start of `r`.
pub open spec fn begin_node_rest(r: Seq<u8>) -> Seq<u8> {
    r.skip(align4(cstr_len(r) + 1))
}

/// Get the node name of a FDT_BEGIN_NODE token and advance the struct slice to
/// the next token; `None` where the name does not fit or is not UTF-8.
pub fn parse_begin_node<'a>(struct_slice: &'a [u8]) -> (r: Option<(&'a str, &'a [u8])>)
    ensures
        r is None <==> begin_node_malformed(struct_slice@),
        r matches Some((name, rest)) ==> {
            &&& name.spec_bytes() == cstr(struct_slice@)
            &&& rest@ == begin_node_rest(struct_slice@)
        },
{
    let node_name_length = c_strlen_on_slice(struct_slice);
    proof {
        lemma_cstr_len(struct_slice@);
    }
    if node_name_length > usize::MAX - 4 {
        return None;
    }
    let unpadded = node_name_length + 1;
    let aligned_length = (unpadded + 3) / 4 * 4;
    if aligned_length > struct_slice.len() {
        return None;
    }
    let (name_bytes, _) = struct_slice.split_at(node_name_length);
    match str_from_utf8(name_bytes) {
        None => None,
        Some(node_name) => {
            proof {
                lemma_utf8_round_trip(node_name, name_bytes@);
            }
            let (_, rest) = struct_slice.split_at(aligned_length);
            Some((node_name, rest))
        },
    }
}

/// Get the property data length of a FDT_PROP token and advance the struct
/// slice to the property name offset.
pub fn parse_prop_data_length<'a>(struct_slice: &'a [u8]) -> (r: (usize, &'a [u8]))
    requires
        struct_slice@.len() >= 4,
    ensures
        r.0 == be32(struct_slice@),
        r.1@ == struct_slice@.skip(4),
{
    let (property_length_slice, remaining_slice) = struct_slice.split_at(4);
    (read_be32(property_length_slice) as usize, remaining_slice)
}

/// The name of a property whose name offset into the strings block is `off`.
pub open spec fn prop_name_at(strings: Seq<u8>, off: int) -> Seq<u8> {
    cstr(strings.skip(off))
}

/// Whether reading the property name whose offset starts `r` fails: the
/// offset must be there and lie in the strings block, and the name must be
/// valid UTF-8.
pub open spec fn prop_name_malformed(r: Seq<u8>, strings: Seq<u8>) -> bool {
    ||| r.len() < 4
    ||| be32(r) > strings.len()
    ||| !valid_utf8(prop_name_at(strings, be32(r)))
}

/// Get the property name of a FDT_PROP token and advance the struct slice to
/// the next token; `None` where the offset or the name is not readable.
pub fn parse_prop_name<'a, 'c>(struct_slice: &'c [u8], strings_slice: &'a [u8]) -> (r: Option<
    (&'a str, &'c [u8]),
>)
    ensures
        r is None <==> prop_name_malformed(struct_slice@, strings_slice@),
        r matches Some((name, rest)) ==> {
            &&& name.spec_bytes() == prop_name_at(strings_slice@, be32(struct_slice@))
            &&& rest@ == struct_slice@.skip(4)
        },
{
    if struct_slice.len() < 4 {
        return None;
    }
    let (property_name_offset_slice, remaining_slice) = struct_slice.split_at(4);
    let property_name_offset = read_be32(property_name_offset_slice) as usize;
    if property_name_offset > strings_slice.len() {
        return None;
    }
    let (_, property_name_slice) = strings_slice.split_at(property_name_offset);
    let property_name_length = c_strlen_on_slice(property_name_slice);
    proof {
        lemma_cstr_len(property_name_slice@);
    }
    let (name_bytes, _) = property_name_slice.split_at(property_name_length);
    match str_from_utf8(name_bytes) {
        None => None,
        Some(property_name) => {
            proof {
                lemma_utf8_round_trip(property_name, name_bytes@);
            }
            Some((property_name, remaining_slice))
        },
    }
}

/// Whether comparing `path` with the first bytes of a node name fails: the
/// compared prefix of the name must end on a character boundary.
pub open spec fn component_malformed(path: Seq<u8>, name: Seq<u8>) -> bool {
    !is_char_boundary(name, vstd::math::min(path.len() as int, name.len() as int))
}

/// `path` after a node named `name` has matched its first component, or
/// `None` when it does not match. A component matches when the name is empty
/// (the root node) or when the shorter of the two is a prefix of the other;
/// a following separator is dropped too.
pub open spec fn path_after_component(path: Seq<u8>, name: Seq<u8>) -> Option<Seq<u8>> {
    let k = vstd::math::min(path.len() as int, name.len() as int);
    if name.len() == 0 || path.take(k) == name.take(k) {
        let p = path.skip(k);
        Some(
            if p.len() > 0 && p[0] == PATH_SEPARATOR {
                p.skip(1)
            } else {
                p
            },
        )
    } else {
        None
    }
}

/// Whether the first `n` bytes of `a` and `b` are equal.
fn prefix_eq(a: &[u8], b: &[u8], n: usize) -> (r: bool)
    requires
        n <= a@.len(),
        n <= b@.len(),
    ensures
        r == (a@.take(n as int) == b@.take(n as int)),
{
    let mut i: usize = 0;
    while i < n
        invariant
            i <= n <= a@.len(),
            n <= b@.len(),
            a@.take(i as int) == b@.take(i as int),
        decreases n - i,
    {
        if a[i] != b[i] {
            assert(a@.take(n as int)[i as int] != b@.take(n as int)[i as int]);
            return false;
        }
        assert(a@.take(i + 1) == a@.take(i as int).push(a@[i as int]));
        assert(b@.take(i + 1) == b@.take(i as int).push(b@[i as int]));
        i = i + 1;
    }
    true
}

/// Whether `a` and `b` hold the same bytes.
pub fn bytes_eq(a: &[u8], b: &[u8]) -> (r: bool)
    ensures
        r == (a@ == b@),
{
    if a.len() != b.len() {
        return false;
    }
    let r = prefix_eq(a, b, a.len());
    assert(a@.take(a@.len() as int) == a@);
    assert(b@.take(b@.len() as int) == b@);
    r
}

/// Matches a node name against the first component of `path`: `None` where
/// the comparison fails, `Some(None)` where the name does not match and
/// `Some(Some(rest))` with the rest of the path where it does.
pub fn match_component<'b>(path: &'b [u8], node_name: &str) -> (r: Option<Option<&'b [u8]>>)
    ensures
        r is None <==> component_malformed(path@, node_name.spec_bytes()),
        r matches Some(m) ==> match path_after_component(path@, node_name.spec_bytes()) {
            Some(p) => m matches Some(s) && s@ == p,
            None => m is None,
        },
{
    let name = node_name.as_bytes();
    let length_to_check = if path.len() < name.len() {
        path.len()
    } else {
        name.len()
    };
    if !node_name.is_char_boundary(length_to_check) {
        return None;
    }
    if name.len() == 0 || prefix_eq(path, name, length_to_check) {
        let (_, rest) = path.split_at(length_to_check);
        if rest.len() > 0 && rest[0] == PATH_SEPARATOR {
            let (_, after) = rest.split_at(1);
            Some(Some(after))
        } else {
            Some(Some(rest))
        }
    } else {
        Some(None)
    }
}

} // verus!
