use arceos_core::dtb::{Dtb, MalformedTree};
use arceos_core::dtb_info::{dtb_is_parsable, parse_dtb, parse_dtb_checked, ABSENT_REGION};
use arceos_core::fdt_format::{
    bytes_eq, c_strlen_on_slice, match_component, parse_begin_node, parse_prop_data_length,
    parse_prop_name, parse_token, read_be32, str_from_utf8,
};

const BEGIN_NODE: u32 = 1;
const END_NODE: u32 = 2;
const PROP: u32 = 3;
const NOP: u32 = 4;
const END: u32 = 9;

/// Writes a flattened device tree blob token by token.
struct FdtBuilder {
    structure: Vec<u8>,
    strings: Vec<u8>,
    magic: u32,
    version: u32,
}

impl FdtBuilder {
    fn new() -> Self {
        FdtBuilder { structure: Vec::new(), strings: Vec::new(), magic: 0xD00D_FEED, version: 17 }
    }

    fn word(&mut self, w: u32) -> &mut Self {
        self.structure.extend_from_slice(&w.to_be_bytes());
        self
    }

    fn pad(&mut self) {
        while self.structure.len() % 4 != 0 {
            self.structure.push(0);
        }
    }

    fn begin(&mut self, name: &str) -> &mut Self {
        self.word(BEGIN_NODE);
        self.structure.extend_from_slice(name.as_bytes());
        self.structure.push(0);
        self.pad();
        self
    }

    fn end_node(&mut self) -> &mut Self {
        self.word(END_NODE)
    }

    fn nop(&mut self) -> &mut Self {
        self.word(NOP)
    }

    fn prop(&mut self, name: &str, data: &[u8]) -> &mut Self {
        let offset = self.strings.len() as u32;
        self.strings.extend_from_slice(name.as_bytes());
        self.strings.push(0);
        self.word(PROP);
        self.word(data.len() as u32);
        self.word(offset);
        self.structure.extend_from_slice(data);
        self.pad();
        self
    }

    fn end(&mut self) -> &mut Self {
        self.word(END)
    }

    fn build(&self) -> Vec<u8> {
        let off_struct = 40u32;
        let off_strings = off_struct + self.structure.len() as u32;
        let total = off_strings + self.strings.len() as u32;
        let header = [
            self.magic,
            total,
            off_struct,
            off_strings,
            0,
            self.version,
            16,
            0,
            self.strings.len() as u32,
            self.structure.len() as u32,
        ];
        let mut blob = Vec::new();
        for w in header {
            blob.extend_from_slice(&w.to_be_bytes());
        }
        blob.extend_from_slice(&self.structure);
        blob.extend_from_slice(&self.strings);
        blob
    }
}

fn reg(addr: u64, size: u64) -> Vec<u8> {
    let mut v = addr.to_be_bytes().to_vec();
    v.extend_from_slice(&size.to_be_bytes());
    v
}

/// A small platform: memory, a uart and two of the virtio devices.
fn platform() -> Vec<u8> {
    let mut b = FdtBuilder::new();
    b.begin("")
        .prop("#address-cells", &[0, 0, 0, 2])
        .begin("memory@80000000")
        .prop("device_type", b"memory\0")
        .prop("reg", &reg(0x8000_0000, 0x800_0000))
        .end_node()
        .begin("soc")
        .nop()
        .begin("uart@10000000")
        .prop("reg", &reg(0x1000_0000, 0x100))
        .prop("compatible", b"ns16550a\0")
        .end_node()
        .begin("virtio_mmio@10008000")
        .prop("reg", &reg(0x1000_8000, 0x1000))
        .end_node()
        .begin("virtio_mmio@10003000")
        .prop("reg", &reg(0x1000_3000, 0x1000))
        .end_node()
        .end_node()
        .end_node()
        .end();
    b.build()
}

fn subnodes<'a>(dtb: &Dtb<'a>, path: &str) -> Vec<String> {
    let mut it = dtb.enum_subnodes(path);
    let mut names = Vec::new();
    while let Some(n) = it.next() {
        names.push(n.to_string());
    }
    names
}

fn properties<'a>(dtb: &Dtb<'a>, path: &str) -> Vec<String> {
    let mut it = dtb.enum_properties(path);
    let mut names = Vec::new();
    while let Some(n) = it.next() {
        names.push(n.to_string());
    }
    names
}

#[test]
fn from_raw_reads_header_and_blocks() {
    let blob = platform();
    let dtb = Dtb::from_raw(&blob).expect("valid header");
    assert_eq!(dtb.header.magic, 0xD00D_FEED);
    assert_eq!(dtb.header.version, 17);
    assert_eq!(dtb.header.totalsize as usize, blob.len());
    assert_eq!(dtb.struct_slice, &blob[40..40 + dtb.header.size_dt_struct as usize]);
    assert_eq!(dtb.strings_slice.len(), dtb.header.size_dt_strings as usize);
}

#[test]
fn from_raw_rejects_bad_magic() {
    let mut b = FdtBuilder::new();
    b.begin("").end_node().end();
    b.magic = 0x1234_5678;
    assert!(Dtb::from_raw(&b.build()).is_none());
}

#[test]
fn from_raw_rejects_other_version() {
    let mut b = FdtBuilder::new();
    b.begin("").end_node().end();
    b.version = 16;
    assert!(Dtb::from_raw(&b.build()).is_none());
}

#[test]
fn get_property_finds_memory_reg() {
    let blob = platform();
    let dtb = Dtb::from_raw(&blob).unwrap();
    assert_eq!(dtb.get_property("/memory", "reg"), Some(&reg(0x8000_0000, 0x800_0000)[..]));
    assert_eq!(dtb.get_property("/memory@80000000", "device_type"), Some(&b"memory\0"[..]));
}

#[test]
fn get_property_matches_unit_address_prefix() {
    let blob = platform();
    let dtb = Dtb::from_raw(&blob).unwrap();
    assert_eq!(dtb.get_property("/soc/uart@", "reg"), Some(&reg(0x1000_0000, 0x100)[..]));
    assert_eq!(dtb.get_property("/soc/uart", "compatible"), Some(&b"ns16550a\0"[..]));
}

#[test]
fn get_property_of_root() {
    let blob = platform();
    let dtb = Dtb::from_raw(&blob).unwrap();
    assert_eq!(dtb.get_property("/", "#address-cells"), Some(&[0u8, 0, 0, 2][..]));
}

#[test]
fn get_property_absent() {
    let blob = platform();
    let dtb = Dtb::from_raw(&blob).unwrap();
    assert_eq!(dtb.get_property("/memory", "status"), None);
    assert_eq!(dtb.get_property("/soc/virtio_mmio@10005000", "reg"), None);
    assert_eq!(dtb.get_property("/cpus", "reg"), None);
}

#[test]
fn try_get_property_reports_truncated_block() {
    let blob = platform();
    let dtb = Dtb::from_raw(&blob).unwrap();
    let truncated = Dtb { header: dtb.header, struct_slice: &dtb.struct_slice[..6], strings_slice: dtb.strings_slice };
    assert_eq!(truncated.try_get_property(b"/memory", b"reg"), Err(MalformedTree));
}

#[test]
fn try_get_property_reports_unknown_token() {
    let mut b = FdtBuilder::new();
    b.begin("").word(0x77).end_node().end();
    let blob = b.build();
    let dtb = Dtb::from_raw(&blob).unwrap();
    assert_eq!(dtb.try_get_property(b"/", b"reg"), Err(MalformedTree));
}

#[test]
fn try_get_property_reports_bad_name_offset() {
    let mut b = FdtBuilder::new();
    b.begin("").word(PROP).word(0).word(1000).end_node().end();
    let blob = b.build();
    let dtb = Dtb::from_raw(&blob).unwrap();
    assert_eq!(dtb.try_get_property(b"/", b"reg"), Err(MalformedTree));
    // Where the path has not been reached, the name is skipped unread.
    assert_eq!(dtb.try_get_property(b"/x/y", b"reg"), Ok(None));
}

#[test]
fn enum_subnodes_lists_children() {
    let blob = platform();
    let dtb = Dtb::from_raw(&blob).unwrap();
    assert_eq!(
        subnodes(&dtb, "/soc"),
        vec!["uart@10000000", "virtio_mmio@10008000", "virtio_mmio@10003000"]
    );
    assert_eq!(subnodes(&dtb, "/"), vec!["memory@80000000", "soc"]);
    assert!(subnodes(&dtb, "/memory").is_empty());
}

#[test]
fn enum_subnodes_stays_finished() {
    let blob = platform();
    let dtb = Dtb::from_raw(&blob).unwrap();
    let mut it = dtb.enum_subnodes("/memory");
    assert_eq!(it.next(), None);
    assert_eq!(it.next(), None);
    assert_eq!(it.try_next(), Ok(None));
}

#[test]
fn enum_properties_lists_names() {
    let blob = platform();
    let dtb = Dtb::from_raw(&blob).unwrap();
    assert_eq!(properties(&dtb, "/soc/uart"), vec!["reg", "compatible"]);
    assert_eq!(properties(&dtb, "/memory"), vec!["device_type", "reg"]);
    assert_eq!(properties(&dtb, "/"), vec!["#address-cells"]);
    assert!(properties(&dtb, "/soc").is_empty());
}

#[test]
fn enum_properties_stays_finished() {
    let blob = platform();
    let dtb = Dtb::from_raw(&blob).unwrap();
    let mut it = dtb.enum_properties("/");
    assert_eq!(it.next(), Some("#address-cells"));
    assert_eq!(it.next(), None);
    assert_eq!(it.next(), None);
}

#[test]
fn lookup_agrees_with_enumeration() {
    let blob = platform();
    let dtb = Dtb::from_raw(&blob).unwrap();
    for path in ["/", "/memory", "/soc/uart", "/soc/virtio_mmio@10008000"] {
        let listed = properties(&dtb, path);
        for name in &listed {
            assert!(dtb.get_property(path, name).is_some());
        }
        assert!(dtb.get_property(path, "not-listed").is_none());
    }
}

#[test]
fn enum_try_next_reports_malformed() {
    let mut b = FdtBuilder::new();
    b.begin("").word(0x55);
    let blob = b.build();
    let dtb = Dtb::from_raw(&blob).unwrap();
    let mut it = dtb.enum_subnodes("/");
    assert_eq!(it.try_next(), Err(MalformedTree));
    let mut it = dtb.enum_properties("/");
    assert_eq!(it.try_next(), Err(MalformedTree));
}

#[test]
fn parse_dtb_reads_regions() {
    let blob = platform();
    let info = parse_dtb(&blob).unwrap();
    assert_eq!(info.memory_addr, 0x8000_0000);
    assert_eq!(info.memory_size, 0x800_0000);
    assert_eq!(info.mmio_regions.len(), 8);
    assert_eq!(info.mmio_regions[0], (0x1000_8000, 0x1000));
    assert_eq!(info.mmio_regions[5], (0x1000_3000, 0x1000));
    for i in [1, 2, 3, 4, 6, 7] {
        assert_eq!(info.mmio_regions[i], ABSENT_REGION);
    }
}

#[test]
fn parse_dtb_without_memory_reg() {
    let mut b = FdtBuilder::new();
    b.begin("").begin("memory").end_node().end_node().end();
    let info = parse_dtb(&b.build()).unwrap();
    assert_eq!((info.memory_addr, info.memory_size), (0, 0));
    assert_eq!(info.mmio_regions, vec![(1, 2); 8]);
}

#[test]
fn parse_dtb_rejects_bad_header() {
    let mut b = FdtBuilder::new();
    b.begin("").end_node().end();
    b.magic = 0;
    match parse_dtb(&b.build()) {
        Err(e) => assert_eq!(e, "dtb error"),
        Ok(_) => panic!("accepted a blob without the magic number"),
    }
}

#[test]
fn parse_dtb_checked_refuses_short_reg() {
    let mut b = FdtBuilder::new();
    b.begin("").begin("memory").prop("reg", &[1, 2, 3, 4]).end_node().end_node().end();
    let blob = b.build();
    assert!(!dtb_is_parsable(&blob));
    assert!(parse_dtb_checked(&blob).is_none());
    let good = platform();
    assert!(dtb_is_parsable(&good));
    assert_eq!(parse_dtb_checked(&good).unwrap().unwrap().memory_addr, 0x8000_0000);
}

#[test]
fn token_and_word_readers() {
    let bytes = [0x00, 0x00, 0x00, 0x03, 0xAA];
    let (token, rest) = parse_token(&bytes);
    assert_eq!(token, 3);
    assert_eq!(rest, &[0xAA]);
    assert_eq!(read_be32(&[0xD0, 0x0D, 0xFE, 0xED]), 0xD00D_FEED);
    let (len, rest) = parse_prop_data_length(&[0, 0, 1, 0, 7]);
    assert_eq!(len, 256);
    assert_eq!(rest, &[7]);
}

#[test]
fn c_strlen_stops_at_nul_or_end() {
    assert_eq!(c_strlen_on_slice(b"abc\0def"), 3);
    assert_eq!(c_strlen_on_slice(b"abc"), 3);
    assert_eq!(c_strlen_on_slice(b"\0"), 0);
    assert_eq!(c_strlen_on_slice(b""), 0);
}

#[test]
fn begin_node_name_is_padded() {
    let bytes = b"soc\0\x00\x00\x00\x02";
    let (name, rest) = parse_begin_node(bytes).unwrap();
    assert_eq!(name, "soc");
    assert_eq!(rest, &[0, 0, 0, 2]);
    let bytes = b"cpu\0\x00\x00\x00\x01";
    let (name, rest) = parse_begin_node(bytes).unwrap();
    assert_eq!(name, "cpu");
    assert_eq!(rest, &[0, 0, 0, 1]);
    assert!(parse_begin_node(b"abcd").is_none());
    assert!(parse_begin_node(b"\xff\0\0\0").is_none());
}

#[test]
fn prop_name_from_strings_block() {
    let strings = b"reg\0compatible\0";
    let (name, rest) = parse_prop_name(&[0, 0, 0, 4, 9], strings).unwrap();
    assert_eq!(name, "compatible");
    assert_eq!(rest, &[9]);
    assert!(parse_prop_name(&[0, 0, 0, 99], strings).is_none());
    assert!(parse_prop_name(&[0, 0], strings).is_none());
}

#[test]
fn path_component_matching() {
    assert_eq!(match_component(b"soc/uart", "soc"), Some(Some(&b"uart"[..])));
    assert_eq!(match_component(b"uart@", "uart@10000000"), Some(Some(&b""[..])));
    assert_eq!(match_component(b"memory", "soc"), Some(None));
    assert_eq!(match_component(b"/memory", ""), Some(Some(&b"memory"[..])));
    assert_eq!(match_component(b"a", "\u{e9}x"), None);
}

#[test]
fn utf8_and_byte_equality() {
    assert_eq!(str_from_utf8(b"uart"), Some("uart"));
    assert_eq!(str_from_utf8(b"\xc3"), None);
    assert!(bytes_eq(b"reg", b"reg"));
    assert!(!bytes_eq(b"reg", b"regs"));
    assert!(!bytes_eq(b"reg", b"rex"));
}

/// root { a {}; c { q { p = [1] } } }
fn sibling_tree() -> Vec<u8> {
    let mut b = FdtBuilder::new();
    b.begin("")
        .begin("a")
        .end_node()
        .begin("c")
        .begin("q")
        .prop("p", &[1])
        .end_node()
        .end_node()
        .end_node()
        .end();
    b.build()
}

#[test]
fn missing_node_has_no_property() {
    let blob = sibling_tree();
    let dtb = Dtb::from_raw(&blob).unwrap();
    assert_eq!(dtb.get_property("/a/q", "p"), None);
    assert_eq!(dtb.get_property("/c/q", "p"), Some(&[1u8][..]));
}

#[test]
fn missing_node_has_no_properties_or_subnodes() {
    let blob = sibling_tree();
    let dtb = Dtb::from_raw(&blob).unwrap();
    assert!(properties(&dtb, "/a/q").is_empty());
    assert_eq!(properties(&dtb, "/c/q"), vec!["p"]);
    assert!(subnodes(&dtb, "/a/q").is_empty());
    assert_eq!(subnodes(&dtb, "/c"), vec!["q"]);
}

#[test]
fn from_raw_keeps_every_header_word() {
    let blob = platform();
    let dtb = Dtb::from_raw(&blob).unwrap();
    assert_eq!(dtb.header.off_dt_struct, 40);
    assert_eq!(dtb.header.off_dt_strings, 40 + dtb.header.size_dt_struct);
    assert_eq!(dtb.header.off_mem_rsvmap, 0);
    assert_eq!(dtb.header.last_comp_version, 16);
    assert_eq!(dtb.header.boot_cpuid_phys, 0);
}
