use lib::dtb::parser::{cstr_end, Fdt, FdtNode, FdtProp, FtdHeader};
use lib::dtb::{find_child_with_prefix, find_earlyconsole_node, trim_start_slashes};

struct Blob {
    structs: Vec<u8>,
    strings: Vec<u8>,
}

impl Blob {
    fn new() -> Self {
        Blob { structs: Vec::new(), strings: Vec::new() }
    }

    fn word(&mut self, w: u32) {
        self.structs.extend_from_slice(&w.to_be_bytes());
    }

    fn pad(&mut self) {
        while self.structs.len() % 4 != 0 {
            self.structs.push(0);
        }
    }

    fn begin(&mut self, name: &str) {
        self.word(1);
        if name.is_empty() {
            self.word(0);
        } else {
            self.structs.extend_from_slice(name.as_bytes());
            self.structs.push(0);
            self.pad();
        }
    }

    fn end(&mut self) {
        self.word(2);
    }

    fn prop(&mut self, name: &str, value: &[u8]) {
        let name_off = self.strings.len() as u32;
        self.strings.extend_from_slice(name.as_bytes());
        self.strings.push(0);
        self.word(3);
        self.word(value.len() as u32);
        self.word(name_off);
        self.structs.extend_from_slice(value);
        self.pad();
    }

    fn finish(mut self) -> Vec<u8> {
        self.word(9);
        let off_struct = 40u32;
        let off_strings = off_struct + self.structs.len() as u32;
        let total = off_strings + self.strings.len() as u32;
        let header = [
            0xd00d_feed,
            total,
            off_struct,
            off_strings,
            40,
            17,
            16,
            0,
            self.strings.len() as u32,
            self.structs.len() as u32,
        ];
        let mut blob = Vec::new();
        for w in header {
            blob.extend_from_slice(&w.to_be_bytes());
        }
        blob.extend_from_slice(&self.structs);
        blob.extend_from_slice(&self.strings);
        blob
    }
}

fn sample_tree() -> Vec<u8> {
    let mut b = Blob::new();
    b.begin("");
    b.prop("#address-cells", &2u32.to_be_bytes());
    b.begin("chosen");
    b.prop("stdout-path", b"/pl011@9000000\0");
    b.end();
    b.word(4);
    b.begin("pl011@9000000");
    let mut reg = Vec::new();
    reg.extend_from_slice(&0x0900_0000u64.to_be_bytes());
    reg.extend_from_slice(&0x1000u64.to_be_bytes());
    b.prop("reg", &reg);
    b.prop("compatible", b"arm,pl011\0arm,primecell\0");
    b.prop("empty", &[]);
    b.end();
    b.end();
    b.finish()
}

#[test]
fn header_is_read_big_endian() {
    let blob = sample_tree();
    let h = FtdHeader::parse(&blob);
    assert_eq!(h.magic, 0xd00d_feed);
    assert_eq!(h.off_dt_struct, 40);
    assert_eq!(h.version, 17);
    assert_eq!(h.last_comp_version, 16);
    assert_eq!(h.total_size as usize, blob.len());
}

#[test]
fn tree_is_parsed_with_nodes_and_properties() {
    let blob = sample_tree();
    let fdt = Fdt::parse(&blob).unwrap();
    assert_eq!(fdt.nodes().len(), 1);
    let root = fdt.root();
    assert_eq!(root.name(), b"");
    assert_eq!(root.properties().len(), 1);
    assert_eq!(root.children().len(), 2);
    assert_eq!(root.read_u32(b"#address-cells", 0), Some(2));
    let chosen = root.find_child_by_name(b"chosen").unwrap();
    assert_eq!(chosen.read_prop_string(b"stdout-path"), Some(b"/pl011@9000000".to_vec()));
    assert_eq!(root.find_child_index(b"pl011@9000000"), Some(1));
    assert_eq!(root.find_child_index(b"pl011"), None);
    let uart = &root.children()[1];
    assert_eq!(uart.read_u64(b"reg", 0), Some(0x0900_0000));
    assert_eq!(uart.read_u64(b"reg", 1), Some(0x1000));
    assert_eq!(uart.read_prop_string(b"compatible"), Some(b"arm,pl011".to_vec()));
    assert_eq!(uart.read_prop_string(b"missing"), None);
    // A property without bytes has no value.
    let empty = uart.find_prop_by_name(b"empty").unwrap();
    assert!(empty.value.is_none());
    assert_eq!(uart.read_prop_string(b"empty"), None);
}

#[test]
fn early_console_is_found_through_chosen() {
    let blob = sample_tree();
    let fdt = Fdt::parse(&blob).unwrap();
    let node = find_earlyconsole_node(&fdt).unwrap();
    assert_eq!(node.name(), b"pl011@9000000");
}

#[test]
fn early_console_missing_without_chosen() {
    let mut b = Blob::new();
    b.begin("");
    b.begin("pl011@9000000");
    b.end();
    b.end();
    let blob = b.finish();
    let fdt = Fdt::parse(&blob).unwrap();
    assert!(find_earlyconsole_node(&fdt).is_none());
}

#[test]
fn malformed_trees_are_refused() {
    assert!(Fdt::parse(&[0u8; 39]).is_none());
    let blob = sample_tree();
    // The end token of the structure block replaced by an end of node.
    let strings_at = u32::from_be_bytes([blob[12], blob[13], blob[14], blob[15]]) as usize;
    let mut unterminated = blob.clone();
    unterminated[strings_at - 4..strings_at].copy_from_slice(&2u32.to_be_bytes());
    assert!(Fdt::parse(&unterminated).is_none());
    // An unknown token in the structure block.
    let mut bad = blob.clone();
    bad[40 + 8..40 + 12].copy_from_slice(&7u32.to_be_bytes());
    assert!(Fdt::parse(&bad).is_none());
    // Strings past the end of the blob.
    let mut far = blob.clone();
    far[12..16].copy_from_slice(&0xffff_u32.to_be_bytes());
    assert!(Fdt::parse(&far).is_none());
}

#[test]
fn node_and_property_parsers_report_the_next_position() {
    let mut b = Blob::new();
    b.begin("a");
    b.prop("x", &[1, 2, 3, 4, 5]);
    b.end();
    let strings_at = b.structs.len();
    let mut blob = b.structs.clone();
    blob.extend_from_slice(&b.strings);
    let (node, next) = FdtNode::parse(&blob, 0, strings_at).unwrap();
    assert_eq!(next, strings_at);
    assert_eq!(node.name(), b"a");
    let (prop, after) = FdtProp::parse(&blob, 8, strings_at).unwrap();
    assert_eq!(prop.name(), b"x");
    assert_eq!(prop.value, Some(vec![1, 2, 3, 4, 5]));
    assert_eq!(after, 8 + 12 + 8);
    assert!(FdtProp::parse(&blob, 0, strings_at).is_none());
}

#[test]
fn c_strings_and_slashes() {
    assert_eq!(cstr_end(b"ab\0cd\0", 0), Some(2));
    assert_eq!(cstr_end(b"ab\0cd\0", 3), Some(5));
    assert_eq!(cstr_end(b"abc", 0), None);
    assert_eq!(trim_start_slashes(b"//uart"), b"uart".to_vec());
    assert_eq!(trim_start_slashes(b"uart/x"), b"uart/x".to_vec());
    assert_eq!(trim_start_slashes(b"///"), Vec::<u8>::new());
}

#[test]
fn boot_nodes_are_found_by_name_prefix() {
    let blob = sample_tree();
    let fdt = Fdt::parse(&blob).unwrap();
    let root = fdt.root();
    assert_eq!(find_child_with_prefix(root, b"pl011"), Some(1));
    assert_eq!(find_child_with_prefix(root, b"cho"), Some(0));
    assert_eq!(find_child_with_prefix(root, b""), Some(0));
    assert_eq!(find_child_with_prefix(root, b"memory"), None);
}
