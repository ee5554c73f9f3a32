use of::{
    be_u32_at, bootargs, cell_count_from, compatible_matches, count_value, device_status_available,
    fdt_size, find_compatible_node, find_phandle, machin_name, memory_nodes, of_device_is_available,
    of_parse_phandle_with_args, of_property_read_u32, pcsi, property_text, read_args, read_phandle,
    read_u32_cell, trimmed_len, MachineFdt, OfError, OfPhandleIterator, MAX_PHANDLE_ARGS,
};

/// Assembles a flattened devicetree blob node by node.
struct Blob {
    structs: Vec<u8>,
    strings: Vec<u8>,
}

fn cells(vals: &[u32]) -> Vec<u8> {
    let mut v = Vec::new();
    for x in vals {
        v.extend_from_slice(&x.to_be_bytes());
    }
    v
}

fn text(s: &str) -> Vec<u8> {
    let mut v = s.as_bytes().to_vec();
    v.push(0);
    v
}

fn pad(v: &mut Vec<u8>) {
    while v.len() % 4 != 0 {
        v.push(0);
    }
}

impl Blob {
    fn new() -> Blob {
        Blob { structs: Vec::new(), strings: Vec::new() }
    }

    fn begin(&mut self, name: &str) {
        self.structs.extend_from_slice(&1u32.to_be_bytes());
        self.structs.extend_from_slice(name.as_bytes());
        self.structs.push(0);
        pad(&mut self.structs);
    }

    fn prop(&mut self, name: &str, value: &[u8]) {
        let off = self.strings.len() as u32;
        self.strings.extend_from_slice(name.as_bytes());
        self.strings.push(0);
        self.structs.extend_from_slice(&3u32.to_be_bytes());
        self.structs.extend_from_slice(&(value.len() as u32).to_be_bytes());
        self.structs.extend_from_slice(&off.to_be_bytes());
        self.structs.extend_from_slice(value);
        pad(&mut self.structs);
    }

    fn end(&mut self) {
        self.structs.extend_from_slice(&2u32.to_be_bytes());
    }

    fn finish(mut self) -> Vec<u8> {
        self.structs.extend_from_slice(&9u32.to_be_bytes());
        let off_rsv: u32 = 40;
        let off_struct: u32 = off_rsv + 16;
        let off_strings = off_struct + self.structs.len() as u32;
        let total = off_strings + self.strings.len() as u32;
        let header = [
            0xd00dfeed,
            total,
            off_struct,
            off_strings,
            off_rsv,
            17,
            16,
            0,
            self.strings.len() as u32,
            self.structs.len() as u32,
        ];
        let mut out = cells(&header);
        out.extend_from_slice(&[0u8; 16]);
        out.extend_from_slice(&self.structs);
        out.extend_from_slice(&self.strings);
        out
    }
}

/// A board description with the parts the queries below look at.
fn board() -> Vec<u8> {
    let mut b = Blob::new();
    b.begin("");
    b.prop("model", &text("BST A1000B FAD-A"));
    let mut compat = text("bst,a1000b-fada");
    compat.extend_from_slice(&text("bst,a1000b"));
    b.prop("compatible", &compat);

    b.begin("chosen");
    b.prop("bootargs", &text("console=ttyS0,115200"));
    b.end();

    b.begin("memory@80000000");
    b.prop("device_type", &text("memory"));
    b.prop("reg", &cells(&[0, 0x80000000, 0, 0x40000000]));
    b.end();

    b.begin("psci");
    b.prop("compatible", &text("arm,psci-1.0"));
    b.prop("method", &text("smc"));
    b.prop("cpu_on", &cells(&[0xC4000003]));
    b.prop("cpu_off", &cells(&[0x84000002]));
    b.prop("cpu_suspend", &cells(&[0xC4000001]));
    b.end();

    b.begin("interrupt-controller@32000000");
    b.prop("compatible", &text("arm,gic-400"));
    b.prop("#interrupt-cells", &cells(&[3]));
    b.prop("phandle", &cells(&[1]));
    b.end();

    b.begin("clock-controller@33002000");
    b.prop("compatible", &text("bst,a1000b-clkc"));
    b.prop("#clock-cells", &cells(&[1]));
    b.prop("phandle", &cells(&[2]));
    b.end();

    b.begin("reset-controller@33002180");
    b.prop("compatible", &text("bst,a1000b-rstc"));
    b.prop("phandle", &cells(&[3]));
    b.end();

    b.begin("soc");
    b.prop("compatible", &text("simple-bus"));
    for i in 0..4u32 {
        b.begin(&format!("serial@2000{}000", i));
        b.prop("compatible", &text("snps,dw-apb-uart"));
        if i == 3 {
            b.prop("status", &text("disabled"));
        } else {
            b.prop("status", &text("okay"));
        }
        b.end();
    }
    b.begin("i2c@20005000");
    b.prop("compatible", &text("snps,designware-i2c"));
    b.prop("interrupt-parent", &cells(&[1]));
    b.prop("interrupts", &cells(&[0, 0xcf, 0x04]));
    b.prop("clocks", &cells(&[2, 75, 2, 73]));
    b.prop("resets", &cells(&[3, 3]));
    b.prop("dangling", &cells(&[77, 1]));
    b.prop("truncated", &cells(&[2, 75, 2]));
    b.prop("fixed-pairs", &cells(&[2, 5, 6, 1, 7, 8]));
    b.prop("status", &[0x6f, 0x6b]);
    b.end();
    b.begin("i2c@20006000");
    b.prop("compatible", &text("snps,designware-i2c"));
    b.prop("status", &[0xff, 0xfe, 0x00]);
    b.end();
    b.end();

    b.end();
    b.finish()
}

const I2C_COMPATIABLE: &[&str] = &["snps,designware-i2c"];

#[test]
fn test_module() {
    let blob = board();
    let fdt = MachineFdt::new(&blob).unwrap();
    let model = machin_name(&fdt);
    assert_eq!(model, Some("BST A1000B FAD-A"));
}

#[test]
fn test_find_compatible() {
    const CONSOLE_COMPATIABLE: &[&str] = &["snps,dw-apb-uart"];
    const CONSOLE_COUNT: usize = 4;
    let blob = board();
    let fdt = MachineFdt::new(&blob).unwrap();
    let console_node = find_compatible_node(&fdt, CONSOLE_COMPATIABLE);
    assert_eq!(console_node.len(), CONSOLE_COUNT);
}

#[test]
fn test_pcsi() {
    let blob = board();
    let fdt = MachineFdt::new(&blob).unwrap();
    let of_pcsi = pcsi(&fdt);
    assert!(of_pcsi.is_some());
    let of_pcsi = of_pcsi.unwrap();
    assert_eq!(of_pcsi.method(), Some("smc"));
    assert_eq!(of_pcsi.cpu_on().unwrap(), 0xC4000003);
    assert_eq!(of_pcsi.cpu_off().unwrap(), 0x84000002);
    assert_eq!(of_pcsi.cpu_suspend().unwrap(), 0xC4000001);
}

#[test]
fn test_platform() {
    const OF_DEFAULT_BUS_MATCH_TABLE: [&[&str]; 4] =
        [&["simple-bus"], &["simple-mfd"], &["simple-isa"], &["arm,amba-bus"]];
    let blob = board();
    let fdt = MachineFdt::new(&blob).unwrap();
    for b in OF_DEFAULT_BUS_MATCH_TABLE {
        let bus_nodes = find_compatible_node(&fdt, b);
        if b[0].eq("simple-bus") {
            assert_eq!(bus_nodes.len(), 1);
        } else {
            assert_eq!(bus_nodes.len(), 0);
        }
    }
}

#[test]
fn test_irqcontroler() {
    let blob = board();
    let fdt = MachineFdt::new(&blob).unwrap();
    let i2c_node = find_compatible_node(&fdt, I2C_COMPATIABLE)[0];
    let irq_controler = i2c_node.interrupt_parent().unwrap();
    assert_eq!("arm,gic-400", irq_controler.compatible().unwrap().first());
    assert_eq!(3, irq_controler.interrupt_cells().unwrap());
    let mut res: [u32; 3] = [0; 3];
    for i in 0..irq_controler.interrupt_cells().unwrap() {
        res[i] = of_property_read_u32(i2c_node, "interrupts", i).unwrap();
    }
    assert_eq!([0, 0xcf, 0x04], res);
}

#[test]
fn test_phandle_arg() {
    let blob = board();
    let fdt = MachineFdt::new(&blob).unwrap();
    let i2c_node = find_compatible_node(&fdt, I2C_COMPATIABLE)[0];
    let phandle_arg = of_parse_phandle_with_args(&fdt, i2c_node, "clocks", Some("#clock-cells"), 0)
        .unwrap()
        .expect("i2c no clocks");
    assert_eq!(phandle_arg.args_count, 1);
    assert_eq!(phandle_arg.args[0], 75);
    let phandle_arg = of_parse_phandle_with_args(&fdt, i2c_node, "clocks", Some("#clock-cells"), 1)
        .unwrap()
        .expect("i2c no clocks");
    assert_eq!(phandle_arg.args[0], 73);
}

#[test]
fn invalid_blob_is_not_registered() {
    let junk = [0u8; 64];
    assert_eq!(MachineFdt::new(&junk).err(), Some(OfError::NotRegistered));
    assert_eq!(MachineFdt::new(&[]).err(), Some(OfError::NotRegistered));
    let mut bad = cells(&[0xd00dfeed, 40, 1000, 40, 40, 17, 16, 0, 0, 0]);
    assert_eq!(MachineFdt::new(&bad).err(), Some(OfError::NotRegistered));
    bad[11] = 40;
    bad[39] = 8;
    assert_eq!(MachineFdt::new(&bad).err(), Some(OfError::NotRegistered));
    let mut good = board();
    assert!(MachineFdt::new(&good).is_ok());
    let n = good.len();
    good[n - 1] = 0x41;
    assert_eq!(MachineFdt::new(&good).err(), Some(OfError::NotRegistered));

    let mut b = Blob::new();
    b.begin("");
    b.begin("aliases");
    b.prop("/psci", &text("/psci"));
    b.end();
    b.end();
    assert_eq!(MachineFdt::new(&b.finish()).err(), Some(OfError::NotRegistered));

    let mut b = Blob::new();
    b.begin("root");
    b.end();
    assert_eq!(MachineFdt::new(&b.finish()).err(), Some(OfError::NotRegistered));

    let mut b = Blob::new();
    b.begin("");
    b.begin("child");
    b.end();
    b.prop("late", &cells(&[1]));
    b.end();
    assert_eq!(MachineFdt::new(&b.finish()).err(), Some(OfError::NotRegistered));
}

#[test]
fn availability_without_status_is_true() {
    let blob = board();
    let fdt = MachineFdt::new(&blob).unwrap();
    let psci = pcsi(&fdt).unwrap();
    assert_eq!(of_device_is_available(psci.node), Ok(true));
    assert_eq!(device_status_available(None), Ok(true));
}

#[test]
fn availability_follows_status_text() {
    let blob = board();
    let fdt = MachineFdt::new(&blob).unwrap();
    let uarts = find_compatible_node(&fdt, &["snps,dw-apb-uart"]);
    let avail: Vec<Result<bool, OfError>> =
        uarts.iter().map(|n| of_device_is_available(*n)).collect();
    assert_eq!(avail, vec![Ok(true), Ok(true), Ok(true), Ok(false)]);
    let i2c = find_compatible_node(&fdt, I2C_COMPATIABLE);
    assert_eq!(of_device_is_available(i2c[0]), Ok(true));
    assert_eq!(of_device_is_available(i2c[1]), Err(OfError::InvalidText));

    assert_eq!(device_status_available(Some(b"okay\0")), Ok(true));
    assert_eq!(device_status_available(Some(b"ok\0\0")), Ok(true));
    assert_eq!(device_status_available(Some(b"ok")), Ok(true));
    assert_eq!(device_status_available(Some(b"okay!")), Ok(false));
    assert_eq!(device_status_available(Some(b"\0okay")), Ok(false));
    assert_eq!(device_status_available(Some(b"disabled\0")), Ok(false));
    assert_eq!(device_status_available(Some(b"")), Ok(false));
    assert_eq!(device_status_available(Some(&[0xc3, 0x28])), Err(OfError::InvalidText));
}

#[test]
fn search_for_unknown_identifier_is_empty() {
    let blob = board();
    let fdt = MachineFdt::new(&blob).unwrap();
    assert!(find_compatible_node(&fdt, &["vendor,no-such-device"]).is_empty());
    assert!(find_compatible_node(&fdt, &[]).is_empty());
    let either = find_compatible_node(&fdt, &["arm,gic-400", "snps,designware-i2c"]);
    assert_eq!(either.len(), 3);
    assert_eq!(either[0].name, "interrupt-controller@32000000");
}

#[test]
fn compatible_lists_match_by_membership() {
    assert!(compatible_matches(&["a", "b"], &["c", "b"]));
    assert!(!compatible_matches(&["a", "b"], &["c", "ab"]));
    assert!(!compatible_matches(&[], &["a"]));
}

#[test]
fn drains_every_entry_then_ends() {
    let blob = board();
    let fdt = MachineFdt::new(&blob).unwrap();
    let i2c = find_compatible_node(&fdt, I2C_COMPATIABLE)[0];
    for _ in 0..2 {
        let mut it = OfPhandleIterator::new(&fdt, i2c, "clocks", Some("#clock-cells"), 0).unwrap();
        let mut seen = Vec::new();
        while let Some(a) = it.next().unwrap() {
            seen.push((a.args_count, a.args[0], a.np.name));
        }
        assert_eq!(seen, vec![(1, 75, "i2c@20005000"), (1, 73, "i2c@20005000")]);
        assert!(it.next().unwrap().is_none());
    }
}

#[test]
fn drain_gives_every_entry_once() {
    let blob = board();
    let fdt = MachineFdt::new(&blob).unwrap();
    let i2c = find_compatible_node(&fdt, I2C_COMPATIABLE)[0];
    let mut first = OfPhandleIterator::new(&fdt, i2c, "clocks", Some("#clock-cells"), 0).unwrap();
    let a = first.drain_entries().unwrap();
    let mut again = OfPhandleIterator::new(&fdt, i2c, "clocks", Some("#clock-cells"), 0).unwrap();
    let b = again.drain_entries().unwrap();
    assert_eq!(a.len(), 2);
    assert_eq!(b.len(), 2);
    for (x, y) in a.iter().zip(b.iter()) {
        assert_eq!((x.args_count, x.args), (y.args_count, y.args));
    }
    assert_eq!((a[0].args[0], a[1].args[0]), (75, 73));
    assert!(first.next().unwrap().is_none());
    assert!(first.drain_entries().unwrap().is_empty());
    let mut bad = OfPhandleIterator::new(&fdt, i2c, "truncated", Some("#clock-cells"), 0).unwrap();
    assert_eq!(bad.drain_entries().err(), Some(OfError::InsufficientBytes));
}

#[test]
fn index_past_end_is_absent() {
    let blob = board();
    let fdt = MachineFdt::new(&blob).unwrap();
    let i2c = find_compatible_node(&fdt, I2C_COMPATIABLE)[0];
    let r = of_parse_phandle_with_args(&fdt, i2c, "clocks", Some("#clock-cells"), 2);
    assert!(matches!(r, Ok(None)));
    let r = of_parse_phandle_with_args(&fdt, i2c, "clocks", Some("#clock-cells"), 7);
    assert!(matches!(r, Ok(None)));
    let r = of_parse_phandle_with_args(&fdt, i2c, "no-such-list", Some("#clock-cells"), 0);
    assert!(matches!(r, Ok(None)));
}

#[test]
fn fixed_cell_count_applies_to_every_entry() {
    let blob = board();
    let fdt = MachineFdt::new(&blob).unwrap();
    let i2c = find_compatible_node(&fdt, I2C_COMPATIABLE)[0];
    let mut it = OfPhandleIterator::new(&fdt, i2c, "fixed-pairs", None, 2).unwrap();
    let a = it.next().unwrap().unwrap();
    assert_eq!((a.args_count, a.args[0], a.args[1], a.args[2]), (2, 5, 6, 0));
    let a = it.next().unwrap().unwrap();
    assert_eq!((a.args_count, a.args[0], a.args[1]), (2, 7, 8));
    assert!(it.next().unwrap().is_none());

    let r = of_parse_phandle_with_args(&fdt, i2c, "resets", None, 0).unwrap().unwrap();
    assert_eq!(r.args_count, 0);
    assert_eq!(r.args, [0u32; MAX_PHANDLE_ARGS]);
    let r = of_parse_phandle_with_args(&fdt, i2c, "resets", None, 1).unwrap().unwrap();
    assert_eq!(r.args_count, 0);
}

#[test]
fn phandle_errors_are_reported() {
    let blob = board();
    let fdt = MachineFdt::new(&blob).unwrap();
    let i2c = find_compatible_node(&fdt, I2C_COMPATIABLE)[0];
    let r = of_parse_phandle_with_args(&fdt, i2c, "dangling", Some("#clock-cells"), 0);
    assert_eq!(r.err(), Some(OfError::UnresolvedPhandle));
    let r = of_parse_phandle_with_args(&fdt, i2c, "resets", Some("#clock-cells"), 0);
    assert_eq!(r.err(), Some(OfError::MissingCellCountProperty));
    let r = of_parse_phandle_with_args(&fdt, i2c, "truncated", Some("#clock-cells"), 1);
    assert_eq!(r.err(), Some(OfError::InsufficientBytes));
    let r = of_parse_phandle_with_args(&fdt, i2c, "truncated", Some("#clock-cells"), 0).unwrap();
    assert_eq!(r.unwrap().args[0], 75);
    let mut it = OfPhandleIterator::new(&fdt, i2c, "clocks", None, 33).unwrap();
    assert_eq!(it.next().err(), Some(OfError::CapacityExceeded));
}

#[test]
fn cell_count_matches_its_property() {
    let blob = board();
    let fdt = MachineFdt::new(&blob).unwrap();
    let clk = find_phandle(&fdt, 2).unwrap();
    let raw = clk.property("#clock-cells").unwrap().value;
    let by_hand = u32::from_be_bytes([raw[0], raw[1], raw[2], raw[3]]) as usize;
    let i2c = find_compatible_node(&fdt, I2C_COMPATIABLE)[0];
    let a = of_parse_phandle_with_args(&fdt, i2c, "clocks", Some("#clock-cells"), 0)
        .unwrap()
        .unwrap();
    assert_eq!(a.args_count, by_hand);
    assert_eq!(cell_count_from(Some(raw)), Ok(1));
}

#[test]
fn count_values() {
    assert_eq!(count_value(&[0, 0, 0, 3]), Some(3));
    assert_eq!(count_value(&[0, 0, 0, 1, 0, 0, 0, 2]), Some(0x1_0000_0002));
    assert_eq!(count_value(&[0, 0, 3]), None);
    assert_eq!(cell_count_from(None), Err(OfError::MissingCellCountProperty));
    assert_eq!(cell_count_from(Some(&[1, 2])), Err(OfError::MissingCellCountProperty));
}

#[test]
fn big_endian_cells() {
    assert_eq!(be_u32_at(&[0x12, 0x34, 0x56, 0x78, 0x9a], 0), Ok(0x12345678));
    assert_eq!(be_u32_at(&[0x12, 0x34, 0x56, 0x78, 0x9a], 1), Ok(0x3456789a));
    assert_eq!(be_u32_at(&[0x12, 0x34, 0x56, 0x78, 0x9a], 2), Err(OfError::InsufficientBytes));
    assert_eq!(be_u32_at(&[], 0), Err(OfError::InsufficientBytes));
    assert_eq!(read_u32_cell(&[0, 0, 0, 1, 0xff, 0xff, 0xff, 0xff], 1), Some(u32::MAX));
    assert_eq!(read_u32_cell(&[0, 0, 0, 1, 0xff], 1), None);
    assert_eq!(read_u32_cell(&[0, 0, 0, 1], usize::MAX), None);
}

#[test]
fn raw_list_steps() {
    let list = [0, 0, 0, 2, 0, 0, 0, 75, 0, 0, 0, 2, 0, 0, 0, 73];
    assert_eq!(read_phandle(&list, 0), Some(2));
    assert_eq!(read_phandle(&list, 14), None);
    assert_eq!(read_phandle(&list, 16), None);
    let a = read_args(&list, 8, 1).unwrap();
    assert_eq!(a[0], 73);
    assert_eq!(a[1], 0);
    assert_eq!(read_args(&list, 8, 2), Err(OfError::InsufficientBytes));
    assert_eq!(read_args(&list, 0, MAX_PHANDLE_ARGS + 1), Err(OfError::CapacityExceeded));
    assert_eq!(read_args(&list, 0, 0).unwrap(), [0u32; MAX_PHANDLE_ARGS]);
}

#[test]
fn text_properties() {
    assert_eq!(trimmed_len(b"smc\0\0"), 3);
    assert_eq!(trimmed_len(b"\0"), 0);
    assert_eq!(property_text(b"smc\0"), Some("smc"));
    assert_eq!(property_text(&[0xff, 0]), None);
}

#[test]
fn machine_name_falls_back_to_compatible() {
    let mut b = Blob::new();
    b.begin("");
    b.prop("compatible", &text("vendor,board\0vendor,soc"));
    b.end();
    let blob = b.finish();
    let fdt = MachineFdt::new(&blob).unwrap();
    assert_eq!(machin_name(&fdt), Some("vendor,board"));
}

#[test]
fn simple_readers() {
    let blob = board();
    let fdt = MachineFdt::new(&blob).unwrap();
    assert_eq!(bootargs(&fdt), Some("console=ttyS0,115200"));
    assert_eq!(fdt_size(&fdt), blob.len());
    let mem = memory_nodes(&fdt);
    assert_eq!(mem.len(), 1);
    assert_eq!(mem[0].node.name, "memory@80000000");
}
