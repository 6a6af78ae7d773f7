use kami_script_runtime_rs::{ordered_tick_exports, read_uleb};

fn uleb(mut n: u64) -> Vec<u8> {
    let mut out = Vec::new();
    while n >= 0x80 {
        out.push((n & 0x7f) as u8 | 0x80);
        n >>= 7;
    }
    out.push(n as u8);
    out
}

fn export(name: &[u8], kind: u8, index: u64) -> Vec<u8> {
    let mut out = uleb(name.len() as u64);
    out.extend_from_slice(name);
    out.push(kind);
    out.extend(uleb(index));
    out
}

fn module(sections: &[(u8, Vec<u8>)]) -> Vec<u8> {
    let mut out = b"\0asm\x01\0\0\0".to_vec();
    for (id, body) in sections {
        out.push(*id);
        out.extend(uleb(body.len() as u64));
        out.extend_from_slice(body);
    }
    out
}

fn exports(entries: &[Vec<u8>]) -> Vec<u8> {
    let mut out = uleb(entries.len() as u64);
    for e in entries {
        out.extend_from_slice(e);
    }
    out
}

#[test]
fn uleb_reads_what_was_written() {
    for n in [0u64, 1, 0x7f, 0x80, 0x3fff, 0x4000, 624485, u32::MAX as u64, u64::MAX] {
        let mut bytes = vec![0xff, 0xff];
        let encoded = uleb(n);
        bytes.extend_from_slice(&encoded);
        bytes.extend_from_slice(&[0x80, 0x01]);
        assert_eq!(read_uleb(&bytes, 2), (n, 2 + encoded.len()));
    }
    assert_eq!(read_uleb(&[0xe5, 0x8e, 0x26], 0), (624485, 3));
}

#[test]
fn uleb_stops_at_the_end() {
    assert_eq!(read_uleb(&[], 0), (0, 0));
    assert_eq!(read_uleb(&[0x05], 1), (0, 1));
    assert_eq!(read_uleb(&[0x05], 9), (0, 9));
    assert_eq!(read_uleb(&[0x85, 0x81], 0), (0x85, 2));
}

#[test]
fn uleb_drops_bits_past_the_word() {
    let mut bytes = vec![0xff; 10];
    bytes[9] = 0x7f;
    assert_eq!(read_uleb(&bytes, 0), (u64::MAX, 10));
    let mut bytes = vec![0x80; 12];
    bytes.push(1);
    assert_eq!(read_uleb(&bytes, 0), (0, 13));
}

#[test]
fn tick_exports_in_section_order() {
    let wasm = module(&[
        (1, vec![0]),
        (
            7,
            exports(&[
                export(b"spawn-tick", 0, 20),
                export(b"memory", 2, 0),
                export(b"ai-tick", 0, 19),
                export(b"init", 0, 18),
                export(b"-tick", 0, 300),
                export(b"tick", 0, 21),
                export(b"weapon-tick", 0, 22),
            ]),
        ),
        (10, vec![0]),
    ]);
    assert_eq!(
        ordered_tick_exports(&wasm),
        vec!["spawn-tick", "ai-tick", "-tick", "weapon-tick"]
    );
}

#[test]
fn only_the_first_export_section_counts() {
    let wasm = module(&[
        (7, exports(&[export(b"a-tick", 0, 0)])),
        (7, exports(&[export(b"b-tick", 0, 0)])),
    ]);
    assert_eq!(ordered_tick_exports(&wasm), vec!["a-tick"]);
}

#[test]
fn nothing_is_exported_without_a_section() {
    assert_eq!(ordered_tick_exports(&[]), Vec::<String>::new());
    assert_eq!(ordered_tick_exports(b"\0asm\x01\0\0"), Vec::<String>::new());
    assert_eq!(ordered_tick_exports(b"\0asm\x01\0\0\0"), Vec::<String>::new());
    assert_eq!(ordered_tick_exports(&module(&[(1, vec![0]), (3, vec![0])])), Vec::<String>::new());
}

#[test]
fn names_that_are_not_text_are_passed_over() {
    let wasm = module(&[(
        7,
        exports(&[
            export(b"\xff-tick", 0, 1),
            export("\u{5e7d}\u{970a}-tick".as_bytes(), 0, 2),
        ]),
    )]);
    assert_eq!(ordered_tick_exports(&wasm), vec!["\u{5e7d}\u{970a}-tick"]);
}

#[test]
fn a_section_that_is_cut_off_gives_what_is_there() {
    let whole = module(&[(7, exports(&[export(b"a-tick", 0, 1), export(b"b-tick", 0, 2)]))]);
    let cut = &whole[..whole.len() - 8];
    assert_eq!(ordered_tick_exports(cut), vec!["a-tick"]);
    // A size that leads past the end does not hide the section.
    let mut wasm = b"\0asm\x01\0\0\0\x07".to_vec();
    wasm.extend([0xff, 0x01]);
    wasm.extend(exports(&[export(b"a-tick", 0, 1)]));
    assert_eq!(ordered_tick_exports(&wasm), vec!["a-tick"]);
}

#[test]
fn padded_numbers_read_alike() {
    assert_eq!(read_uleb(&[0x86, 0x80, 0x80, 0x00], 0), (6, 4));
    // "a-tick" and "b-tick", every number padded.
    let mut body = vec![0x82, 0x00];
    for name in [b"a-tick", b"b-tick"] {
        body.extend([0x86, 0x80, 0x00]);
        body.extend_from_slice(name);
        body.extend([0, 0x83, 0x80, 0x80, 0x00]);
    }
    let mut wasm = b"\0asm\x01\0\0\0".to_vec();
    wasm.extend([1, 0x82, 0x80, 0x00, 0xaa, 0xbb]);
    wasm.push(7);
    wasm.extend([body.len() as u8 | 0x80, 0x80, 0x00]);
    wasm.extend_from_slice(&body);
    assert_eq!(ordered_tick_exports(&wasm), vec!["a-tick", "b-tick"]);
}

#[test]
fn only_the_export_section_counts() {
    let section = (7u8, exports(&[export(b"a-tick", 0, 1), export(b"init", 0, 2)]));
    let plain = module(&[section.clone()]);
    let expected = vec!["a-tick"];
    assert_eq!(ordered_tick_exports(&plain), expected);
    let mut other = module(&[(0, b"note".to_vec()), (3, vec![1, 0]), section.clone(), section]);
    other[..8].copy_from_slice(b"anything");
    other.extend_from_slice(b"\x07\xff trailing");
    assert_eq!(ordered_tick_exports(&other), expected);
}
