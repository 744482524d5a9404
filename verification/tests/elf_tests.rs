use lsplt_rs::elf::{resolve_got_slots, ResolveError};

fn put16(b: &mut Vec<u8>, off: usize, v: u16) {
    b[off] = (v & 0xff) as u8;
    b[off + 1] = (v >> 8) as u8;
}

fn put32(b: &mut Vec<u8>, off: usize, v: u32) {
    for k in 0..4 {
        b[off + k] = ((v >> (8 * k)) & 0xff) as u8;
    }
}

fn put64(b: &mut Vec<u8>, off: usize, v: u64) {
    for k in 0..8 {
        b[off + k] = ((v >> (8 * k)) & 0xff) as u8;
    }
}

/// A minimal 64-bit little-endian shared object: one dynamic segment, a
/// symbol table with `getpid` and `other`, two PLT relocations and one
/// other GOT relocation, and three GOT slots inside one page.
fn sample_object() -> Vec<u8> {
    let mut b = vec![0u8; 4096];
    b[0] = 0x7f;
    b[1] = 0x45;
    b[2] = 0x4c;
    b[3] = 0x46;
    b[4] = 2; // 64-bit
    b[5] = 1; // little-endian
    put16(&mut b, 16, 3); // shared object
    put16(&mut b, 18, 62); // x86-64
    put64(&mut b, 32, 64); // program headers at 64
    put16(&mut b, 54, 56); // program-header entry size
    put16(&mut b, 56, 1); // one program header
    // program header: the dynamic segment
    put32(&mut b, 64, 2); // dynamic
    put64(&mut b, 64 + 16, 0x100); // vaddr
    put64(&mut b, 64 + 40, 112); // memsz: seven 16-byte entries
    // dynamic entries
    put64(&mut b, 0x100, 6); // symbol table
    put64(&mut b, 0x108, 0x200);
    put64(&mut b, 0x110, 5); // string table
    put64(&mut b, 0x118, 0x300);
    put64(&mut b, 0x120, 23); // PLT relocations
    put64(&mut b, 0x128, 0x400);
    put64(&mut b, 0x130, 2); // PLT relocations size
    put64(&mut b, 0x138, 48);
    put64(&mut b, 0x140, 7); // other relocations
    put64(&mut b, 0x148, 0x500);
    put64(&mut b, 0x150, 8); // other relocations size
    put64(&mut b, 0x158, 24);
    // entry 6 left zero: the null tag ends the walk
    // symbol table: null, getpid, other
    put32(&mut b, 0x200 + 24, 1); // name offset of symbol 1
    put32(&mut b, 0x200 + 48, 8); // name offset of symbol 2
    // string table
    b[0x301..0x307].copy_from_slice(b"getpid");
    b[0x308..0x30d].copy_from_slice(b"other");
    // PLT relocations: getpid then other, both jump slots
    put64(&mut b, 0x400, 0x800);
    put64(&mut b, 0x408, (1u64 << 32) | 7);
    put64(&mut b, 0x418, 0x808);
    put64(&mut b, 0x420, (2u64 << 32) | 7);
    // one more getpid relocation, a global-data slot
    put64(&mut b, 0x500, 0x810);
    put64(&mut b, 0x508, (1u64 << 32) | 6);
    // GOT slot contents: both getpid slots hold the real function pointer
    put64(&mut b, 0x800, 0xAAAA);
    put64(&mut b, 0x808, 0xBBBB);
    put64(&mut b, 0x810, 0xAAAA);
    b
}

#[test]
fn resolve_finds_every_got_slot() {
    let img = sample_object();
    let slots = resolve_got_slots(&img, b"getpid").expect("symbol present");
    assert_eq!(slots, vec![0x800, 0x810]);
    let slots = resolve_got_slots(&img, b"other").expect("symbol present");
    assert_eq!(slots, vec![0x808]);
}

#[test]
fn resolve_unknown_symbol() {
    let img = sample_object();
    assert_eq!(resolve_got_slots(&img, b"missing"), Err(ResolveError::SymbolNotFound));
}

#[test]
fn resolve_rejects_bad_magic() {
    let mut img = sample_object();
    img[0] = 0x7e;
    assert_eq!(resolve_got_slots(&img, b"getpid"), Err(ResolveError::Format));
}

#[test]
fn resolve_rejects_wrong_class() {
    let mut img = sample_object();
    img[4] = 1;
    assert_eq!(resolve_got_slots(&img, b"getpid"), Err(ResolveError::Format));
}

#[test]
fn resolve_rejects_truncated_window() {
    // A size window smaller than the library's footprint cuts the
    // relocation tables off: a format failure, never a silent partial
    // answer.
    let img = sample_object();
    assert_eq!(resolve_got_slots(&img[..0x180], b"getpid"), Err(ResolveError::Format));
}

#[test]
fn resolve_rejects_missing_dynamic() {
    let mut img = sample_object();
    put32(&mut img, 64, 1); // the only segment is no longer dynamic
    assert_eq!(resolve_got_slots(&img, b"getpid"), Err(ResolveError::Format));
}

#[test]
fn resolve_empty_image() {
    assert_eq!(resolve_got_slots(&[], b"getpid"), Err(ResolveError::Format));
}
