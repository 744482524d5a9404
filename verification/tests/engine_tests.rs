use lsplt_rs::{
    commit_hook, invalidate_backup, register_hook, register_hook_with_offset, AddressSpace,
    HookEngine, HookState, Region, RegisterError,
};

const BASE: usize = 0x10000;
const DEV: u64 = 0x801;
const INODE: u64 = 42;

fn w16(b: &mut Vec<u8>, off: usize, v: u16) {
    b[off] = (v & 0xff) as u8;
    b[off + 1] = (v >> 8) as u8;
}

fn w32(b: &mut Vec<u8>, off: usize, v: u32) {
    for k in 0..4 {
        b[off + k] = ((v >> (8 * k)) & 0xff) as u8;
    }
}

fn w64(b: &mut Vec<u8>, off: usize, v: u64) {
    for k in 0..8 {
        b[off + k] = ((v >> (8 * k)) & 0xff) as u8;
    }
}

fn r64(b: &[u8], off: usize) -> u64 {
    let mut v: u64 = 0;
    for k in 0..8 {
        v |= (b[off + k] as u64) << (8 * k);
    }
    v
}

/// One page of a little shared object exposing `getpid` through two GOT
/// slots (0x800 and 0x810) that hold the real function pointer 0xAAAA.
fn object_page() -> Vec<u8> {
    let mut b = vec![0u8; 4096];
    b[0] = 0x7f;
    b[1] = 0x45;
    b[2] = 0x4c;
    b[3] = 0x46;
    b[4] = 2;
    b[5] = 1;
    w16(&mut b, 16, 3);
    w16(&mut b, 18, 62);
    w64(&mut b, 32, 64);
    w16(&mut b, 54, 56);
    w16(&mut b, 56, 1);
    w32(&mut b, 64, 2);
    w64(&mut b, 64 + 16, 0x100);
    w64(&mut b, 64 + 40, 112);
    w64(&mut b, 0x100, 6);
    w64(&mut b, 0x108, 0x200);
    w64(&mut b, 0x110, 5);
    w64(&mut b, 0x118, 0x300);
    w64(&mut b, 0x120, 23);
    w64(&mut b, 0x128, 0x400);
    w64(&mut b, 0x130, 2);
    w64(&mut b, 0x138, 48);
    w64(&mut b, 0x140, 7);
    w64(&mut b, 0x148, 0x500);
    w64(&mut b, 0x150, 8);
    w64(&mut b, 0x158, 24);
    w32(&mut b, 0x200 + 24, 1);
    w32(&mut b, 0x200 + 48, 8);
    b[0x301..0x307].copy_from_slice(b"getpid");
    b[0x308..0x30d].copy_from_slice(b"other");
    w64(&mut b, 0x400, 0x800);
    w64(&mut b, 0x408, (1u64 << 32) | 7);
    w64(&mut b, 0x418, 0x808);
    w64(&mut b, 0x420, (2u64 << 32) | 7);
    w64(&mut b, 0x500, 0x810);
    w64(&mut b, 0x508, (1u64 << 32) | 6);
    w64(&mut b, 0x800, 0xAAAA);
    w64(&mut b, 0x808, 0xBBBB);
    w64(&mut b, 0x810, 0xAAAA);
    b
}

fn library_space(file_offset: usize) -> AddressSpace {
    let mut space = AddressSpace::new();
    let accepted = space.add_region(Region {
        start: BASE,
        perms: 5,
        is_private: true,
        offset: file_offset,
        dev: DEV,
        inode: INODE,
        bytes: object_page(),
    });
    assert!(accepted);
    space
}

#[test]
fn scenario_hooked_getpid_returns_callback() {
    // After registering getpid -> 0x2333 and committing, the GOT slots
    // route calls to 0x2333, and the backup names the real function.
    let mut eng = HookEngine::new();
    let mut space = library_space(0);
    register_hook(&mut eng, DEV, INODE, "getpid", 0x2333).unwrap();
    assert!(commit_hook(&mut eng, &mut space).is_ok());
    assert_eq!(eng.intents.len(), 1);
    assert_eq!(eng.intents[0].state, HookState::Committed);
    assert_eq!(eng.intents[0].backup, Some(0xAAAA));
    let bytes = &space.regions[0].bytes;
    assert_eq!(r64(bytes, 0x800), 0x2333);
    assert_eq!(r64(bytes, 0x810), 0x2333);
    assert_eq!(r64(bytes, 0x808), 0xBBBB); // the other symbol's slot is untouched
}

#[test]
fn isolation_valid_and_invalid_in_one_batch() {
    // A failing hook must not drag a valid one down: after one commit the
    // valid intent is committed with a backup, the invalid one failed
    // with none.
    let mut eng = HookEngine::new();
    let mut space = library_space(0);
    register_hook(&mut eng, DEV, INODE, "missing", 0x1111).unwrap();
    register_hook(&mut eng, DEV, INODE, "getpid", 0x2333).unwrap();
    assert!(commit_hook(&mut eng, &mut space).is_err());
    assert_eq!(eng.intents[0].state, HookState::Failed);
    assert_eq!(eng.intents[0].backup, None);
    assert_eq!(eng.intents[1].state, HookState::Committed);
    assert_eq!(eng.intents[1].backup, Some(0xAAAA));
    assert_eq!(r64(&space.regions[0].bytes, 0x800), 0x2333);
}

#[test]
fn idempotent_commit_second_call_is_noop() {
    let mut eng = HookEngine::new();
    let mut space = library_space(0);
    register_hook(&mut eng, DEV, INODE, "getpid", 0x2333).unwrap();
    assert!(commit_hook(&mut eng, &mut space).is_ok());
    let bytes_after_first = space.regions[0].bytes.clone();
    let records_after_first = eng.records.len();
    assert!(commit_hook(&mut eng, &mut space).is_ok());
    assert_eq!(space.regions[0].bytes, bytes_after_first);
    assert_eq!(eng.records.len(), records_after_first);
    assert_eq!(eng.intents[0].state, HookState::Committed);
    assert_eq!(eng.intents[0].backup, Some(0xAAAA));
}

#[test]
fn unhook_restores_original_slots() {
    // Re-registering with the backup as callback and committing again
    // puts the GOT slots back to the real function.
    let mut eng = HookEngine::new();
    let mut space = library_space(0);
    register_hook(&mut eng, DEV, INODE, "getpid", 0x2333).unwrap();
    assert!(commit_hook(&mut eng, &mut space).is_ok());
    let backup = eng.intents[0].backup.expect("committed");
    register_hook(&mut eng, DEV, INODE, "getpid", backup).unwrap();
    assert!(commit_hook(&mut eng, &mut space).is_ok());
    let bytes = &space.regions[0].bytes;
    assert_eq!(r64(bytes, 0x800), 0xAAAA);
    assert_eq!(r64(bytes, 0x810), 0xAAAA);
}

#[test]
fn misaligned_offset_rejected_without_intent() {
    let mut eng = HookEngine::new();
    let r = register_hook_with_offset(&mut eng, DEV, INODE, 123, 4096, "getpid", 0x2333);
    assert_eq!(r, Err(RegisterError::Alignment));
    assert!(eng.intents.is_empty());
}

#[test]
fn aligned_offset_window_commits() {
    let mut eng = HookEngine::new();
    let mut space = library_space(4096);
    register_hook_with_offset(&mut eng, DEV, INODE, 4096, 4096, "getpid", 0x2333).unwrap();
    assert!(commit_hook(&mut eng, &mut space).is_ok());
    assert_eq!(eng.intents[0].state, HookState::Committed);
    assert_eq!(r64(&space.regions[0].bytes, 0x800), 0x2333);
}

#[test]
fn reregistering_same_key_replaces_intent() {
    let mut eng = HookEngine::new();
    register_hook(&mut eng, DEV, INODE, "getpid", 0x2333).unwrap();
    register_hook(&mut eng, DEV, INODE, "getpid", 0x4444).unwrap();
    assert_eq!(eng.intents.len(), 1);
    assert_eq!(eng.intents[0].callback, 0x4444);
    register_hook(&mut eng, DEV, INODE, "other", 0x5555).unwrap();
    assert_eq!(eng.intents.len(), 2);
}

#[test]
fn commit_fails_intent_for_absent_library() {
    let mut eng = HookEngine::new();
    let mut space = library_space(0);
    register_hook(&mut eng, DEV, 999, "getpid", 0x2333).unwrap();
    assert!(commit_hook(&mut eng, &mut space).is_err());
    assert_eq!(eng.intents[0].state, HookState::Failed);
    assert_eq!(eng.intents[0].backup, None);
}

#[test]
fn invalidate_preserves_hook_effect() {
    // Invalidating reverts the backing bytes the hooks did not touch and
    // drops the records, but every hooked slot keeps its patched value.
    let mut eng = HookEngine::new();
    let mut space = library_space(0);
    space.regions[0].bytes[0x700] = 0x5A;
    register_hook(&mut eng, DEV, INODE, "getpid", 0x2333).unwrap();
    assert!(commit_hook(&mut eng, &mut space).is_ok());
    assert_eq!(eng.records.len(), 1);
    // Something else dirties a non-hooked byte of the copied page.
    space.regions[0].bytes[0x700] = 0x77;
    assert!(invalidate_backup(&mut eng, &mut space).is_ok());
    assert!(eng.records.is_empty());
    let bytes = &space.regions[0].bytes;
    assert_eq!(r64(bytes, 0x800), 0x2333); // hook still in effect
    assert_eq!(r64(bytes, 0x810), 0x2333);
    assert_eq!(bytes[0x700], 0x5A); // restored from the pre-patch copy
}

#[test]
fn invalidate_fails_when_page_unmapped() {
    let mut eng = HookEngine::new();
    let mut space = library_space(0);
    register_hook(&mut eng, DEV, INODE, "getpid", 0x2333).unwrap();
    assert!(commit_hook(&mut eng, &mut space).is_ok());
    // The region vanishes before the backups are invalidated.
    space.regions.remove(0);
    assert!(invalidate_backup(&mut eng, &mut space).is_err());
    // The bookkeeping is discarded regardless.
    assert!(eng.records.is_empty());
}

#[test]
fn invalidate_with_no_records_succeeds() {
    let mut eng = HookEngine::new();
    let mut space = library_space(0);
    assert!(invalidate_backup(&mut eng, &mut space).is_ok());
}

#[test]
fn records_stack_hooks_on_one_page() {
    let mut eng = HookEngine::new();
    let mut space = library_space(0);
    register_hook(&mut eng, DEV, INODE, "getpid", 0x2333).unwrap();
    register_hook(&mut eng, DEV, INODE, "other", 0x4444).unwrap();
    assert!(commit_hook(&mut eng, &mut space).is_ok());
    // All three patched slots lie on one page: one record, three slots.
    assert_eq!(eng.records.len(), 1);
    assert_eq!(eng.records[0].page, BASE);
    assert_eq!(eng.records[0].slots.len(), 3);
    assert_eq!(r64(&space.regions[0].bytes, 0x808), 0x4444);
}
