use lsplt_rs::maps::parse_line;
use lsplt_rs::MapInfo;

#[test]
fn parse_line_full_entry() {
    let mi = parse_line("7f1200000000-7f1200004000 r-xp 00002000 08:01 123456 /usr/lib/libc.so.6")
        .expect("well-formed line");
    assert_eq!(mi.start, 0x7f1200000000);
    assert_eq!(mi.end, 0x7f1200004000);
    assert_eq!(mi.perms, 5); // read + exec
    assert!(mi.is_private);
    assert_eq!(mi.offset, 0x2000);
    // makedev(8, 1)
    assert_eq!(mi.dev, (8u64 << 8) | 1);
    assert_eq!(mi.inode, 123456);
    assert_eq!(mi.pathname.as_deref(), Some("/usr/lib/libc.so.6"));
}

#[test]
fn parse_line_anonymous_region() {
    let mi = parse_line("1000-2000 rw-s 00000000 00:00 0").expect("well-formed line");
    assert_eq!(mi.start, 0x1000);
    assert_eq!(mi.end, 0x2000);
    assert_eq!(mi.perms, 3); // read + write
    assert!(!mi.is_private);
    assert_eq!(mi.dev, 0);
    assert_eq!(mi.inode, 0);
    assert!(mi.pathname.is_none());
}

#[test]
fn parse_line_rejects_malformed() {
    assert!(parse_line("").is_none());
    assert!(parse_line("not a maps line").is_none());
    assert!(parse_line("1000-2000").is_none());
    assert!(parse_line("2000-1000 r--p 00000000 08:01 5 /x").is_none()); // start >= end
    assert!(parse_line("1000-2000 q--p 00000000 08:01 5 /x").is_none()); // bad perm char
    assert!(parse_line("1000-2000 r--p 00000000 0801 5 /x").is_none()); // missing colon
}

#[test]
fn parse_maps_skips_bad_lines_keeps_order() {
    let text = "1000-2000 r--p 00000000 08:01 11 /a\nbroken line\n3000-4000 rw-p 00000000 08:01 22 /b\n";
    let v = MapInfo::parse_maps(text);
    assert_eq!(v.len(), 2);
    assert_eq!(v[0].inode, 11);
    assert_eq!(v[1].inode, 22);
    assert_eq!(v[0].pathname.as_deref(), Some("/a"));
    assert_eq!(v[1].pathname.as_deref(), Some("/b"));
}

#[test]
fn parse_maps_empty_text() {
    assert_eq!(MapInfo::parse_maps("").len(), 0);
}

#[test]
fn parse_maps_round_trip_finds_library() {
    // A table holding a known library's line yields an entry with that
    // library's device and inode.
    let text = "0-1000 ---p 00000000 00:00 0\nffff0000-ffff1000 r-xp 00000000 08:02 777 /lib/libm.so\n";
    let v = MapInfo::parse_maps(text);
    let hit = v
        .iter()
        .find(|m| m.pathname.as_deref() == Some("/lib/libm.so"))
        .expect("library line parsed");
    assert_eq!(hit.dev, (8u64 << 8) | 2);
    assert_eq!(hit.inode, 777);
}

#[test]
fn scan_self_reads_own_table() {
    let v = MapInfo::scan_self().expect("own mapping table is readable");
    assert!(!v.is_empty());
    // The running program itself is file-backed somewhere.
    assert!(v.iter().any(|m| m.inode != 0));
    for m in &v {
        assert!(m.start < m.end);
    }
}

#[test]
fn scan_rejects_missing_process() {
    assert!(MapInfo::scan("no_such_pid").is_err());
}
