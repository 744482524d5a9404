//! ELF linkage resolver: given the mapped image of a 64-bit little-endian
//! shared object, walks the program headers, the dynamic segment, the dynamic
//! symbol table and the relocation tables to find every GOT slot that refers
//! to a named symbol.
//!
//! All offsets are image-relative; the caller adds the mapping's base
//! address.  Relocation entries are read in the explicit-addend form that
//! 64-bit objects use.

use crate::bytes::{le16, le32, le64, read_le16, read_le32, read_le64};
use vstd::prelude::*;

verus! {

/// Why a resolution failed.
#[derive(Debug, Clone, Copy, PartialEq, Eq, Structural)]
pub enum ResolveError {
    /// The image is not a recognized shared object for a supported
    /// architecture, or its linkage structures run past the image's end.
    Format,
    /// The image is well-formed but no GOT relocation refers to the symbol.
    SymbolNotFound,
}

/// Machines whose GOT relocations the resolver understands.
pub open spec fn machine_known(m: nat) -> bool {
    m == 62 || m == 183  // x86-64, AArch64
}

/// Whether relocation type `t` fills a GOT slot on machine `m`.
pub open spec fn got_reloc_type(m: nat, t: nat) -> bool {
    if m == 62 {
        t == 6 || t == 7  // GLOB_DAT, JUMP_SLOT
    } else {
        t == 1025 || t == 1026  // GLOB_DAT, JUMP_SLOT
    }
}

/// A valid header of a 64-bit little-endian shared object, with the
/// program-header entry size this resolver walks by.
pub open spec fn header_ok(b: Seq<u8>) -> bool {
    &&& b.len() >= 64
    &&& b[0] == 0x7f
    &&& b[1] == 0x45
    &&& b[2] == 0x4c
    &&& b[3] == 0x46
    &&& b[4] == 2  // 64-bit
    &&& b[5] == 1  // little-endian
    &&& le16(b, 16) == 3  // shared object
    &&& machine_known(le16(b, 18))
    &&& le16(b, 54) == 56  // program-header entry size
}

pub open spec fn ph_off(b: Seq<u8>) -> nat {
    le64(b, 32)
}

pub open spec fn ph_num(b: Seq<u8>) -> nat {
    le16(b, 56)
}

/// The program-header table lies inside the image.
pub open spec fn ph_table_ok(b: Seq<u8>) -> bool {
    ph_off(b) + 56 * ph_num(b) <= b.len()
}

pub open spec fn ph_type(b: Seq<u8>, k: int) -> nat {
    le32(b, ph_off(b) + 56 * k)
}

/// The first program header at index `k` or later whose type is dynamic.
pub open spec fn dyn_index_from(b: Seq<u8>, k: int) -> Option<int>
    decreases ph_num(b) - k,
{
    if k < 0 || k >= ph_num(b) {
        None
    } else if ph_type(b, k) == 2 {
        Some(k)
    } else {
        dyn_index_from(b, k + 1)
    }
}

pub open spec fn dyn_off(b: Seq<u8>) -> nat {
    le64(b, ph_off(b) + 56 * dyn_index_from(b, 0).unwrap() + 16)  // p_vaddr
}

pub open spec fn dyn_sz(b: Seq<u8>) -> nat {
    le64(b, ph_off(b) + 56 * dyn_index_from(b, 0).unwrap() + 40)  // p_memsz
}

/// A dynamic segment exists and lies inside the image.
pub open spec fn dyn_ok(b: Seq<u8>) -> bool {
    &&& dyn_index_from(b, 0) is Some
    &&& dyn_off(b) + dyn_sz(b) <= b.len()
}

pub open spec fn dyn_count(b: Seq<u8>) -> nat {
    dyn_sz(b) / 16
}

/// The value of the first dynamic entry tagged `tag` among the `n` entries
/// at `off`, stopping at a null tag as the dynamic linker does.
pub open spec fn dyn_lookup(b: Seq<u8>, off: int, n: int, tag: nat) -> Option<nat>
    decreases n,
{
    if n <= 0 {
        None
    } else if le64(b, off) == 0 {
        None
    } else if le64(b, off) == tag {
        Some(le64(b, off + 8))
    } else {
        dyn_lookup(b, off + 16, n - 1, tag)
    }
}

pub open spec fn symtab(b: Seq<u8>) -> Option<nat> {
    dyn_lookup(b, dyn_off(b) as int, dyn_count(b) as int, 6)
}

pub open spec fn strtab(b: Seq<u8>) -> Option<nat> {
    dyn_lookup(b, dyn_off(b) as int, dyn_count(b) as int, 5)
}

pub open spec fn jmprel(b: Seq<u8>) -> Option<nat> {
    dyn_lookup(b, dyn_off(b) as int, dyn_count(b) as int, 23)
}

pub open spec fn pltrelsz(b: Seq<u8>) -> Option<nat> {
    dyn_lookup(b, dyn_off(b) as int, dyn_count(b) as int, 2)
}

pub open spec fn rela(b: Seq<u8>) -> Option<nat> {
    dyn_lookup(b, dyn_off(b) as int, dyn_count(b) as int, 7)
}

pub open spec fn relasz(b: Seq<u8>) -> Option<nat> {
    dyn_lookup(b, dyn_off(b) as int, dyn_count(b) as int, 8)
}

/// A relocation table named by `tab` with its size named by `sz` is either
/// absent altogether or lies inside the image.
pub open spec fn rel_pair_ok(b: Seq<u8>, tab: Option<nat>, sz: Option<nat>) -> bool {
    match (tab, sz) {
        (Some(t), Some(s)) => t + s <= b.len(),
        (None, None) => true,
        _ => false,
    }
}

/// The linkage structures the resolver walks are all present and in bounds.
pub open spec fn tables_ok(b: Seq<u8>) -> bool {
    &&& header_ok(b)
    &&& ph_table_ok(b)
    &&& dyn_ok(b)
    &&& symtab(b) is Some
    &&& symtab(b).unwrap() <= b.len()
    &&& strtab(b) is Some
    &&& strtab(b).unwrap() <= b.len()
    &&& rel_pair_ok(b, jmprel(b), pltrelsz(b))
    &&& rel_pair_ok(b, rela(b), relasz(b))
}

/// Fields of the relocation entry at index `i` of the table at `t`.
pub open spec fn rel_off(b: Seq<u8>, t: int, i: int) -> nat {
    le64(b, t + 24 * i)
}

pub open spec fn rel_sym(b: Seq<u8>, t: int, i: int) -> nat {
    le64(b, t + 24 * i + 8) / 0x1_0000_0000
}

pub open spec fn rel_typ(b: Seq<u8>, t: int, i: int) -> nat {
    le64(b, t + 24 * i + 8) % 0x1_0000_0000
}

/// The name offset of dynamic symbol `s`.
pub open spec fn sym_name(b: Seq<u8>, st: int, s: int) -> nat {
    le32(b, st + 24 * s)
}

/// The `name.len() + 1` bytes at `p` spell `name` followed by a terminator.
pub open spec fn name_at(b: Seq<u8>, p: int, name: Seq<u8>) -> bool {
    &&& (forall|j: int| 0 <= j < name.len() ==> b[p + j] == name[j])
    &&& b[p + name.len()] == 0
}

/// A GOT relocation entry whose symbol or name bytes cannot be read within
/// the image, or whose slot offset no address can hold: resolution must not
/// silently pass over it.
pub open spec fn entry_bad(b: Seq<u8>, m: nat, st: int, sv: int, t: int, i: int, nlen: int) -> bool {
    &&& got_reloc_type(m, rel_typ(b, t, i))
    &&& {
        ||| st + 24 * rel_sym(b, t, i) + 24 > b.len()
        ||| sv + sym_name(b, st, rel_sym(b, t, i) as int) + nlen + 1 > b.len()
        ||| rel_off(b, t, i) > usize::MAX
    }
}

/// A readable GOT relocation entry whose symbol's name is `name`.
pub open spec fn entry_match(
    b: Seq<u8>,
    m: nat,
    st: int,
    sv: int,
    t: int,
    i: int,
    name: Seq<u8>,
) -> bool {
    &&& got_reloc_type(m, rel_typ(b, t, i))
    &&& !entry_bad(b, m, st, sv, t, i, name.len() as int)
    &&& name_at(b, sv + sym_name(b, st, rel_sym(b, t, i) as int), name)
}

/// Some entry among the first `n` of the table cannot be classified.
pub open spec fn table_bad(b: Seq<u8>, m: nat, st: int, sv: int, t: int, n: int, nlen: int) -> bool {
    exists|i: int| 0 <= i < n && entry_bad(b, m, st, sv, t, i, nlen)
}

/// The slot offsets of the matching entries among the first `n` of the
/// table, in table order.
pub open spec fn table_matches(
    b: Seq<u8>,
    m: nat,
    st: int,
    sv: int,
    t: int,
    n: int,
    name: Seq<u8>,
) -> Seq<usize>
    decreases n,
{
    if n <= 0 {
        Seq::empty()
    } else {
        let pre = table_matches(b, m, st, sv, t, n - 1, name);
        if entry_match(b, m, st, sv, t, n - 1, name) {
            pre.push(rel_off(b, t, n - 1) as usize)
        } else {
            pre
        }
    }
}

/// Offset and entry count of the table named by `tab`/`sz`, absent tables
/// contributing no entries.
pub open spec fn table_base(tab: Option<nat>) -> int {
    match tab {
        Some(t) => t as int,
        None => 0,
    }
}

pub open spec fn table_count(sz: Option<nat>) -> int {
    match sz {
        Some(s) => s as int / 24,
        None => 0,
    }
}

/// No entry of either relocation table is unreadable.
pub open spec fn entries_ok(b: Seq<u8>, name: Seq<u8>) -> bool {
    let m = le16(b, 18);
    let st = symtab(b).unwrap() as int;
    let sv = strtab(b).unwrap() as int;
    &&& !table_bad(b, m, st, sv, table_base(jmprel(b)), table_count(pltrelsz(b)), name.len() as int)
    &&& !table_bad(b, m, st, sv, table_base(rela(b)), table_count(relasz(b)), name.len() as int)
}

/// Every GOT slot offset for `name`: the matches of the PLT relocation
/// table, then those of the other relocation table.
pub open spec fn resolved_slots(b: Seq<u8>, name: Seq<u8>) -> Seq<usize> {
    let m = le16(b, 18);
    let st = symtab(b).unwrap() as int;
    let sv = strtab(b).unwrap() as int;
    table_matches(b, m, st, sv, table_base(jmprel(b)), table_count(pltrelsz(b)), name)
        + table_matches(b, m, st, sv, table_base(rela(b)), table_count(relasz(b)), name)
}

/// Resolution succeeds exactly when the image is well-formed, every GOT
/// entry could be read, and at least one refers to `name`.
pub open spec fn resolve_ok(b: Seq<u8>, name: Seq<u8>) -> bool {
    &&& tables_ok(b)
    &&& entries_ok(b, name)
    &&& resolved_slots(b, name).len() > 0
}

fn is_got_reloc(m: u16, t: u64) -> (r: bool)
    requires
        machine_known(m as nat),
    ensures
        r == got_reloc_type(m as nat, t as nat),
{
    if m == 62 {
        t == 6 || t == 7
    } else {
        t == 1025 || t == 1026
    }
}

/// Whether the bytes at `p` spell `name` followed by a terminator.
fn match_name(img: &[u8], p: usize, name: &[u8]) -> (r: bool)
    requires
        p + name@.len() + 1 <= img@.len(),
    ensures
        r == name_at(img@, p as int, name@),
{
    let len = img.len();
    let n = name.len();
    let mut j: usize = 0;
    while j < n
        invariant
            n == name@.len(),
            p + n + 1 <= img@.len(),
            img@.len() == len,
            0 <= j <= n,
            forall|jj: int| 0 <= jj < j ==> img@[p + jj] == name@[jj],
        decreases n - j,
    {
        if img[p + j] != name[j] {
            return false;
        }
        j += 1;
    }
    img[p + n] == 0
}

/// The value of the first dynamic entry tagged `tag`, by a walk that stops
/// at a null tag.
fn dyn_lookup_exec(img: &[u8], off: u64, n: u64, tag: u64) -> (r: Option<u64>)
    requires
        off + 16 * n <= img@.len(),
    ensures
        match r {
            Some(v) => dyn_lookup(img@, off as int, n as int, tag as nat) == Some(v as nat),
            None => dyn_lookup(img@, off as int, n as int, tag as nat) is None,
        },
{
    let len = img.len();
    let mut i: u64 = 0;
    while i < n
        invariant
            off + 16 * n <= img@.len(),
            img@.len() == len,
            0 <= i <= n,
            dyn_lookup(img@, off as int, n as int, tag as nat) == dyn_lookup(
                img@,
                off as int + 16 * i,
                n as int - i,
                tag as nat,
            ),
        decreases n - i,
    {
        let t = read_le64(img, (off + 16 * i) as usize);
        if t == 0 {
            return None;
        }
        if t == tag {
            return Some(read_le64(img, (off + 16 * i + 8) as usize));
        }
        i += 1;
    }
    None
}

/// A found dynamic program header lies within the table and has the
/// dynamic type.
proof fn lemma_dyn_index_bounds(b: Seq<u8>, k: int)
    requires
        dyn_index_from(b, k) is Some,
    ensures
        k <= dyn_index_from(b, k).unwrap() < ph_num(b),
        ph_type(b, dyn_index_from(b, k).unwrap()) == 2,
    decreases ph_num(b) - k,
{
    if 0 <= k < ph_num(b) && ph_type(b, k) != 2 {
        lemma_dyn_index_bounds(b, k + 1);
    }
}

/// The index of the first program header describing the dynamic segment.
fn find_dyn_ph(img: &[u8]) -> (r: Option<u64>)
    requires
        header_ok(img@),
        ph_table_ok(img@),
    ensures
        match r {
            Some(k) => dyn_index_from(img@, 0) == Some(k as int),
            None => dyn_index_from(img@, 0) is None,
        },
{
    let len = img.len();
    let phoff = read_le64(img, 32);
    let phnum = read_le16(img, 56) as u64;
    let mut k: u64 = 0;
    while k < phnum
        invariant
            header_ok(img@),
            ph_table_ok(img@),
            phoff == ph_off(img@),
            phnum == ph_num(img@),
            img@.len() == len,
            0 <= k <= phnum,
            dyn_index_from(img@, 0) == dyn_index_from(img@, k as int),
        decreases phnum - k,
    {
        if read_le32(img, (phoff + 56 * k) as usize) == 2 {
            return Some(k);
        }
        k += 1;
    }
    None
}

/// Scans one relocation table, appending the slot offset of every entry
/// whose symbol's name is `name`; reports failure on the first entry whose
/// symbol or name bytes lie outside the image.
#[verifier::rlimit(60)]
fn scan_table(
    img: &[u8],
    m: u16,
    st: u64,
    sv: u64,
    t: u64,
    n: u64,
    name: &[u8],
    out: &mut Vec<usize>,
) -> (ok: bool)
    requires
        machine_known(m as nat),
        st <= img@.len(),
        sv <= img@.len(),
        t + 24 * n <= img@.len(),
    ensures
        ok ==> !table_bad(
            img@,
            m as nat,
            st as int,
            sv as int,
            t as int,
            n as int,
            name@.len() as int,
        ) && final(out)@ == old(out)@ + table_matches(
            img@,
            m as nat,
            st as int,
            sv as int,
            t as int,
            n as int,
            name@,
        ),
        !ok ==> table_bad(
            img@,
            m as nat,
            st as int,
            sv as int,
            t as int,
            n as int,
            name@.len() as int,
        ),
{
    let len = img.len();
    let nlen = name.len();
    let mut i: u64 = 0;
    while i < n
        invariant
            machine_known(m as nat),
            st <= img@.len(),
            sv <= img@.len(),
            t + 24 * n <= img@.len(),
            img@.len() == len,
            name@.len() == nlen,
            0 <= i <= n,
            forall|ii: int|
                0 <= ii < i ==> !entry_bad(
                    img@,
                    m as nat,
                    st as int,
                    sv as int,
                    t as int,
                    ii,
                    name@.len() as int,
                ),
            out@ == old(out)@ + table_matches(
                img@,
                m as nat,
                st as int,
                sv as int,
                t as int,
                i as int,
                name@,
            ),
        decreases n - i,
    {
        let info = read_le64(img, (t + 24 * i + 8) as usize);
        let typ = info % 0x1_0000_0000;
        if is_got_reloc(m, typ) {
            let sym = info / 0x1_0000_0000;
            let roff = read_le64(img, (t + 24 * i) as usize);
            if (st as u128) + 24 * (sym as u128) + 24 > (len as u128) {
                proof {
                    assert(entry_bad(
                        img@,
                        m as nat,
                        st as int,
                        sv as int,
                        t as int,
                        i as int,
                        name@.len() as int,
                    ));
                }
                return false;
            }
            let noff = read_le32(img, (st + 24 * sym) as usize) as u64;
            if (sv as u128) + (noff as u128) + (nlen as u128) + 1 > (len as u128) {
                proof {
                    assert(entry_bad(
                        img@,
                        m as nat,
                        st as int,
                        sv as int,
                        t as int,
                        i as int,
                        name@.len() as int,
                    ));
                }
                return false;
            }
            if (roff as u128) > (usize::MAX as u128) {
                proof {
                    assert(entry_bad(
                        img@,
                        m as nat,
                        st as int,
                        sv as int,
                        t as int,
                        i as int,
                        name@.len() as int,
                    ));
                }
                return false;
            }
            if match_name(img, (sv + noff) as usize, name) {
                out.push(roff as usize);
            }
        }
        i += 1;
    }
    true
}

/// Resolves the image-relative addresses of every GOT slot that refers to
/// `name` in the mapped shared object `img`, walking the program headers to
/// the dynamic segment and the dynamic segment to the symbol, string and
/// relocation tables.
pub fn resolve_got_slots(img: &[u8], name: &[u8]) -> (r: Result<Vec<usize>, ResolveError>)
    ensures
        match r {
            Ok(v) => resolve_ok(img@, name@) && v@ == resolved_slots(img@, name@) && v@.len() > 0,
            Err(ResolveError::SymbolNotFound) => tables_ok(img@) && entries_ok(img@, name@)
                && resolved_slots(img@, name@).len() == 0,
            Err(ResolveError::Format) => !(tables_ok(img@) && entries_ok(img@, name@)),
        },
{
    let len = img.len();
    if len < 64 {
        return Err(ResolveError::Format);
    }
    if img[0] != 0x7f || img[1] != 0x45 || img[2] != 0x4c || img[3] != 0x46 {
        return Err(ResolveError::Format);
    }
    if img[4] != 2 || img[5] != 1 {
        return Err(ResolveError::Format);
    }
    if read_le16(img, 16) != 3 {
        return Err(ResolveError::Format);
    }
    let m = read_le16(img, 18);
    if !(m == 62 || m == 183) {
        return Err(ResolveError::Format);
    }
    if read_le16(img, 54) != 56 {
        return Err(ResolveError::Format);
    }
    let phoff = read_le64(img, 32);
    let phnum = read_le16(img, 56) as u64;
    if (phoff as u128) + 56 * (phnum as u128) > (len as u128) {
        return Err(ResolveError::Format);
    }
    let kd = match find_dyn_ph(img) {
        Some(kd) => kd,
        None => {
            return Err(ResolveError::Format);
        },
    };
    proof {
        lemma_dyn_index_bounds(img@, 0);
    }
    let dynoff = read_le64(img, (phoff + 56 * kd + 16) as usize);
    let dynsz = read_le64(img, (phoff + 56 * kd + 40) as usize);
    if (dynoff as u128) + (dynsz as u128) > (len as u128) {
        return Err(ResolveError::Format);
    }
    let ndyn = dynsz / 16;
    let st = match dyn_lookup_exec(img, dynoff, ndyn, 6) {
        Some(v) => v,
        None => {
            return Err(ResolveError::Format);
        },
    };
    let sv = match dyn_lookup_exec(img, dynoff, ndyn, 5) {
        Some(v) => v,
        None => {
            return Err(ResolveError::Format);
        },
    };
    if st > (len as u64) || sv > (len as u64) {
        return Err(ResolveError::Format);
    }
    let jr = dyn_lookup_exec(img, dynoff, ndyn, 23);
    let js = dyn_lookup_exec(img, dynoff, ndyn, 2);
    let (t1, n1): (u64, u64) = match (jr, js) {
        (Some(t), Some(s)) => {
            if (t as u128) + (s as u128) > (len as u128) {
                return Err(ResolveError::Format);
            }
            (t, s / 24)
        },
        (None, None) => (0, 0),
        _ => {
            return Err(ResolveError::Format);
        },
    };
    let ra = dyn_lookup_exec(img, dynoff, ndyn, 7);
    let rs = dyn_lookup_exec(img, dynoff, ndyn, 8);
    let (t2, n2): (u64, u64) = match (ra, rs) {
        (Some(t), Some(s)) => {
            if (t as u128) + (s as u128) > (len as u128) {
                return Err(ResolveError::Format);
            }
            (t, s / 24)
        },
        (None, None) => (0, 0),
        _ => {
            return Err(ResolveError::Format);
        },
    };
    let mut out: Vec<usize> = Vec::new();
    if !scan_table(img, m, st, sv, t1, n1, name, &mut out) {
        return Err(ResolveError::Format);
    }
    if !scan_table(img, m, st, sv, t2, n2, name, &mut out) {
        return Err(ResolveError::Format);
    }
    if out.len() == 0 {
        Err(ResolveError::SymbolNotFound)
    } else {
        Ok(out)
    }
}

} // verus!
