//! Hook registry, hook committer and backup invalidator.
//!
//! The registry holds hook intents keyed by library identity, offset window
//! and symbol.  Committing drives the ELF linkage resolver over the target
//! region's image, copies bookkeeping for every page it is about to touch,
//! and patches the resolved GOT slots.  Invalidating restores the
//! non-patched bytes of every touched page from the pre-patch copies and
//! discards the bookkeeping, leaving the patches in effect.

use crate::bytes::le64;
use crate::bytes::read_le64;
use crate::elf::{resolve_got_slots, resolve_ok, resolved_slots};
use crate::space::{
    patch_bytes, patch_region_bytes, lemma_patch_bytes_len, AddressSpace, Region, RegionModel,
    region_wf, space_wf, target_index, target_from, find_target,
};
use crate::PAGE_SIZE;
use vstd::prelude::*;
use vstd::slice::slice_subrange;
use vstd::slice::slice_to_vec;
use vstd::string::StrSliceExecFns;
use vstd::string::StringSliceAdditionalSpecFns;

verus! {

/// Where a hook intent stands in its life: registered but not applied,
/// applied, or given up during a commit.
#[derive(Debug, Clone, Copy, PartialEq, Eq, Structural)]
pub enum HookState {
    Pending,
    Committed,
    Failed,
}

/// Registration could not accept the arguments.
#[derive(Debug, Clone, Copy, PartialEq, Eq, Structural)]
pub enum RegisterError {
    /// The offset of an offset window is not page-aligned.
    Alignment,
}

/// One or more intents failed during a commit; each intent's state and
/// backup say which.
#[derive(Debug, Clone, Copy, PartialEq, Eq, Structural)]
pub struct CommitError;

/// One or more backup records could not be restored onto a mapped region.
#[derive(Debug, Clone, Copy, PartialEq, Eq, Structural)]
pub struct InvalidateError;

/// A caller's request to intercept a symbol of one library.
pub struct HookIntent {
    /// Device of the target library's backing file.
    pub dev: u64,
    /// Inode of the target library's backing file.
    pub inode: u64,
    /// Offset and upper-bound size of the library inside its file, when it
    /// is embedded in a container file rather than extracted.
    pub window: Option<(usize, usize)>,
    /// The symbol whose GOT slots are to be redirected.
    pub symbol: Vec<u8>,
    /// Address of the replacement function.
    pub callback: u64,
    /// The pre-patch GOT value once committed; absent before commit and
    /// for failed intents.
    pub backup: Option<u64>,
    /// Where the intent stands.
    pub state: HookState,
}

/// The mathematical value of a hook intent.
pub ghost struct IntentModel {
    pub dev: u64,
    pub inode: u64,
    pub window: Option<(usize, usize)>,
    pub symbol: Seq<u8>,
    pub callback: u64,
    pub backup: Option<u64>,
    pub state: HookState,
}

impl View for HookIntent {
    type V = IntentModel;

    open spec fn view(&self) -> IntentModel {
        IntentModel {
            dev: self.dev,
            inode: self.inode,
            window: self.window,
            symbol: self.symbol@,
            callback: self.callback,
            backup: self.backup,
            state: self.state,
        }
    }
}

/// Bookkeeping for one patched page: the page's pre-patch bytes, the slots
/// patched on it, and the original mapping's parameters.
pub struct HookRecord {
    /// Address of the page.
    pub page: usize,
    /// The page's bytes before the first patch touched it.
    pub orig: Vec<u8>,
    /// Addresses of the GOT slots patched on this page.
    pub slots: Vec<usize>,
    /// Device of the original file-backed mapping.
    pub dev: u64,
    /// Inode of the original file-backed mapping.
    pub inode: u64,
    /// File offset of the region the page belongs to.
    pub offset: usize,
    /// Protection flags of the original mapping.
    pub perms: u8,
}

/// The mathematical value of a hook record.
pub ghost struct RecordModel {
    pub page: int,
    pub orig: Seq<u8>,
    pub slots: Seq<usize>,
    pub dev: u64,
    pub inode: u64,
    pub offset: int,
    pub perms: u8,
}

impl View for HookRecord {
    type V = RecordModel;

    open spec fn view(&self) -> RecordModel {
        RecordModel {
            page: self.page as int,
            orig: self.orig@,
            slots: self.slots@,
            dev: self.dev,
            inode: self.inode,
            offset: self.offset as int,
            perms: self.perms,
        }
    }
}

/// The process-wide hook state: every intent and every page record.
///
/// Every operation takes the engine exclusively, so a process that hooks
/// from several threads keeps the one engine behind a lock and the
/// operations serialize; no operation can be interrupted mid-mutation.
pub struct HookEngine {
    pub intents: Vec<HookIntent>,
    pub records: Vec<HookRecord>,
}

/// The mathematical value of the engine.
pub ghost struct EngineModel {
    pub intents: Seq<IntentModel>,
    pub records: Seq<RecordModel>,
}

impl View for HookEngine {
    type V = EngineModel;

    open spec fn view(&self) -> EngineModel {
        EngineModel {
            intents: self.intents@.map_values(|i: HookIntent| i@),
            records: self.records@.map_values(|r: HookRecord| r@),
        }
    }
}

impl HookEngine {
    /// An engine with no intents and no records.
    pub fn new() -> (r: HookEngine)
        ensures
            r@.intents == Seq::<IntentModel>::empty(),
            r@.records == Seq::<RecordModel>::empty(),
    {
        let r = HookEngine { intents: Vec::new(), records: Vec::new() };
        proof {
            assert(r@.intents =~= Seq::<IntentModel>::empty());
            assert(r@.records =~= Seq::<RecordModel>::empty());
        }
        r
    }
}

/// Two intents ask about the same hook target: same library, same offset
/// window, same symbol.
pub open spec fn intent_key_eq(a: IntentModel, b: IntentModel) -> bool {
    a.dev == b.dev && a.inode == b.inode && a.window == b.window && a.symbol == b.symbol
}

/// The first intent at index `k` or later with the same key as `it`.
pub open spec fn key_from(s: Seq<IntentModel>, it: IntentModel, k: int) -> Option<int>
    decreases s.len() - k,
{
    if k < 0 || k >= s.len() {
        None
    } else if intent_key_eq(s[k], it) {
        Some(k)
    } else {
        key_from(s, it, k + 1)
    }
}

/// Registration replaces the intent with the same key, or appends a new
/// one: one intent per key at any time.
pub open spec fn register_model(s: Seq<IntentModel>, it: IntentModel) -> Seq<IntentModel> {
    match key_from(s, it, 0) {
        Some(j) => s.update(j, it),
        None => s.push(it),
    }
}

/// A fresh, not yet committed intent.
pub open spec fn pending_intent(
    dev: u64,
    inode: u64,
    window: Option<(usize, usize)>,
    symbol: Seq<u8>,
    callback: u64,
) -> IntentModel {
    IntentModel { dev, inode, window, symbol, callback, backup: None, state: HookState::Pending }
}

fn bytes_eq(a: &Vec<u8>, b: &Vec<u8>) -> (r: bool)
    ensures
        r == (a@ == b@),
{
    let n = a.len();
    if n != b.len() {
        assert(a@ != b@);
        return false;
    }
    let mut i: usize = 0;
    while i < n
        invariant
            n == a@.len() == b@.len(),
            0 <= i <= n,
            forall|j: int| 0 <= j < i ==> a@[j] == b@[j],
        decreases n - i,
    {
        if a[i] != b[i] {
            return false;
        }
        i += 1;
    }
    proof {
        assert(a@ =~= b@);
    }
    true
}

fn window_eq(a: Option<(usize, usize)>, b: Option<(usize, usize)>) -> (r: bool)
    ensures
        r == (a == b),
{
    match (a, b) {
        (Some((o1, s1)), Some((o2, s2))) => o1 == o2 && s1 == s2,
        (None, None) => true,
        _ => false,
    }
}

/// Inserts or replaces the intent with `it`'s key.
fn register_intent(eng: &mut HookEngine, it: HookIntent)
    ensures
        final(eng)@.intents == register_model(old(eng)@.intents, it@),
        final(eng)@.records == old(eng)@.records,
{
    let n = eng.intents.len();
    let mut i: usize = 0;
    while i < n
        invariant
            n == eng.intents@.len(),
            0 <= i <= n,
            eng@ == old(eng)@,
            key_from(eng@.intents, it@, 0) == key_from(eng@.intents, it@, i as int),
        decreases n - i,
    {
        let cur = &eng.intents[i];
        let same = cur.dev == it.dev && cur.inode == it.inode && window_eq(cur.window, it.window)
            && bytes_eq(&cur.symbol, &it.symbol);
        if same {
            let ghost before = eng@.intents;
            eng.intents.set(i, it);
            proof {
                assert(eng@.intents =~= before.update(i as int, it@));
            }
            return ;
        }
        i += 1;
    }
    let ghost before = eng@.intents;
    eng.intents.push(it);
    proof {
        assert(eng@.intents =~= before.push(it@));
    }
}

/// Registers a hook: redirect `symbol` of the library with identity
/// `dev`/`inode` to `callback`.  The intent with the same key, if any, is
/// replaced, so registering the backup obtained from an earlier commit
/// un-hooks.  Nothing is patched until [`commit_hook`].
pub fn register_hook(
    eng: &mut HookEngine,
    dev: u64,
    inode: u64,
    symbol: &str,
    callback: u64,
) -> (r: Result<(), RegisterError>)
    ensures
        r is Ok,
        final(eng)@.intents == register_model(
            old(eng)@.intents,
            pending_intent(dev, inode, None, symbol.spec_bytes(), callback),
        ),
        final(eng)@.records == old(eng)@.records,
{
    let sym = symbol.as_bytes_vec();
    register_intent(
        eng,
        HookIntent {
            dev,
            inode,
            window: None,
            symbol: sym,
            callback,
            backup: None,
            state: HookState::Pending,
        },
    );
    Ok(())
}

/// Registers a hook for a library embedded at `offset` (of at most `size`
/// bytes) inside its backing file.  The offset must be page-aligned; a
/// misaligned offset is rejected at once and no intent is created.
pub fn register_hook_with_offset(
    eng: &mut HookEngine,
    dev: u64,
    inode: u64,
    offset: usize,
    size: usize,
    symbol: &str,
    callback: u64,
) -> (r: Result<(), RegisterError>)
    ensures
        !crate::page_aligned(offset as int) ==> r == Err::<(), RegisterError>(
            RegisterError::Alignment,
        ) && final(eng)@ == old(eng)@,
        crate::page_aligned(offset as int) ==> r is Ok && final(eng)@.intents == register_model(
            old(eng)@.intents,
            pending_intent(dev, inode, Some((offset, size)), symbol.spec_bytes(), callback),
        ) && final(eng)@.records == old(eng)@.records,
{
    if !crate::is_page_aligned(offset) {
        return Err(RegisterError::Alignment);
    }
    let sym = symbol.as_bytes_vec();
    register_intent(
        eng,
        HookIntent {
            dev,
            inode,
            window: Some((offset, size)),
            symbol: sym,
            callback,
            backup: None,
            state: HookState::Pending,
        },
    );
    Ok(())
}

/// The file offset at which the target image must be mapped: the window's
/// offset, or zero for a whole file.
pub open spec fn intent_window_off(it: IntentModel) -> int {
    match it.window {
        Some(w) => w.0 as int,
        None => 0,
    }
}

/// The image the resolver sees: the region's bytes, truncated to the
/// window's upper-bound size when one is given.
pub open spec fn intent_image(r: RegionModel, it: IntentModel) -> Seq<u8> {
    match it.window {
        Some(w) => if w.1 < r.bytes.len() {
            r.bytes.subrange(0, w.1 as int)
        } else {
            r.bytes
        },
        None => r.bytes,
    }
}

/// The intent after a failed commit attempt: failed, backup empty.
pub open spec fn intent_failed(it: IntentModel) -> IntentModel {
    IntentModel { backup: None, state: HookState::Failed, ..it }
}

/// The intent after a successful commit: committed, backup filled with the
/// pre-patch GOT value.
pub open spec fn intent_committed(it: IntentModel, b: u64) -> IntentModel {
    IntentModel { backup: Some(b), state: HookState::Committed, ..it }
}

/// The page holding address `a`.
pub open spec fn page_of(a: int) -> int {
    a - a % (PAGE_SIZE as int)
}

/// A resolved slot the committer will touch: within the image, and not
/// astride a page boundary.
pub open spec fn slot_usable(r: RegionModel, img_len: int, pos: int) -> bool {
    &&& pos + 8 <= img_len
    &&& (r.start + pos) % (PAGE_SIZE as int) <= PAGE_SIZE - 8
}

pub open spec fn commit_slots_ok(r: RegionModel, img_len: int, slots: Seq<usize>) -> bool {
    forall|k: int| 0 <= k < slots.len() ==> slot_usable(r, img_len, #[trigger] slots[k] as int)
}

/// The first record at index `k` or later keeping page `page`.
pub open spec fn record_from(rs: Seq<RecordModel>, page: int, k: int) -> Option<int>
    decreases rs.len() - k,
{
    if k < 0 || k >= rs.len() {
        None
    } else if rs[k].page == page {
        Some(k)
    } else {
        record_from(rs, page, k + 1)
    }
}

/// Notes one more patched slot: a record for its page is created from the
/// page's current bytes if none exists, else the existing record gains the
/// slot, so hooks on one page stack on one copy.
pub open spec fn add_record(rs: Seq<RecordModel>, r: RegionModel, pos: int) -> Seq<RecordModel> {
    let abs = r.start + pos;
    let page = page_of(abs);
    match record_from(rs, page, 0) {
        Some(j) => rs.update(j, RecordModel { slots: rs[j].slots.push(abs as usize), ..rs[j] }),
        None => rs.push(
            RecordModel {
                page,
                orig: r.bytes.subrange(page - r.start, page - r.start + PAGE_SIZE as int),
                slots: seq![abs as usize],
                dev: r.dev,
                inode: r.inode,
                offset: r.offset,
                perms: r.perms,
            },
        ),
    }
}

pub open spec fn add_records(
    rs: Seq<RecordModel>,
    r: RegionModel,
    slots: Seq<usize>,
    k: int,
) -> Seq<RecordModel>
    decreases k,
{
    if k <= 0 {
        rs
    } else {
        add_record(add_records(rs, r, slots, k - 1), r, slots[k - 1] as int)
    }
}

/// What one commit attempt does for one intent: nothing for an intent not
/// pending; otherwise the target region is found, the symbol resolved in
/// its image, page records taken from the pre-patch bytes, every resolved
/// slot patched with the callback, and the intent committed with the
/// pre-patch value of its first slot as backup.  Any failure leaves memory
/// and records alone and fails the intent with an empty backup.
#[verifier::opaque]
pub open spec fn commit_step(
    space: Seq<RegionModel>,
    records: Seq<RecordModel>,
    it: IntentModel,
) -> (Seq<RegionModel>, Seq<RecordModel>, IntentModel) {
    if it.state != HookState::Pending {
        (space, records, it)
    } else {
        match target_index(space, it.dev, it.inode, intent_window_off(it)) {
            None => (space, records, intent_failed(it)),
            Some(j) => {
                let r = space[j];
                let img = intent_image(r, it);
                if !resolve_ok(img, it.symbol) {
                    (space, records, intent_failed(it))
                } else {
                    let slots = resolved_slots(img, it.symbol);
                    if !commit_slots_ok(r, img.len() as int, slots) {
                        (space, records, intent_failed(it))
                    } else {
                        let backup = le64(r.bytes, slots[0] as int) as u64;
                        let records2 = add_records(records, r, slots, slots.len() as int);
                        let r2 = RegionModel {
                            bytes: patch_bytes(r.bytes, slots, slots.len() as int, it.callback),
                            ..r
                        };
                        (space.update(j, r2), records2, intent_committed(it, backup))
                    }
                }
            },
        }
    }
}

/// One commit call: every intent processed in registration order, each
/// step seeing the memory and records the steps before it left.
pub open spec fn commit_upto(
    space: Seq<RegionModel>,
    records: Seq<RecordModel>,
    intents: Seq<IntentModel>,
    k: int,
) -> (Seq<RegionModel>, Seq<RecordModel>, Seq<IntentModel>)
    decreases k,
{
    if k <= 0 {
        (space, records, intents)
    } else {
        let prev = commit_upto(space, records, intents, k - 1);
        let step = commit_step(prev.0, prev.1, prev.2[k - 1]);
        (step.0, step.1, prev.2.update(k - 1, step.2))
    }
}

/// A commit call succeeds as a whole exactly when every intent that was
/// pending when it started is committed when it ends.
pub open spec fn commit_ok(before: Seq<IntentModel>, after: Seq<IntentModel>) -> bool {
    forall|i: int|
        0 <= i < before.len() && (#[trigger] before[i]).state == HookState::Pending ==> i
            < after.len() && (#[trigger] after[i]).state == HookState::Committed
}

/// Page arithmetic for a usable slot: the slot's page is aligned, lies
/// wholly inside the region, and holds the whole slot.
pub proof fn lemma_page_bounds(start: int, len: int, pos: int)
    requires
        start % (PAGE_SIZE as int) == 0,
        len % (PAGE_SIZE as int) == 0,
        0 <= start,
        0 <= pos,
        pos + 8 <= len,
        (start + pos) % (PAGE_SIZE as int) <= PAGE_SIZE - 8,
    ensures
        start <= page_of(start + pos),
        page_of(start + pos) + PAGE_SIZE <= start + len,
        page_of(start + pos) % (PAGE_SIZE as int) == 0,
        page_of(start + pos) <= start + pos,
        start + pos + 8 <= page_of(start + pos) + PAGE_SIZE,
{
    let p = PAGE_SIZE as int;
    let abs = start + pos;
    vstd::arithmetic::div_mod::lemma_mod_multiples_vanish(start / p, pos, p);
    assert(p * (start / p) == start);
    assert(abs % p == pos % p);
    assert(p * (pos / p) >= 0) by (nonlinear_arith)
        requires
            p > 0,
            pos >= 0,
            pos / p >= 0,
    ;
    assert(p * (pos / p) <= pos);
    assert(p * (pos / p) + p <= len) by (nonlinear_arith)
        requires
            p > 0,
            p * (pos / p) <= pos,
            pos < len,
            len == p * (len / p),
    ;
    vstd::arithmetic::div_mod::lemma_mod_multiples_vanish(abs / p, 0, p);
    assert(p * (abs / p) == abs - abs % p);
    assert((abs - abs % p) % p == 0);
}

/// Intents at or past `k` are untouched by the first `k` commit steps.
pub proof fn lemma_commit_upto_frame(
    space: Seq<RegionModel>,
    records: Seq<RecordModel>,
    intents: Seq<IntentModel>,
    k: int,
)
    requires
        0 <= k <= intents.len(),
    ensures
        commit_upto(space, records, intents, k).2.len() == intents.len(),
        forall|j: int|
            k <= j < intents.len() ==> commit_upto(space, records, intents, k).2[j] == intents[j],
    decreases k,
{
    if k > 0 {
        lemma_commit_upto_frame(space, records, intents, k - 1);
    }
}

fn copy_intent(it: &HookIntent) -> (r: HookIntent)
    ensures
        r@ == it@,
{
    HookIntent {
        dev: it.dev,
        inode: it.inode,
        window: it.window,
        symbol: slice_to_vec(it.symbol.as_slice()),
        callback: it.callback,
        backup: it.backup,
        state: it.state,
    }
}

fn failed_intent(it: &HookIntent) -> (r: HookIntent)
    ensures
        r@ == intent_failed(it@),
{
    HookIntent {
        dev: it.dev,
        inode: it.inode,
        window: it.window,
        symbol: slice_to_vec(it.symbol.as_slice()),
        callback: it.callback,
        backup: None,
        state: HookState::Failed,
    }
}

fn committed_intent(it: &HookIntent, b: u64) -> (r: HookIntent)
    ensures
        r@ == intent_committed(it@, b),
{
    HookIntent {
        dev: it.dev,
        inode: it.inode,
        window: it.window,
        symbol: slice_to_vec(it.symbol.as_slice()),
        callback: it.callback,
        backup: Some(b),
        state: HookState::Committed,
    }
}

/// Whether every resolved slot can be patched: in the image and not
/// astride a page boundary.
fn slots_usable(rg: &Region, img_len: usize, slots: &Vec<usize>) -> (r: bool)
    requires
        region_wf(rg@),
        8 <= img_len <= rg.bytes@.len(),
    ensures
        r == commit_slots_ok(rg@, img_len as int, slots@),
{
    let n = slots.len();
    let mut i: usize = 0;
    while i < n
        invariant
            region_wf(rg@),
            8 <= img_len <= rg.bytes@.len(),
            n == slots@.len(),
            0 <= i <= n,
            forall|k: int| 0 <= k < i ==> slot_usable(rg@, img_len as int, #[trigger] slots@[k] as int),
        decreases n - i,
    {
        let pos = slots[i];
        if pos > img_len - 8 {
            assert(!slot_usable(rg@, img_len as int, slots@[i as int] as int));
            return false;
        }
        let abs = rg.start + pos;
        if abs % PAGE_SIZE > PAGE_SIZE - 8 {
            assert(!slot_usable(rg@, img_len as int, slots@[i as int] as int));
            return false;
        }
        i += 1;
    }
    true
}

/// The record keeping `page`, if one exists.
fn find_record(records: &Vec<HookRecord>, page: usize) -> (r: Option<usize>)
    ensures
        match r {
            Some(j) => j < records@.len() && record_from(
                records@.map_values(|x: HookRecord| x@),
                page as int,
                0,
            ) == Some(j as int),
            None => record_from(records@.map_values(|x: HookRecord| x@), page as int, 0) is None,
        },
{
    let n = records.len();
    let mut i: usize = 0;
    while i < n
        invariant
            n == records@.len(),
            0 <= i <= n,
            record_from(records@.map_values(|x: HookRecord| x@), page as int, 0) == record_from(
                records@.map_values(|x: HookRecord| x@),
                page as int,
                i as int,
            ),
        decreases n - i,
    {
        if records[i].page == page {
            return Some(i);
        }
        i += 1;
    }
    None
}

/// Takes the page records a patch of `slots` needs, copying each page not
/// yet on record from its pre-patch bytes.
fn add_records_exec(records: &mut Vec<HookRecord>, rg: &Region, slots: &Vec<usize>, img_len: usize)
    requires
        region_wf(rg@),
        8 <= img_len <= rg.bytes@.len(),
        commit_slots_ok(rg@, img_len as int, slots@),
    ensures
        final(records)@.map_values(|x: HookRecord| x@) == add_records(
            old(records)@.map_values(|x: HookRecord| x@),
            rg@,
            slots@,
            slots@.len() as int,
        ),
{
    let n = slots.len();
    let mut k: usize = 0;
    while k < n
        invariant
            region_wf(rg@),
            8 <= img_len <= rg.bytes@.len(),
            commit_slots_ok(rg@, img_len as int, slots@),
            n == slots@.len(),
            0 <= k <= n,
            records@.map_values(|x: HookRecord| x@) == add_records(
                old(records)@.map_values(|x: HookRecord| x@),
                rg@,
                slots@,
                k as int,
            ),
        decreases n - k,
    {
        let ghost prev = records@.map_values(|x: HookRecord| x@);
        let pos = slots[k];
        proof {
            assert(slot_usable(rg@, img_len as int, slots@[k as int] as int));
            lemma_page_bounds(rg@.start, rg.bytes@.len() as int, pos as int);
        }
        let abs = rg.start + pos;
        let page = abs - abs % PAGE_SIZE;
        match find_record(records, page) {
            Some(j) => {
                let mut rec = records.remove(j);
                rec.slots.push(abs);
                let ghost recm = rec@;
                records.insert(j, rec);
                proof {
                    assert(records@.map_values(|x: HookRecord| x@) =~= prev.update(
                        j as int,
                        recm,
                    ));
                    assert(recm == RecordModel {
                        slots: prev[j as int].slots.push(abs as usize),
                        ..prev[j as int]
                    });
                }
            },
            None => {
                let pstart = page - rg.start;
                let orig = slice_to_vec(slice_subrange(rg.bytes.as_slice(), pstart, pstart
                    + PAGE_SIZE));
                let mut sv: Vec<usize> = Vec::new();
                sv.push(abs);
                let rec = HookRecord {
                    page,
                    orig,
                    slots: sv,
                    dev: rg.dev,
                    inode: rg.inode,
                    offset: rg.offset,
                    perms: rg.perms,
                };
                let ghost recm = rec@;
                records.push(rec);
                proof {
                    assert(records@.map_values(|x: HookRecord| x@) =~= prev.push(recm));
                    assert(recm.slots =~= seq![abs as usize]);
                    assert(recm == add_record(prev, rg@, pos as int).last());
                }
            },
        }
        k += 1;
    }
}

/// A commit step leaves an intent that is not pending alone, and moves a
/// pending one to committed or failed.
pub proof fn lemma_commit_step_state(
    space: Seq<RegionModel>,
    records: Seq<RecordModel>,
    it: IntentModel,
)
    ensures
        it.state != HookState::Pending ==> commit_step(space, records, it) == (space, records, it),
        it.state == HookState::Pending ==> {
            let out = commit_step(space, records, it).2;
            ||| (out.state == HookState::Committed && out.backup is Some)
            ||| (out.state == HookState::Failed && out.backup is None)
        },
{
    reveal(commit_step);
}

/// Commits one intent against the current memory and records.
#[verifier::spinoff_prover]
#[verifier::rlimit(100)]
fn commit_one(space: &mut AddressSpace, records: &mut Vec<HookRecord>, it: &HookIntent) -> (out:
    HookIntent)
    requires
        space_wf(old(space)@),
    ensures
        ({
            let m = commit_step(old(space)@, old(records)@.map_values(|x: HookRecord| x@), it@);
            &&& final(space)@ == m.0
            &&& final(records)@.map_values(|x: HookRecord| x@) == m.1
            &&& out@ == m.2
        }),
        space_wf(final(space)@),
{
    proof {
        reveal(commit_step);
    }
    match it.state {
        HookState::Pending => {},
        _ => {
            return copy_intent(it);
        },
    }
    let woff = match it.window {
        Some((o, _)) => o,
        None => 0,
    };
    let j = match find_target(space, it.dev, it.inode, woff) {
        Some(j) => j,
        None => {
            return failed_intent(it);
        },
    };
    proof {
        crate::space::lemma_target_from(space@, it.dev, it.inode, woff as int, 0);
        assert(region_wf(space@[j as int]));
    }
    let rg = &space.regions[j];
    let bytes_len = rg.bytes.len();
    let bs = rg.bytes.as_slice();
    let img: &[u8] = match it.window {
        Some((_, sz)) => if sz < bytes_len {
            slice_subrange(bs, 0, sz)
        } else {
            bs
        },
        None => bs,
    };
    proof {
        assert(img@ == intent_image(space@[j as int], it@));
    }
    let img_len = img.len();
    let slots = match resolve_got_slots(img, it.symbol.as_slice()) {
        Ok(s) => s,
        Err(_) => {
            return failed_intent(it);
        },
    };
    assert(img@.len() >= 64);
    if !slots_usable(&space.regions[j], img_len, &slots) {
        return failed_intent(it);
    }
    assert(slots@.len() > 0);
    assert(slots@[0] + 8 <= bytes_len);
    let backup = read_le64(space.regions[j].bytes.as_slice(), slots[0]);
    add_records_exec(records, &space.regions[j], &slots, img_len);
    let ghost space0 = space@;
    let mut rgm = space.regions.remove(j);
    patch_region_bytes(&mut rgm.bytes, &slots, it.callback);
    let ghost rgm2 = rgm@;
    space.regions.insert(j, rgm);
    proof {
        assert(space@ =~= space0.update(j as int, rgm2));
        lemma_patch_bytes_len(space0[j as int].bytes, slots@, slots@.len() as int, it@.callback);
        assert(rgm2 == RegionModel {
            bytes: patch_bytes(space0[j as int].bytes, slots@, slots@.len() as int, it@.callback),
            ..space0[j as int]
        });
        assert(region_wf(rgm2));
        assert(space_wf(space@));
    }
    committed_intent(it, backup)
}

/// Commits every pending intent: finds each one's target region, resolves
/// its symbol's GOT slots there, copies page records and patches the
/// slots, filling the intent's backup with the pre-patch value.  A failing
/// intent is marked failed with an empty backup and the batch goes on; the
/// whole call succeeds exactly when every intent that was pending became
/// committed.  Already committed or failed intents are left alone, so a
/// second call with nothing newly registered changes nothing.
#[verifier::rlimit(100)]
pub fn commit_hook(eng: &mut HookEngine, space: &mut AddressSpace) -> (r: Result<(), CommitError>)
    requires
        space_wf(old(space)@),
    ensures
        ({
            let m = commit_upto(
                old(space)@,
                old(eng)@.records,
                old(eng)@.intents,
                old(eng)@.intents.len() as int,
            );
            &&& final(space)@ == m.0
            &&& final(eng)@.records == m.1
            &&& final(eng)@.intents == m.2
        }),
        space_wf(final(space)@),
        r is Ok <==> commit_ok(old(eng)@.intents, final(eng)@.intents),
{
    let n = eng.intents.len();
    let mut i: usize = 0;
    let mut all_ok = true;
    while i < n
        invariant
            space_wf(space@),
            n == old(eng)@.intents.len(),
            eng.intents@.len() == n,
            0 <= i <= n,
            ({
                let m = commit_upto(old(space)@, old(eng)@.records, old(eng)@.intents, i as int);
                &&& space@ == m.0
                &&& eng@.records == m.1
                &&& eng@.intents == m.2
            }),
            all_ok <==> (forall|k: int|
                0 <= k < i && (#[trigger] old(eng)@.intents[k]).state == HookState::Pending ==> (
                #[trigger] eng@.intents[k]).state == HookState::Committed),
        decreases n - i,
    {
        proof {
            lemma_commit_upto_frame(old(space)@, old(eng)@.records, old(eng)@.intents, i as int);
            assert(eng@.intents[i as int] == old(eng)@.intents[i as int]);
        }
        let was_pending = match eng.intents[i].state {
            HookState::Pending => true,
            _ => false,
        };
        let it_new = commit_one(space, &mut eng.records, &eng.intents[i]);
        let failed = match it_new.state {
            HookState::Failed => true,
            _ => false,
        };
        let ghost intents0 = eng@.intents;
        eng.intents.set(i, it_new);
        proof {
            assert(eng@.intents =~= intents0.update(i as int, it_new@));
            let m_i = commit_upto(old(space)@, old(eng)@.records, old(eng)@.intents, i as int);
            let st = commit_step(m_i.0, m_i.1, m_i.2[i as int]);
            lemma_commit_step_state(m_i.0, m_i.1, m_i.2[i as int]);
            assert(commit_upto(old(space)@, old(eng)@.records, old(eng)@.intents, i as int + 1)
                == (st.0, st.1, m_i.2.update(i as int, st.2)));
            assert(space@ == st.0);
            assert(eng@.records == st.1);
            assert(eng@.intents == m_i.2.update(i as int, st.2));
        }
        let ghost all_ok0 = all_ok;
        if was_pending && failed {
            all_ok = false;
        }
        proof {
            if all_ok {
                assert forall|k: int|
                    0 <= k < i + 1 && (#[trigger] old(eng)@.intents[k]).state
                        == HookState::Pending implies (#[trigger] eng@.intents[k]).state
                    == HookState::Committed by {
                    if k < i as int {
                        assert(eng@.intents[k] == intents0[k]);
                    }
                }
            } else {
                if all_ok0 {
                    assert((old(eng)@.intents[i as int]).state == HookState::Pending && (
                    eng@.intents[i as int]).state != HookState::Committed);
                } else {
                    let k0 = choose|k: int|
                        0 <= k < i && (#[trigger] old(eng)@.intents[k]).state
                            == HookState::Pending && (intents0[k]).state != HookState::Committed;
                    assert(eng@.intents[k0] == intents0[k0]);
                    assert((old(eng)@.intents[k0]).state == HookState::Pending && (
                    eng@.intents[k0]).state != HookState::Committed);
                }
            }
        }
        i += 1;
    }
    if all_ok {
        Ok(())
    } else {
        Err(CommitError)
    }
}

/// Whether some patched slot covers the byte at address `a`.
pub open spec fn covered(slots: Seq<usize>, a: int) -> bool {
    exists|k: int| 0 <= k < slots.len() && #[trigger] slots[k] <= a < slots[k] + 8
}

/// The first region at index `k` or later that contains the whole page.
pub open spec fn page_region_from(s: Seq<RegionModel>, page: int, k: int) -> Option<int>
    decreases s.len() - k,
{
    if k < 0 || k >= s.len() {
        None
    } else if s[k].start <= page && page + PAGE_SIZE <= s[k].start + s[k].bytes.len() {
        Some(k)
    } else {
        page_region_from(s, page, k + 1)
    }
}

/// The region after its recorded page is restored: bytes of the page that
/// no patched slot covers go back to the pre-patch copy, patched slots
/// keep their current value, everything outside the page is untouched.
pub open spec fn restore_region(r: RegionModel, rec: RecordModel) -> RegionModel {
    let pstart = rec.page - r.start;
    RegionModel {
        bytes: Seq::new(
            r.bytes.len(),
            |p: int|
                if pstart <= p < pstart + PAGE_SIZE && !covered(rec.slots, r.start + p) {
                    rec.orig[p - pstart]
                } else {
                    r.bytes[p]
                },
        ),
        ..r
    }
}

/// What invalidating does for one record: the page's region is restored as
/// above; a record whose page is no longer wholly mapped, or whose copy is
/// not one page long, restores nothing and fails.
pub open spec fn restore_step(space: Seq<RegionModel>, rec: RecordModel) -> (Seq<RegionModel>, bool) {
    if rec.orig.len() != PAGE_SIZE {
        (space, false)
    } else {
        match page_region_from(space, rec.page, 0) {
            None => (space, false),
            Some(j) => (space.update(j, restore_region(space[j], rec)), true),
        }
    }
}

/// One invalidate call: every record restored in order; the call succeeds
/// only if every record could be restored.
pub open spec fn restore_upto(
    space: Seq<RegionModel>,
    records: Seq<RecordModel>,
    k: int,
) -> (Seq<RegionModel>, bool)
    decreases k,
{
    if k <= 0 {
        (space, true)
    } else {
        let prev = restore_upto(space, records, k - 1);
        let st = restore_step(prev.0, records[k - 1]);
        (st.0, prev.1 && st.1)
    }
}

/// Whether any slot of `slots` covers address `a`.
fn slot_covers(slots: &Vec<usize>, a: usize) -> (r: bool)
    ensures
        r == covered(slots@, a as int),
{
    let n = slots.len();
    let mut k: usize = 0;
    while k < n
        invariant
            n == slots@.len(),
            0 <= k <= n,
            forall|j: int|
                0 <= j < k ==> !(#[trigger] slots@[j] <= a as int && (a as int) < slots@[j] + 8),
        decreases n - k,
    {
        let s = slots[k];
        if s <= a && (a - s) < 8 {
            return true;
        }
        k += 1;
    }
    false
}

/// A found page region is in range and contains the whole page.
pub proof fn lemma_page_region_from(s: Seq<RegionModel>, page: int, k: int)
    requires
        0 <= k,
        page_region_from(s, page, k) is Some,
    ensures
        ({
            let j = page_region_from(s, page, k).unwrap();
            &&& k <= j < s.len()
            &&& s[j].start <= page
            &&& page + PAGE_SIZE <= s[j].start + s[j].bytes.len()
        }),
    decreases s.len() - k,
{
    if k < s.len() && !(s[k].start <= page && page + PAGE_SIZE <= s[k].start + s[k].bytes.len()) {
        lemma_page_region_from(s, page, k + 1);
    }
}

/// The region containing the whole page, if any.
fn find_page_region(space: &AddressSpace, page: usize) -> (r: Option<usize>)
    ensures
        match r {
            Some(j) => j < space.regions@.len() && page_region_from(space@, page as int, 0)
                == Some(j as int),
            None => page_region_from(space@, page as int, 0) is None,
        },
{
    let n = space.regions.len();
    let mut j: usize = 0;
    while j < n
        invariant
            n == space.regions@.len(),
            0 <= j <= n,
            page_region_from(space@, page as int, 0) == page_region_from(
                space@,
                page as int,
                j as int,
            ),
        decreases n - j,
    {
        let rg = &space.regions[j];
        if (rg.start as u128) <= (page as u128) && (page as u128) + (PAGE_SIZE as u128) <= (
        rg.start as u128) + (rg.bytes.len() as u128) {
            return Some(j);
        }
        j += 1;
    }
    None
}

/// Restores one record's page.
fn restore_one(space: &mut AddressSpace, rec: &HookRecord) -> (ok: bool)
    requires
        space_wf(old(space)@),
    ensures
        (final(space)@, ok) == restore_step(old(space)@, rec@),
        space_wf(final(space)@),
{
    if rec.orig.len() != PAGE_SIZE {
        return false;
    }
    let page = rec.page;
    let j = match find_page_region(space, page) {
        Some(j) => j,
        None => {
            return false;
        },
    };
    proof {
        lemma_page_region_from(space@, page as int, 0);
        assert(region_wf(space@[j as int]));
    }
    let ghost space0 = space@;
    let mut rg = space.regions.remove(j);
    let pstart = page - rg.start;
    let mut p: usize = 0;
    while p < PAGE_SIZE
        invariant
            0 <= p <= PAGE_SIZE,
            0 <= j < space0.len(),
            page + PAGE_SIZE <= usize::MAX,
            rec.orig@.len() == PAGE_SIZE,
            rg.start == space0[j as int].start,
            rg.perms == space0[j as int].perms,
            rg.is_private == space0[j as int].is_private,
            rg.offset == space0[j as int].offset,
            rg.dev == space0[j as int].dev,
            rg.inode == space0[j as int].inode,
            rg.bytes@.len() == space0[j as int].bytes.len(),
            pstart == rec.page - rg.start,
            pstart + PAGE_SIZE <= rg.bytes@.len(),
            rec@.page == page as int,
            forall|q: int|
                0 <= q < rg.bytes@.len() && !(pstart <= q < pstart + p) ==> rg.bytes@[q]
                    == space0[j as int].bytes[q],
            forall|q: int|
                pstart <= q < pstart + p ==> rg.bytes@[q] == restore_region(
                    space0[j as int],
                    rec@,
                ).bytes[q],
        decreases PAGE_SIZE - p,
    {
        if !slot_covers(&rec.slots, page + p) {
            rg.bytes.set(pstart + p, rec.orig[p]);
        }
        p += 1;
    }
    let ghost rgm = rg@;
    space.regions.insert(j, rg);
    proof {
        assert(rgm.bytes =~= restore_region(space0[j as int], rec@).bytes);
        assert(rgm == restore_region(space0[j as int], rec@));
        assert(space@ =~= space0.update(j as int, rgm));
        assert(region_wf(rgm));
        assert(space_wf(space@));
    }
    true
}

/// Restores every recorded page's non-patched bytes from the pre-patch
/// copies and discards all records: committed hooks stay in effect, now
/// directly on the restored mapping, and the backup bookkeeping is gone.
/// Safe to call with no records at all.
pub fn invalidate_backup(eng: &mut HookEngine, space: &mut AddressSpace) -> (r: Result<
    (),
    InvalidateError,
>)
    requires
        space_wf(old(space)@),
    ensures
        ({
            let m = restore_upto(old(space)@, old(eng)@.records, old(eng)@.records.len() as int);
            &&& final(space)@ == m.0
            &&& (r is Ok <==> m.1)
        }),
        final(eng)@.records == Seq::<RecordModel>::empty(),
        final(eng)@.intents == old(eng)@.intents,
        space_wf(final(space)@),
{
    let n = eng.records.len();
    let mut k: usize = 0;
    let mut all_ok = true;
    while k < n
        invariant
            space_wf(space@),
            n == eng.records@.len(),
            eng@ == old(eng)@,
            0 <= k <= n,
            ({
                let m = restore_upto(old(space)@, old(eng)@.records, k as int);
                &&& space@ == m.0
                &&& all_ok == m.1
            }),
        decreases n - k,
    {
        let ok = restore_one(space, &eng.records[k]);
        all_ok = all_ok && ok;
        k += 1;
    }
    eng.records = Vec::new();
    proof {
        assert(eng@.records =~= Seq::<RecordModel>::empty());
    }
    if all_ok {
        Ok(())
    } else {
        Err(InvalidateError)
    }
}

/// Finding the target region depends only on each region's identity
/// fields, so patching bytes never changes which region is found.
proof fn lemma_target_from_same_identity(
    s1: Seq<RegionModel>,
    s2: Seq<RegionModel>,
    dev: u64,
    inode: u64,
    off: int,
    k: int,
)
    requires
        s1.len() == s2.len(),
        forall|i: int|
            0 <= i < s1.len() ==> (#[trigger] s2[i]).dev == s1[i].dev && s2[i].inode == s1[i].inode
                && s2[i].offset == s1[i].offset,
    ensures
        target_from(s1, dev, inode, off, k) == target_from(s2, dev, inode, off, k),
    decreases s1.len() - k,
{
    if 0 <= k < s1.len() {
        lemma_target_from_same_identity(s1, s2, dev, inode, off, k + 1);
    }
}

/// What a successful commit step does to memory, stated slot by slot: the
/// intent is committed, its backup holds the pre-patch value of its first
/// slot, every resolved slot of the target region holds the callback, and
/// every other byte of memory is untouched.
pub proof fn lemma_commit_step_effect(
    space: Seq<RegionModel>,
    records: Seq<RecordModel>,
    it: IntentModel,
)
    requires
        it.state == HookState::Pending,
        target_index(space, it.dev, it.inode, intent_window_off(it)) is Some,
        ({
            let j = target_index(space, it.dev, it.inode, intent_window_off(it)).unwrap();
            let img = intent_image(space[j], it);
            &&& resolve_ok(img, it.symbol)
            &&& commit_slots_ok(space[j], img.len() as int, resolved_slots(img, it.symbol))
            &&& crate::space::no_overlap(resolved_slots(img, it.symbol))
        }),
    ensures
        ({
            let j = target_index(space, it.dev, it.inode, intent_window_off(it)).unwrap();
            let img = intent_image(space[j], it);
            let slots = resolved_slots(img, it.symbol);
            let m = commit_step(space, records, it);
            &&& m.2 == intent_committed(it, le64(space[j].bytes, slots[0] as int) as u64)
            &&& m.0.len() == space.len()
            &&& forall|i: int| 0 <= i < space.len() && i != j ==> #[trigger] m.0[i] == space[i]
            &&& m.0[j].start == space[j].start
            &&& m.0[j].bytes.len() == space[j].bytes.len()
            &&& forall|k: int|
                0 <= k < slots.len() ==> le64(m.0[j].bytes, #[trigger] slots[k] as int)
                    == it.callback as nat
            &&& forall|p: int|
                0 <= p < space[j].bytes.len() && !covered(slots, p) ==> #[trigger] m.0[j].bytes[p]
                    == space[j].bytes[p]
        }),
{
    reveal(commit_step);
    let j = target_index(space, it.dev, it.inode, intent_window_off(it)).unwrap();
    let img = intent_image(space[j], it);
    let slots = resolved_slots(img, it.symbol);
    crate::space::lemma_target_from(space, it.dev, it.inode, intent_window_off(it), 0);
    let m = commit_step(space, records, it);
    lemma_patch_bytes_len(space[j].bytes, slots, slots.len() as int, it.callback);
    assert(img.len() <= space[j].bytes.len());
    assert forall|k: int| 0 <= k < slots.len() implies le64(
        m.0[j].bytes,
        #[trigger] slots[k] as int,
    ) == it.callback as nat by {
        crate::space::lemma_patch_bytes_word(
            space[j].bytes,
            slots,
            slots.len() as int,
            it.callback,
            k,
        );
    }
    assert forall|p: int|
        0 <= p < space[j].bytes.len() && !covered(slots, p) implies #[trigger] m.0[j].bytes[p]
        == space[j].bytes[p] by {
        crate::space::lemma_patch_bytes_outside(
            space[j].bytes,
            slots,
            slots.len() as int,
            it.callback,
            p,
        );
    }
}

/// Unhook correctness: committing a hook and then committing a fresh
/// registration whose callback is the backup obtained from the first
/// commit puts every resolved GOT slot of the target region back to its
/// pre-hook bytes.  Stated for a second resolution that finds the same
/// slots (patching data must not disturb the linkage metadata), slots that
/// do not overlap, and slots that held one common value, as slots of one
/// symbol do.
#[verifier::spinoff_prover]
#[verifier::rlimit(100)]
pub proof fn lemma_unhook_restores(
    space: Seq<RegionModel>,
    records: Seq<RecordModel>,
    it: IntentModel,
    it2: IntentModel,
)
    requires
        it.state == HookState::Pending,
        it2.state == HookState::Pending,
        it2.dev == it.dev && it2.inode == it.inode && it2.window == it.window,
        target_index(space, it.dev, it.inode, intent_window_off(it)) is Some,
        ({
            let j = target_index(space, it.dev, it.inode, intent_window_off(it)).unwrap();
            let img = intent_image(space[j], it);
            let slots = resolved_slots(img, it.symbol);
            let m1 = commit_step(space, records, it);
            let img2 = intent_image(m1.0[j], it2);
            &&& resolve_ok(img, it.symbol)
            &&& commit_slots_ok(space[j], img.len() as int, slots)
            &&& crate::space::no_overlap(slots)
            &&& forall|k: int|
                0 <= k < slots.len() ==> le64(space[j].bytes, #[trigger] slots[k] as int) == le64(
                    space[j].bytes,
                    slots[0] as int,
                )
            &&& it2.callback == m1.2.backup.unwrap()
            &&& resolve_ok(img2, it2.symbol)
            &&& resolved_slots(img2, it2.symbol) == slots
            &&& commit_slots_ok(m1.0[j], img2.len() as int, slots)
        }),
    ensures
        ({
            let j = target_index(space, it.dev, it.inode, intent_window_off(it)).unwrap();
            let img = intent_image(space[j], it);
            let slots = resolved_slots(img, it.symbol);
            let m1 = commit_step(space, records, it);
            let m2 = commit_step(m1.0, m1.1, it2);
            &&& m2.2.state == HookState::Committed
            &&& forall|k: int|
                0 <= k < slots.len() ==> le64(m2.0[j].bytes, #[trigger] slots[k] as int) == le64(
                    space[j].bytes,
                    slots[k] as int,
                )
            &&& forall|p: int|
                0 <= p < space[j].bytes.len() && !covered(slots, p) ==> #[trigger] m2.0[j].bytes[p]
                    == space[j].bytes[p]
        }),
{
    reveal(commit_step);
    let j = target_index(space, it.dev, it.inode, intent_window_off(it)).unwrap();
    let img = intent_image(space[j], it);
    let slots = resolved_slots(img, it.symbol);
    let m1 = commit_step(space, records, it);
    crate::space::lemma_target_from(space, it.dev, it.inode, intent_window_off(it), 0);
    lemma_commit_step_effect(space, records, it);
    assert(target_index(m1.0, it2.dev, it2.inode, intent_window_off(it2)) == Some(j)) by {
        lemma_target_from_same_identity(
            space,
            m1.0,
            it2.dev,
            it2.inode,
            intent_window_off(it2),
            0,
        );
    }
    lemma_commit_step_effect(m1.0, m1.1, it2);
    let m2 = commit_step(m1.0, m1.1, it2);
    assert forall|p: int|
        0 <= p < space[j].bytes.len() && !covered(slots, p) implies #[trigger] m2.0[j].bytes[p]
        == space[j].bytes[p] by {
        assert(m1.0[j].bytes[p] == space[j].bytes[p]);
    }
}

/// After one commit call no intent is left pending.
#[verifier::spinoff_prover]
#[verifier::rlimit(100)]
proof fn lemma_commit_upto_states(
    space: Seq<RegionModel>,
    records: Seq<RecordModel>,
    intents: Seq<IntentModel>,
    k: int,
)
    requires
        0 <= k <= intents.len(),
    ensures
        forall|j: int|
            0 <= j < k ==> (#[trigger] commit_upto(space, records, intents, k).2[j]).state
                != HookState::Pending,
    decreases k,
{
    if k > 0 {
        lemma_commit_upto_states(space, records, intents, k - 1);
        lemma_commit_upto_frame(space, records, intents, k - 1);
        let prev = commit_upto(space, records, intents, k - 1);
        let st = commit_step(prev.0, prev.1, prev.2[k - 1]);
        lemma_commit_step_state(prev.0, prev.1, prev.2[k - 1]);
        let cur = commit_upto(space, records, intents, k);
        assert(cur.2 == prev.2.update(k - 1, st.2));
        assert forall|j: int| 0 <= j < k implies (#[trigger] cur.2[j]).state
            != HookState::Pending by {
            if j < k - 1 {
                assert(cur.2[j] == prev.2[j]);
            } else {
                assert(cur.2[j] == st.2);
            }
        }
    }
}

/// Isolation of failures: a commit step that fails its intent changes
/// neither memory nor the records, so the other intents of the batch see
/// the same world whether or not it was there.
pub proof fn lemma_failed_commit_changes_nothing(
    space: Seq<RegionModel>,
    records: Seq<RecordModel>,
    it: IntentModel,
)
    requires
        it.state == HookState::Pending,
        commit_step(space, records, it).2.state == HookState::Failed,
    ensures
        commit_step(space, records, it) == (space, records, intent_failed(it)),
{
    reveal(commit_step);
}

/// Isolation across a batch: when an intent that fails and an intent that
/// can commit stand in one batch, one commit call leaves the failing one
/// failed with no backup and still commits the other with its backup —
/// the failure neither aborts the batch nor touches what the valid hook
/// needs.
pub proof fn lemma_commit_isolation(
    space: Seq<RegionModel>,
    records: Seq<RecordModel>,
    a: IntentModel,
    b: IntentModel,
)
    requires
        a.state == HookState::Pending,
        b.state == HookState::Pending,
        commit_step(space, records, a).2.state == HookState::Failed,
        commit_step(space, records, b).2.state == HookState::Committed,
    ensures
        ({
            let m = commit_upto(space, records, seq![a, b], 2);
            &&& m.2.len() == 2
            &&& m.2[0].state == HookState::Failed
            &&& m.2[0].backup is None
            &&& m.2[1].state == HookState::Committed
            &&& m.2[1].backup is Some
            &&& m.2[1] == commit_step(space, records, b).2
        }),
{
    let intents = seq![a, b];
    assert(intents.len() == 2);
    assert(intents[0] == a);
    assert(intents[1] == b);
    lemma_failed_commit_changes_nothing(space, records, a);
    let m1 = commit_upto(space, records, intents, 1);
    assert(commit_upto(space, records, intents, 0) == (space, records, intents));
    assert(m1.0 == space && m1.1 == records);
    assert(m1.2 == intents.update(0, intent_failed(a)));
    assert(m1.2[1] == b);
    let m = commit_upto(space, records, intents, 2);
    lemma_commit_step_state(space, records, b);
    assert(m.2 == m1.2.update(1, commit_step(space, records, b).2));
    assert(m.2[0] == intent_failed(a));
}

/// The backup is the caller-visible signal of success: after a commit
/// call, an intent that was pending carries a backup exactly when it
/// committed.
#[verifier::spinoff_prover]
#[verifier::rlimit(100)]
pub proof fn lemma_backup_signals_success(
    space: Seq<RegionModel>,
    records: Seq<RecordModel>,
    intents: Seq<IntentModel>,
    k: int,
)
    requires
        0 <= k <= intents.len(),
    ensures
        forall|j: int|
            0 <= j < k && (#[trigger] intents[j]).state == HookState::Pending ==> {
                let out = commit_upto(space, records, intents, k).2[j];
                &&& (out.state == HookState::Committed <==> out.backup is Some)
                &&& (out.state == HookState::Failed <==> out.backup is None)
            },
    decreases k,
{
    if k > 0 {
        lemma_backup_signals_success(space, records, intents, k - 1);
        lemma_commit_upto_frame(space, records, intents, k - 1);
        let prev = commit_upto(space, records, intents, k - 1);
        let st = commit_step(prev.0, prev.1, prev.2[k - 1]);
        lemma_commit_step_state(prev.0, prev.1, prev.2[k - 1]);
        let cur = commit_upto(space, records, intents, k);
        assert(cur.2 == prev.2.update(k - 1, st.2));
        assert forall|j: int|
            0 <= j < k && (#[trigger] intents[j]).state == HookState::Pending implies {
            let out = cur.2[j];
            &&& (out.state == HookState::Committed <==> out.backup is Some)
            &&& (out.state == HookState::Failed <==> out.backup is None)
        } by {
            if j < k - 1 {
                assert(cur.2[j] == prev.2[j]);
            } else {
                assert(prev.2[j] == intents[j]);
                assert(cur.2[j] == st.2);
            }
        }
    }
}

/// A commit call over intents none of which is pending changes nothing.
proof fn lemma_commit_noop(
    space: Seq<RegionModel>,
    records: Seq<RecordModel>,
    intents: Seq<IntentModel>,
    k: int,
)
    requires
        0 <= k <= intents.len(),
        forall|j: int| 0 <= j < k ==> (#[trigger] intents[j]).state != HookState::Pending,
    ensures
        commit_upto(space, records, intents, k) == (space, records, intents),
    decreases k,
{
    if k > 0 {
        lemma_commit_noop(space, records, intents, k - 1);
        lemma_commit_step_state(space, records, intents[k - 1]);
        assert(intents.update(k - 1, intents[k - 1]) =~= intents);
    }
}

/// Idempotent commit: a second commit call with no new registrations is a
/// no-op — it touches neither memory, nor the records, nor any intent.
pub proof fn lemma_commit_idempotent(
    space: Seq<RegionModel>,
    records: Seq<RecordModel>,
    intents: Seq<IntentModel>,
)
    ensures
        ({
            let m1 = commit_upto(space, records, intents, intents.len() as int);
            commit_upto(m1.0, m1.1, m1.2, m1.2.len() as int) == m1
        }),
{
    let n = intents.len() as int;
    let m1 = commit_upto(space, records, intents, n);
    lemma_commit_upto_frame(space, records, intents, n);
    lemma_commit_upto_states(space, records, intents, n);
    lemma_commit_noop(m1.0, m1.1, m1.2, n);
}

/// A record the engine keeps: an aligned one-page copy, every noted slot
/// wholly on the page.
pub open spec fn record_wf(rec: RecordModel) -> bool {
    &&& 0 <= rec.page
    &&& rec.page % (PAGE_SIZE as int) == 0
    &&& rec.orig.len() == PAGE_SIZE
    &&& forall|k: int|
        0 <= k < rec.slots.len() ==> rec.page <= #[trigger] rec.slots[k] as int && rec.slots[k] + 8
            <= rec.page + PAGE_SIZE
}

/// Every record well-formed, one record per page.
pub open spec fn records_wf(rs: Seq<RecordModel>) -> bool {
    &&& forall|i: int| 0 <= i < rs.len() ==> record_wf(#[trigger] rs[i])
    &&& forall|i: int, j: int|
        0 <= i < rs.len() && 0 <= j < rs.len() && i != j ==> (#[trigger] rs[i]).page != (
        #[trigger] rs[j]).page
}

/// A missing record means no record keeps that page.
proof fn lemma_record_from_none(rs: Seq<RecordModel>, page: int, k: int)
    requires
        0 <= k,
        record_from(rs, page, k) is None,
    ensures
        forall|j: int| k <= j < rs.len() ==> (#[trigger] rs[j]).page != page,
    decreases rs.len() - k,
{
    if k < rs.len() {
        lemma_record_from_none(rs, page, k + 1);
    }
}

/// A found record is in range and keeps the page.
proof fn lemma_record_from_some(rs: Seq<RecordModel>, page: int, k: int)
    requires
        0 <= k,
        record_from(rs, page, k) is Some,
    ensures
        k <= record_from(rs, page, k).unwrap() < rs.len(),
        rs[record_from(rs, page, k).unwrap()].page == page,
    decreases rs.len() - k,
{
    if k < rs.len() && rs[k].page != page {
        lemma_record_from_some(rs, page, k + 1);
    }
}

/// Taking a record for one more usable slot keeps the records well-formed.
proof fn lemma_add_record_wf(rs: Seq<RecordModel>, r: RegionModel, pos: int)
    requires
        records_wf(rs),
        region_wf(r),
        0 <= pos,
        pos + 8 <= r.bytes.len(),
        (r.start + pos) % (PAGE_SIZE as int) <= PAGE_SIZE - 8,
    ensures
        records_wf(add_record(rs, r, pos)),
{
    lemma_page_bounds(r.start, r.bytes.len() as int, pos);
    let abs = r.start + pos;
    let page = page_of(abs);
    match record_from(rs, page, 0) {
        Some(j) => {
            lemma_record_from_some(rs, page, 0);
            let out = add_record(rs, r, pos);
            assert(record_wf(out[j]));
            assert forall|i: int| 0 <= i < out.len() implies record_wf(#[trigger] out[i]) by {
                if i != j {
                    assert(out[i] == rs[i]);
                }
            }
        },
        None => {
            lemma_record_from_none(rs, page, 0);
            let out = add_record(rs, r, pos);
            assert(record_wf(out[rs.len() as int]));
            assert forall|i: int| 0 <= i < out.len() implies record_wf(#[trigger] out[i]) by {
                if i < rs.len() {
                    assert(out[i] == rs[i]);
                }
            }
        },
    }
}

proof fn lemma_add_records_wf(
    rs: Seq<RecordModel>,
    r: RegionModel,
    img_len: int,
    slots: Seq<usize>,
    k: int,
)
    requires
        records_wf(rs),
        region_wf(r),
        img_len <= r.bytes.len(),
        commit_slots_ok(r, img_len, slots),
        k <= slots.len(),
    ensures
        records_wf(add_records(rs, r, slots, k)),
    decreases k,
{
    if k > 0 {
        lemma_add_records_wf(rs, r, img_len, slots, k - 1);
        assert(slot_usable(r, img_len, slots[k - 1] as int));
        lemma_add_record_wf(add_records(rs, r, slots, k - 1), r, slots[k - 1] as int);
    }
}

/// One commit step keeps the memory and the records well-formed.
proof fn lemma_commit_step_preserves(
    space: Seq<RegionModel>,
    records: Seq<RecordModel>,
    it: IntentModel,
)
    requires
        space_wf(space),
        records_wf(records),
    ensures
        space_wf(commit_step(space, records, it).0),
        records_wf(commit_step(space, records, it).1),
{
    reveal(commit_step);
    if it.state == HookState::Pending {
        match target_index(space, it.dev, it.inode, intent_window_off(it)) {
            None => {},
            Some(j) => {
                crate::space::lemma_target_from(space, it.dev, it.inode, intent_window_off(it), 0);
                let r = space[j];
                let img = intent_image(r, it);
                if resolve_ok(img, it.symbol) {
                    let slots = resolved_slots(img, it.symbol);
                    if commit_slots_ok(r, img.len() as int, slots) {
                        lemma_add_records_wf(records, r, img.len() as int, slots, slots.len() as int);
                        lemma_patch_bytes_len(r.bytes, slots, slots.len() as int, it.callback);
                        let m = commit_step(space, records, it);
                        assert forall|i: int| 0 <= i < m.0.len() implies region_wf(
                            #[trigger] m.0[i],
                        ) by {
                            if i != j {
                                assert(m.0[i] == space[i]);
                            }
                        }
                    }
                }
            },
        }
    }
}

/// A whole commit call keeps the memory and the records well-formed.
pub proof fn lemma_commit_upto_preserves(
    space: Seq<RegionModel>,
    records: Seq<RecordModel>,
    intents: Seq<IntentModel>,
    k: int,
)
    requires
        space_wf(space),
        records_wf(records),
        0 <= k,
    ensures
        space_wf(commit_upto(space, records, intents, k).0),
        records_wf(commit_upto(space, records, intents, k).1),
    decreases k,
{
    if k > 0 {
        lemma_commit_upto_preserves(space, records, intents, k - 1);
        let prev = commit_upto(space, records, intents, k - 1);
        lemma_commit_step_preserves(prev.0, prev.1, prev.2[k - 1]);
    }
}

/// Two distinct aligned pages do not overlap.
proof fn lemma_pages_disjoint(p1: int, p2: int)
    requires
        p1 % (PAGE_SIZE as int) == 0,
        p2 % (PAGE_SIZE as int) == 0,
        p1 != p2,
    ensures
        p1 + PAGE_SIZE <= p2 || p2 + PAGE_SIZE <= p1,
{
    let p = PAGE_SIZE as int;
    assert(p1 == p * (p1 / p));
    assert(p2 == p * (p2 / p));
    assert(p * (p1 / p) + p <= p * (p2 / p) || p * (p2 / p) + p <= p * (p1 / p))
        by (nonlinear_arith)
        requires
            p > 0,
            p1 == p * (p1 / p),
            p2 == p * (p2 / p),
            p1 != p2,
    ;
}

/// A restore step never changes a region's place or size.
proof fn lemma_restore_step_shape(space: Seq<RegionModel>, rec: RecordModel)
    ensures
        ({
            let s2 = restore_step(space, rec).0;
            &&& s2.len() == space.len()
            &&& forall|i: int|
                0 <= i < space.len() ==> (#[trigger] s2[i]).start == space[i].start
                    && s2[i].bytes.len() == space[i].bytes.len()
        }),
{
    if rec.orig.len() == PAGE_SIZE {
        match page_region_from(space, rec.page, 0) {
            None => {},
            Some(j) => {
                lemma_page_region_from(space, rec.page, 0);
            },
        }
    }
}

/// Which region holds a word depends only on the regions' places and
/// sizes.
proof fn lemma_word_region_shape(s1: Seq<RegionModel>, s2: Seq<RegionModel>, a: int, k: int)
    requires
        s1.len() == s2.len(),
        forall|i: int|
            0 <= i < s1.len() ==> (#[trigger] s2[i]).start == s1[i].start && s2[i].bytes.len()
                == s1[i].bytes.len(),
    ensures
        crate::space::word_region_from(s1, a, k) == crate::space::word_region_from(s2, a, k),
    decreases s1.len() - k,
{
    if 0 <= k < s1.len() {
        lemma_word_region_shape(s1, s2, a, k + 1);
    }
}

/// A restore step leaves the word at `a` alone when every byte of the word
/// is either covered by the record's slots or off the record's page.
proof fn lemma_restore_step_word(space: Seq<RegionModel>, rec: RecordModel, a: int)
    requires
        forall|q: int|
            a <= q < a + 8 ==> covered(rec.slots, q) || !(rec.page <= q < rec.page + PAGE_SIZE),
    ensures
        crate::space::word_at(restore_step(space, rec).0, a) == crate::space::word_at(space, a),
{
    let s2 = restore_step(space, rec).0;
    lemma_restore_step_shape(space, rec);
    lemma_word_region_shape(space, s2, a, 0);
    match crate::space::word_region_from(space, a, 0) {
        None => {},
        Some(i) => {
            crate::space::lemma_word_region_from_bounds(space, a, 0);
            assert(covered(rec.slots, a) || !(rec.page <= a && a < rec.page + PAGE_SIZE));
            assert(covered(rec.slots, a + 1) || !(rec.page <= a + 1 && a + 1 < rec.page
                + PAGE_SIZE));
            assert(covered(rec.slots, a + 2) || !(rec.page <= a + 2 && a + 2 < rec.page
                + PAGE_SIZE));
            assert(covered(rec.slots, a + 3) || !(rec.page <= a + 3 && a + 3 < rec.page
                + PAGE_SIZE));
            assert(covered(rec.slots, a + 4) || !(rec.page <= a + 4 && a + 4 < rec.page
                + PAGE_SIZE));
            assert(covered(rec.slots, a + 5) || !(rec.page <= a + 5 && a + 5 < rec.page
                + PAGE_SIZE));
            assert(covered(rec.slots, a + 6) || !(rec.page <= a + 6 && a + 6 < rec.page
                + PAGE_SIZE));
            assert(covered(rec.slots, a + 7) || !(rec.page <= a + 7 && a + 7 < rec.page
                + PAGE_SIZE));
            if rec.orig.len() == PAGE_SIZE {
                match page_region_from(space, rec.page, 0) {
                    None => {},
                    Some(j) => {
                        lemma_page_region_from(space, rec.page, 0);
                        if i == j {
                            assert(s2[i] == restore_region(space[j], rec));
                        } else {
                            assert(s2[i] == space[i]);
                        }
                    },
                }
            }
            let st = space[i].start;
            assert(s2[i].bytes[a - st] == space[i].bytes[a - st]);
            assert(s2[i].bytes[a + 1 - st] == space[i].bytes[a + 1 - st]);
            assert(s2[i].bytes[a + 2 - st] == space[i].bytes[a + 2 - st]);
            assert(s2[i].bytes[a + 3 - st] == space[i].bytes[a + 3 - st]);
            assert(s2[i].bytes[a + 4 - st] == space[i].bytes[a + 4 - st]);
            assert(s2[i].bytes[a + 5 - st] == space[i].bytes[a + 5 - st]);
            assert(s2[i].bytes[a + 6 - st] == space[i].bytes[a + 6 - st]);
            assert(s2[i].bytes[a + 7 - st] == space[i].bytes[a + 7 - st]);
            assert(le64(s2[i].bytes, a - st) == le64(space[i].bytes, a - st));
        },
    }
}

/// Invalidating the backups changes no committed hook's effect: the word
/// each recorded GOT slot holds reads the same before and after every
/// record is restored.
pub proof fn lemma_invalidate_preserves_hooks(space: Seq<RegionModel>, records: Seq<RecordModel>)
    requires
        space_wf(space),
        records_wf(records),
    ensures
        ({
            let s2 = restore_upto(space, records, records.len() as int).0;
            forall|ri: int, k: int|
                0 <= ri < records.len() && 0 <= k < records[ri].slots.len()
                    ==> crate::space::word_at(s2, #[trigger] records[ri].slots[k] as int)
                    == crate::space::word_at(space, records[ri].slots[k] as int)
        }),
{
    let n = records.len() as int;
    assert forall|ri: int, k: int|
        0 <= ri < records.len() && 0 <= k < records[ri].slots.len() implies crate::space::word_at(
        restore_upto(space, records, n).0,
        #[trigger] records[ri].slots[k] as int,
    ) == crate::space::word_at(space, records[ri].slots[k] as int) by {
        let a = records[ri].slots[k] as int;
        assert(record_wf(records[ri]));
        lemma_restore_upto_word(space, records, n, a, ri);
    }
}

/// The word at a slot of record `ri` survives the first `m` restore steps.
proof fn lemma_restore_upto_word(
    space: Seq<RegionModel>,
    records: Seq<RecordModel>,
    m: int,
    a: int,
    ri: int,
)
    requires
        records_wf(records),
        0 <= m <= records.len(),
        0 <= ri < records.len(),
        records[ri].page <= a,
        a + 8 <= records[ri].page + PAGE_SIZE,
        forall|q: int| a <= q < a + 8 ==> covered(records[ri].slots, q),
    ensures
        crate::space::word_at(restore_upto(space, records, m).0, a) == crate::space::word_at(
            space,
            a,
        ),
    decreases m,
{
    if m > 0 {
        lemma_restore_upto_word(space, records, m - 1, a, ri);
        let prev = restore_upto(space, records, m - 1).0;
        let rec = records[m - 1];
        assert(record_wf(rec));
        assert forall|q: int| a <= q < a + 8 implies covered(rec.slots, q) || !(rec.page <= q
            < rec.page + PAGE_SIZE) by {
            if m - 1 != ri {
                lemma_pages_disjoint(rec.page, records[ri].page);
            }
        }
        lemma_restore_step_word(prev, rec, a);
    }
}

} // verus!
