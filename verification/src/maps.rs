//! Map scanner: parses the process mapping table, one line per mapped
//! region, into structured entries.  Lines that do not follow the
//! `start-end perms offset dev:inode path` shape are skipped, so that
//! format variations never make a whole scan fail.

use vstd::prelude::*;
use vstd::string::StrSliceExecFns;

verus! {

/// The mapping table could not be read at all.
#[derive(Debug, Clone, Copy, PartialEq, Eq, Structural)]
pub struct ScanError;

/// The digit value of `c` in base 10 or 16, lower-case.
pub open spec fn digit_val(c: char, base: int) -> Option<int> {
    if c == '0' {
        Some(0)
    } else if c == '1' {
        Some(1)
    } else if c == '2' {
        Some(2)
    } else if c == '3' {
        Some(3)
    } else if c == '4' {
        Some(4)
    } else if c == '5' {
        Some(5)
    } else if c == '6' {
        Some(6)
    } else if c == '7' {
        Some(7)
    } else if c == '8' {
        Some(8)
    } else if c == '9' {
        Some(9)
    } else if base == 16 && c == 'a' {
        Some(10)
    } else if base == 16 && c == 'b' {
        Some(11)
    } else if base == 16 && c == 'c' {
        Some(12)
    } else if base == 16 && c == 'd' {
        Some(13)
    } else if base == 16 && c == 'e' {
        Some(14)
    } else if base == 16 && c == 'f' {
        Some(15)
    } else {
        None
    }
}

/// The first position at or after `i` that does not hold a digit.
pub open spec fn num_end(s: Seq<char>, i: int, base: int) -> int
    decreases s.len() - i,
{
    if i < 0 || i >= s.len() {
        i
    } else if digit_val(s[i], base) is None {
        i
    } else {
        num_end(s, i + 1, base)
    }
}

/// The value of the digits at `i .. j`.
pub open spec fn num_val(s: Seq<char>, i: int, j: int, base: int) -> int
    decreases j - i,
{
    if j <= i {
        0
    } else {
        num_val(s, i, j - 1, base) * base + match digit_val(s[j - 1], base) {
            Some(d) => d,
            None => 0,
        }
    }
}

/// Digit values are non-negative, so longer digit runs never shrink the
/// value.
pub proof fn lemma_num_val_mono(s: Seq<char>, i: int, j: int, k: int, base: int)
    requires
        i <= j <= k,
        base >= 2,
        forall|p: int| i <= p < k ==> num_val(s, i, p, base) >= 0,
    ensures
        num_val(s, i, j, base) <= num_val(s, i, k, base),
    decreases k - j,
{
    if j < k {
        lemma_num_val_mono(s, i, j, k - 1, base);
        assert(num_val(s, i, k - 1, base) * base >= num_val(s, i, k - 1, base) * 1) by (nonlinear_arith)
            requires
                base >= 2,
                num_val(s, i, k - 1, base) >= 0,
        ;
    }
}

/// Values of digit runs are never negative.
pub proof fn lemma_num_val_nonneg(s: Seq<char>, i: int, j: int, base: int)
    requires
        base >= 2,
    ensures
        num_val(s, i, j, base) >= 0,
    decreases j - i,
{
    if j > i {
        lemma_num_val_nonneg(s, i, j - 1, base);
        assert(num_val(s, i, j - 1, base) * base >= 0) by (nonlinear_arith)
            requires
                num_val(s, i, j - 1, base) >= 0,
                base >= 2,
        ;
    }
}

/// Reads the digit run starting at `i`: its value and where it ends.
/// `None` when there is no digit at `i` or the value does not fit in 64
/// bits.
fn parse_num(s: &str, i: usize, base: u64) -> (r: Option<(u64, usize)>)
    requires
        base == 10 || base == 16,
        i <= s@.len(),
    ensures
        match r {
            Some((v, j)) => {
                &&& j == num_end(s@, i as int, base as int)
                &&& i < j <= s@.len()
                &&& v as int == num_val(s@, i as int, j as int, base as int)
            },
            None => num_end(s@, i as int, base as int) == i || num_val(
                s@,
                i as int,
                num_end(s@, i as int, base as int),
                base as int,
            ) > u64::MAX,
        },
{
    let n = s.unicode_len();
    let mut j: usize = i;
    let mut acc: u64 = 0;
    let mut overflow = false;
    while j < n
        invariant_except_break
            !overflow,
        invariant
            base == 10 || base == 16,
            i <= j <= n,
            n == s@.len(),
            acc as int == num_val(s@, i as int, j as int, base as int),
            num_end(s@, i as int, base as int) == num_end(s@, j as int, base as int),
        ensures
            i <= j <= n,
            n == s@.len(),
            !overflow ==> acc as int == num_val(s@, i as int, j as int, base as int) && j as int
                == num_end(s@, i as int, base as int),
            overflow ==> num_val(
                s@,
                i as int,
                num_end(s@, i as int, base as int),
                base as int,
            ) > u64::MAX,
        decreases n - j,
    {
        let c = s.get_char(j);
        let d: u64 = match char_digit(c, base) {
            Some(d) => d as u64,
            None => {
                break ;
            },
        };
        if acc > (u64::MAX - d) / base {
            proof {
                let m: int = u64::MAX as int;
                let q: int = (m - d) / (base as int);
                assert(acc as int * (base as int) + d > m) by (nonlinear_arith)
                    requires
                        m - d == (base as int) * q + (m - d) % (base as int),
                        0 <= (m - d) % (base as int) < base as int,
                        acc as int > q,
                        base as int >= 2,
                        d >= 0,
                ;
                assert(num_val(s@, i as int, j as int + 1, base as int) == acc as int * (
                base as int) + d);
                lemma_num_end_bounds(s@, i as int, base as int);
                lemma_num_end_bounds(s@, j as int + 1, base as int);
                assert(num_end(s@, j as int, base as int) == num_end(
                    s@,
                    j as int + 1,
                    base as int,
                ));
                assert forall|p: int|
                    i <= p < num_end(s@, i as int, base as int) implies num_val(
                    s@,
                    i as int,
                    p,
                    base as int,
                ) >= 0 by {
                    lemma_num_val_nonneg(s@, i as int, p, base as int);
                }
                lemma_num_val_mono(
                    s@,
                    i as int,
                    j as int + 1,
                    num_end(s@, i as int, base as int),
                    base as int,
                );
            }
            overflow = true;
            break ;
        }
        acc = acc * base + d;
        j += 1;
    }
    if overflow {
        return None;
    }
    if j == i {
        None
    } else {
        Some((acc, j))
    }
}

/// Where a digit run ends: no earlier than it starts, no later than the
/// text, and every position before the end holds a digit.
pub proof fn lemma_num_end_bounds(s: Seq<char>, i: int, base: int)
    requires
        0 <= i <= s.len(),
    ensures
        i <= num_end(s, i, base) <= s.len(),
        forall|p: int| i <= p < num_end(s, i, base) ==> digit_val(#[trigger] s[p], base) is Some,
    decreases s.len() - i,
{
    if i < s.len() && digit_val(s[i], base) is Some {
        lemma_num_end_bounds(s, i + 1, base);
    }
}

/// The digit value of `c`, executable form.
fn char_digit(c: char, base: u64) -> (r: Option<u8>)
    requires
        base == 10 || base == 16,
    ensures
        match r {
            Some(d) => digit_val(c, base as int) == Some(d as int) && d < base,
            None => digit_val(c, base as int) is None,
        },
{
    match c {
        '0' => Some(0),
        '1' => Some(1),
        '2' => Some(2),
        '3' => Some(3),
        '4' => Some(4),
        '5' => Some(5),
        '6' => Some(6),
        '7' => Some(7),
        '8' => Some(8),
        '9' => Some(9),
        'a' => if base == 16 {
            Some(10)
        } else {
            None
        },
        'b' => if base == 16 {
            Some(11)
        } else {
            None
        },
        'c' => if base == 16 {
            Some(12)
        } else {
            None
        },
        'd' => if base == 16 {
            Some(13)
        } else {
            None
        },
        'e' => if base == 16 {
            Some(14)
        } else {
            None
        },
        'f' => if base == 16 {
            Some(15)
        } else {
            None
        },
        _ => None,
    }
}

/// An entry describing one line of the process mapping table, as produced
/// by [`MapInfo::scan`] or [`MapInfo::scan_self`].
#[derive(Debug, Clone)]
pub struct MapInfo {
    /// The start address of the memory region.
    pub start: usize,
    /// The end address of the memory region.
    pub end: usize,
    /// The permissions of the region: bit 0 read, bit 1 write, bit 2
    /// execute.
    pub perms: u8,
    /// Whether the memory region is private.
    pub is_private: bool,
    /// The offset of the region into its backing file.
    pub offset: usize,
    /// The device number of the backing file.
    pub dev: u64,
    /// The inode number of the backing file.
    pub inode: u64,
    /// The path of the backing file, absent for anonymous regions.
    pub pathname: Option<String>,
}

/// The mathematical value of a mapping-table entry.
pub ghost struct MapInfoModel {
    pub start: int,
    pub end: int,
    pub perms: u8,
    pub is_private: bool,
    pub offset: int,
    pub dev: u64,
    pub inode: u64,
    pub pathname: Option<Seq<char>>,
}

impl View for MapInfo {
    type V = MapInfoModel;

    open spec fn view(&self) -> MapInfoModel {
        MapInfoModel {
            start: self.start as int,
            end: self.end as int,
            perms: self.perms,
            is_private: self.is_private,
            offset: self.offset as int,
            dev: self.dev,
            inode: self.inode,
            pathname: match self.pathname {
                Some(p) => Some(p@),
                None => None,
            },
        }
    }
}

/// The device number composed from its major and minor parts.
pub open spec fn make_dev(major: u64, minor: u64) -> u64 {
    (minor & 0xff) | ((major & 0xfff) << 8) | ((minor & 0xffffff00) << 12) | ((major & 0xfffff000)
        << 32)
}

fn make_dev_exec(major: u64, minor: u64) -> (r: u64)
    ensures
        r == make_dev(major, minor),
{
    (minor & 0xff) | ((major & 0xfff) << 8) | ((minor & 0xffffff00) << 12) | ((major & 0xfffff000)
        << 32)
}

/// The permission bits spelled by the three permission characters.
pub open spec fn perms_of(cr: char, cw: char, cx: char) -> u8 {
    ((if cr == 'r' {
        1int
    } else {
        0int
    }) + (if cw == 'w' {
        2int
    } else {
        0int
    }) + (if cx == 'x' {
        4int
    } else {
        0int
    })) as u8
}

/// The first position at or after `i` that does not hold a space.
pub open spec fn skip_spaces(s: Seq<char>, i: int) -> int
    decreases s.len() - i,
{
    if i < 0 || i >= s.len() {
        i
    } else if s[i] == ' ' {
        skip_spaces(s, i + 1)
    } else {
        i
    }
}

/// Skipping spaces never moves backwards nor past the end.
pub proof fn lemma_skip_spaces_bounds(s: Seq<char>, i: int)
    requires
        0 <= i <= s.len(),
    ensures
        i <= skip_spaces(s, i) <= s.len(),
    decreases s.len() - i,
{
    if i < s.len() && s[i] == ' ' {
        lemma_skip_spaces_bounds(s, i + 1);
    }
}

/// The entry spelled by one line of the mapping table:
/// `start-end perms offset major:minor inode [path]`, addresses and offsets
/// in lower-case hex, the inode decimal, the path anything after the
/// spaces that follow the inode.  `None` for any other shape, or when a
/// number does not fit its field.
pub open spec fn line_model(s: Seq<char>) -> Option<MapInfoModel> {
    let e1 = num_end(s, 0, 16);
    let start = num_val(s, 0, e1, 16);
    if !(0 < e1 && e1 < s.len() && s[e1] == '-' && start <= usize::MAX) {
        None
    } else {
        let i2 = e1 + 1;
        let e2 = num_end(s, i2, 16);
        let end = num_val(s, i2, e2, 16);
        if !(i2 < e2 && e2 + 6 <= s.len() && s[e2] == ' ' && end <= usize::MAX && start < end) {
            None
        } else {
            let cr = s[e2 + 1];
            let cw = s[e2 + 2];
            let cx = s[e2 + 3];
            let cp = s[e2 + 4];
            if !((cr == 'r' || cr == '-') && (cw == 'w' || cw == '-') && (cx == 'x' || cx == '-')
                && (cp == 'p' || cp == 's') && s[e2 + 5] == ' ') {
                None
            } else {
                let i3 = e2 + 6;
                let e3 = num_end(s, i3, 16);
                let off = num_val(s, i3, e3, 16);
                if !(i3 < e3 && e3 < s.len() && s[e3] == ' ' && off <= usize::MAX) {
                    None
                } else {
                    let i4 = e3 + 1;
                    let e4 = num_end(s, i4, 16);
                    let major = num_val(s, i4, e4, 16);
                    if !(i4 < e4 && e4 < s.len() && s[e4] == ':' && major < 0x1_0000_0000) {
                        None
                    } else {
                        let i5 = e4 + 1;
                        let e5 = num_end(s, i5, 16);
                        let minor = num_val(s, i5, e5, 16);
                        if !(i5 < e5 && e5 < s.len() && s[e5] == ' ' && minor < 0x1_0000_0000) {
                            None
                        } else {
                            let i6 = e5 + 1;
                            let e6 = num_end(s, i6, 10);
                            let inode = num_val(s, i6, e6, 10);
                            if !(i6 < e6 && inode <= u64::MAX && (e6 == s.len() || s[e6] == ' ')) {
                                None
                            } else {
                                let p = skip_spaces(s, e6);
                                Some(
                                    MapInfoModel {
                                        start,
                                        end,
                                        perms: perms_of(cr, cw, cx),
                                        is_private: cp == 'p',
                                        offset: off,
                                        dev: make_dev(major as u64, minor as u64),
                                        inode: inode as u64,
                                        pathname: if p >= s.len() {
                                            None
                                        } else {
                                            Some(s.subrange(p, s.len() as int))
                                        },
                                    },
                                )
                            }
                        }
                    }
                }
            }
        }
    }
}

/// Skips the spaces at `i`, executable form.
fn skip_spaces_exec(s: &str, i: usize) -> (r: usize)
    requires
        i <= s@.len(),
    ensures
        r as int == skip_spaces(s@, i as int),
        i <= r <= s@.len(),
{
    let n = s.unicode_len();
    let mut j: usize = i;
    while j < n
        invariant
            i <= j <= n,
            n == s@.len(),
            skip_spaces(s@, i as int) == skip_spaces(s@, j as int),
        ensures
            i <= j <= n,
            n == s@.len(),
            j as int == skip_spaces(s@, i as int),
        decreases n - j,
    {
        if s.get_char(j) != ' ' {
            break ;
        }
        j += 1;
    }
    j
}

/// Parses one line of the mapping table; `None` for a malformed line.
pub fn parse_line(s: &str) -> (r: Option<MapInfo>)
    ensures
        match r {
            Some(mi) => line_model(s@) == Some(mi@),
            None => line_model(s@) is None,
        },
{
    let n = s.unicode_len();
    let (start64, e1) = match parse_num(s, 0, 16) {
        Some(v) => v,
        None => {
            return None;
        },
    };
    if start64 > usize::MAX as u64 || e1 >= n || s.get_char(e1) != '-' {
        return None;
    }
    let (end64, e2) = match parse_num(s, e1 + 1, 16) {
        Some(v) => v,
        None => {
            return None;
        },
    };
    if end64 > usize::MAX as u64 || n < 6 || e2 > n - 6 || s.get_char(e2) != ' ' || start64
        >= end64 {
        return None;
    }
    let cr = s.get_char(e2 + 1);
    let cw = s.get_char(e2 + 2);
    let cx = s.get_char(e2 + 3);
    let cp = s.get_char(e2 + 4);
    if !((cr == 'r' || cr == '-') && (cw == 'w' || cw == '-') && (cx == 'x' || cx == '-') && (cp
        == 'p' || cp == 's') && s.get_char(e2 + 5) == ' ') {
        return None;
    }
    let (off64, e3) = match parse_num(s, e2 + 6, 16) {
        Some(v) => v,
        None => {
            return None;
        },
    };
    if off64 > usize::MAX as u64 || e3 >= n || s.get_char(e3) != ' ' {
        return None;
    }
    let (major, e4) = match parse_num(s, e3 + 1, 16) {
        Some(v) => v,
        None => {
            return None;
        },
    };
    if e4 >= n || s.get_char(e4) != ':' || major >= 0x1_0000_0000 {
        return None;
    }
    let (minor, e5) = match parse_num(s, e4 + 1, 16) {
        Some(v) => v,
        None => {
            return None;
        },
    };
    if e5 >= n || s.get_char(e5) != ' ' || minor >= 0x1_0000_0000 {
        return None;
    }
    let (inode, e6) = match parse_num(s, e5 + 1, 10) {
        Some(v) => v,
        None => {
            return None;
        },
    };
    if !(e6 == n || s.get_char(e6) == ' ') {
        return None;
    }
    let p = skip_spaces_exec(s, e6);
    let pathname = if p >= n {
        None
    } else {
        Some(s.substring_char(p, n).to_owned())
    };
    Some(
        MapInfo {
            start: start64 as usize,
            end: end64 as usize,
            perms: {
                let mut b: u8 = 0;
                if cr == 'r' {
                    b = b + 1;
                }
                if cw == 'w' {
                    b = b + 2;
                }
                if cx == 'x' {
                    b = b + 4;
                }
                b
            },
            is_private: cp == 'p',
            offset: off64 as usize,
            dev: make_dev_exec(major, minor),
            inode,
            pathname,
        },
    )
}

/// How many characters the line starting at `i` has before its newline or
/// the end of the text.
pub open spec fn line_len(s: Seq<char>, i: int) -> nat
    decreases s.len() - i,
{
    if i < 0 || i >= s.len() {
        0
    } else if s[i] == '\n' {
        0
    } else {
        1 + line_len(s, i + 1)
    }
}

/// The entries spelled by the lines of `s` from position `i` on, in text
/// order, lines of any other shape skipped.
pub open spec fn parse_all(s: Seq<char>, i: int) -> Seq<MapInfoModel>
    decreases s.len() - i,
{
    if i < 0 || i >= s.len() {
        Seq::empty()
    } else {
        let e = i + line_len(s, i);
        let next = if e + 1 <= s.len() {
            e + 1
        } else {
            s.len() as int
        };
        let rest = parse_all(s, next);
        match line_model(s.subrange(i, e)) {
            Some(m) => seq![m] + rest,
            None => rest,
        }
    }
}

/// Where the line starting at `i` ends.
fn find_line_end(s: &str, i: usize) -> (e: usize)
    requires
        i <= s@.len(),
    ensures
        e as int == i + line_len(s@, i as int),
        i <= e <= s@.len(),
{
    let n = s.unicode_len();
    let mut j: usize = i;
    while j < n
        invariant
            i <= j <= n,
            n == s@.len(),
            line_len(s@, i as int) == (j - i) + line_len(s@, j as int),
        ensures
            i <= j <= n,
            n == s@.len(),
            j as int == i + line_len(s@, i as int),
        decreases n - j,
    {
        if s.get_char(j) == '\n' {
            break ;
        }
        j += 1;
    }
    j
}

impl MapInfo {
    /// Builds an entry from its fields.
    pub fn new(
        start: usize,
        end: usize,
        perms: u8,
        is_private: bool,
        offset: usize,
        dev: u64,
        inode: u64,
        pathname: Option<String>,
    ) -> (r: MapInfo)
        ensures
            r.start == start,
            r.end == end,
            r.perms == perms,
            r.is_private == is_private,
            r.offset == offset,
            r.dev == dev,
            r.inode == inode,
            r.pathname == pathname,
    {
        MapInfo { start, end, perms, is_private, offset, dev, inode, pathname }
    }

    /// Parses a whole mapping table: one entry per well-shaped line, in
    /// text order, every other line skipped.
    pub fn parse_maps(text: &str) -> (r: Vec<MapInfo>)
        ensures
            r@.map_values(|m: MapInfo| m@) == parse_all(text@, 0),
            forall|k: int| 0 <= k < r@.len() ==> (#[trigger] r@[k])@.start < r@[k]@.end,
    {
        proof {
            lemma_parse_all_valid(text@, 0);
        }
        let n = text.unicode_len();
        let mut out: Vec<MapInfo> = Vec::new();
        let mut i: usize = 0;
        proof {
            assert(out@.map_values(|m: MapInfo| m@) + parse_all(text@, 0) =~= parse_all(
                text@,
                0,
            ));
        }
        while i < n
            invariant
                n == text@.len(),
                0 <= i,
                parse_all(text@, 0) == out@.map_values(|m: MapInfo| m@) + parse_all(
                    text@,
                    i as int,
                ),
            decreases n - i,
        {
            let e = find_line_end(text, i);
            let line = text.substring_char(i, e);
            let ghost out0 = out@;
            match parse_line(line) {
                Some(mi) => {
                    out.push(mi);
                    proof {
                        assert(out@.map_values(|m: MapInfo| m@) =~= out0.map_values(
                            |m: MapInfo| m@,
                        ).push(mi@));
                    }
                },
                None => {},
            }
            proof {
                let next: int = if e < n {
                    e + 1
                } else {
                    n as int
                };
                assert(line@ == text@.subrange(i as int, i + line_len(text@, i as int)));
                assert(out@.map_values(|m: MapInfo| m@) + parse_all(text@, next) =~= parse_all(
                    text@,
                    0,
                ));
            }
            if e < n {
                i = e + 1;
            } else {
                i = n;
            }
        }
        proof {
            assert forall|k: int| 0 <= k < out@.len() implies (#[trigger] out@[k])@.start
                < out@[k]@.end by {
                assert(out@.map_values(|m: MapInfo| m@)[k] == out@[k]@);
            }
        }
        out
    }

    /// Scans the current process's mapping table.
    pub fn scan_self() -> (r: Result<Vec<MapInfo>, ScanError>)
        ensures
            match r {
                Ok(v) => (exists|text: Seq<char>|
                    v@.map_values(|m: MapInfo| m@) == parse_all(text, 0)) && forall|k: int|
                    0 <= k < v@.len() ==> (#[trigger] v@[k])@.start < v@[k]@.end,
                Err(e) => e == ScanError,
            },
    {
        Self::scan("self")
    }

    /// Scans the mapping table of the process `pid` names ("self" for the
    /// current process): one entry per well-shaped line of the table, in
    /// table order; a snapshot, not a live view.  Fails only when the
    /// table cannot be read at all.
    pub fn scan(pid: &str) -> (r: Result<Vec<MapInfo>, ScanError>)
        ensures
            match r {
                Ok(v) => (exists|text: Seq<char>|
                    v@.map_values(|m: MapInfo| m@) == parse_all(text, 0)) && forall|k: int|
                    0 <= k < v@.len() ==> (#[trigger] v@[k])@.start < v@[k]@.end,
                Err(e) => e == ScanError,
            },
    {
        match read_maps_text(pid) {
            Some(text) => {
                let v = Self::parse_maps(text.as_str());
                proof {
                    let t = text@;
                    assert(v@.map_values(|m: MapInfo| m@) == parse_all(t, 0));
                }
                Ok(v)
            },
            None => Err(ScanError),
        }
    }
}

/// Every entry a parse yields has a non-empty address range: the line
/// grammar admits no other.
pub proof fn lemma_parse_all_valid(s: Seq<char>, i: int)
    ensures
        forall|k: int|
            0 <= k < parse_all(s, i).len() ==> (#[trigger] parse_all(s, i)[k]).start < parse_all(
                s,
                i,
            )[k].end,
    decreases s.len() - i,
{
    if 0 <= i < s.len() {
        let e = i + line_len(s, i);
        let next = if e + 1 <= s.len() {
            e + 1
        } else {
            s.len() as int
        };
        lemma_parse_all_valid(s, next);
    }
}

/// A line never runs past the first newline at or after its start.
proof fn lemma_line_len_le_newline(s: Seq<char>, i: int, q: int)
    requires
        0 <= i <= q < s.len(),
        s[q] == '\n',
    ensures
        i + line_len(s, i) <= q,
    decreases q - i,
{
    if s[i] != '\n' {
        lemma_line_len_le_newline(s, i + 1, q);
    }
}

/// A well-shaped line reachable from position `i` of the walk puts its
/// entry in the walk's result.
proof fn lemma_parse_all_from(s: Seq<char>, i: int, p: int, m: MapInfoModel)
    requires
        0 <= i <= p <= s.len(),
        line_model(s.subrange(p, p + line_len(s, p))) == Some(m),
        i == p || (p >= 1 && s[p - 1] == '\n'),
    ensures
        parse_all(s, i).contains(m),
    decreases p - i,
{
    if p == s.len() {
        assert(s.subrange(p, p + line_len(s, p)) =~= Seq::<char>::empty());
        assert(line_model(Seq::<char>::empty()) is None);
    }
    if i == p {
        let e = i + line_len(s, i);
        let rest = parse_all(
            s,
            if e + 1 <= s.len() {
                e + 1
            } else {
                s.len() as int
            },
        );
        assert(parse_all(s, i) == seq![m] + rest);
        assert(parse_all(s, i)[0] == m);
    } else {
        lemma_line_len_le_newline(s, i, p - 1);
        let e = i + line_len(s, i);
        let next = if e + 1 <= s.len() {
            e + 1
        } else {
            s.len() as int
        };
        assert(next <= p);
        lemma_parse_all_from(s, next, p, m);
        let rest = parse_all(s, next);
        assert(rest.contains(m));
        let k = choose|k: int| 0 <= k < rest.len() && rest[k] == m;
        match line_model(s.subrange(i, e)) {
            Some(m0) => {
                assert(parse_all(s, i) == seq![m0] + rest);
                assert(parse_all(s, i)[k + 1] == m);
            },
            None => {
                assert(parse_all(s, i) == rest);
            },
        }
    }
}

/// Round trip of the scanner: every line of the mapping table that spells
/// an entry — a known-loaded library's line among them — appears as that
/// entry, device and inode faithful, in the parse of the table.
pub proof fn lemma_scan_round_trip(s: Seq<char>, p: int, m: MapInfoModel)
    requires
        0 <= p <= s.len(),
        p == 0 || s[p - 1] == '\n',
        line_model(s.subrange(p, p + line_len(s, p))) == Some(m),
    ensures
        parse_all(s, 0).contains(m),
{
    lemma_parse_all_from(s, 0, p, m);
}

/// Relies on fs_err::read_to_string: reads the named process's mapping
/// table as text; `None` when it cannot be opened or read.
#[verifier::external_body]
fn read_maps_text(pid: &str) -> (r: Option<String>) {
    fs_err::read_to_string(format!("/proc/{}/maps", pid)).ok()
}

} // verus!
