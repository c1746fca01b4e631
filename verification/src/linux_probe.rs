//! Linux sysfs/procfs text parsing for the GB10 Cache Fabric.
use crate::platform::{CacheType, CpuCache, GpuSnapshot, PlatformSnapshot};
use crate::text::{
    all_white_space, chars_of, decimal_chars, decimal_string, in_class, is_blank, is_white_space,
    lemma_scan, parse_u32_chars, parse_u32_spec, parse_u64_chars, parse_u64_spec, same_text, scan,
    scan_exec, skip_space, skip_space_exec, subrange_equals, trim_bounds, trimmed, CharClass,
};
use vstd::prelude::*;
use vstd::string::StrSliceExecFns;

verus! {

/// Failure while reading or validating Linux hardware topology.
#[derive(Debug)]
pub enum ProbeError {
    /// A required sysfs or procfs entry could not be read.
    Io {
        /// Path that could not be read.
        path: String,
        /// Underlying I/O error.
        source: std::io::Error,
    },
    /// A Linux topology value was syntactically or semantically invalid.
    InvalidValue {
        /// Logical field being parsed.
        field: &'static str,
        /// Invalid textual value.
        value: String,
    },
    /// No usable CPU cache objects were discovered.
    NoCaches(String),
}

/// `r` is `InvalidValue` for `field` carrying exactly the text `value`.
pub open spec fn invalid_value<T>(r: Result<T, ProbeError>, field: &'static str, value: Seq<char>) -> bool {
    r matches Err(ProbeError::InvalidValue { field: f, value: v }) && f == field && v@ == value
}

/// CPU/OS/memory facts collected independently of the CUDA device probe.
#[derive(Clone, Debug, PartialEq, Eq)]
pub struct HostProbe {
    /// Rust/Linux architecture string.
    pub arch: String,
    /// Linux kernel release string.
    pub kernel_release: String,
    /// CPU model description reported by `/proc/cpuinfo`.
    pub cpu_model: String,
    /// Online Linux CPU IDs.
    pub online_cpus: Vec<u32>,
    /// De-duplicated physical CPU cache objects.
    pub caches: Vec<CpuCache>,
    /// Physical memory reported by `/proc/meminfo` in bytes.
    pub mem_total_bytes: u64,
    /// Base Linux page size in bytes.
    pub page_size_bytes: u64,
}

impl HostProbe {
    /// Combine already-probed host facts with an independently probed CUDA device snapshot.
    pub fn into_platform_snapshot(self, gpu: GpuSnapshot) -> (r: PlatformSnapshot)
        ensures
            r.arch == self.arch && r.kernel_release == self.kernel_release && r.cpu_model == self.cpu_model,
            r.online_cpus == self.online_cpus && r.caches == self.caches && r.gpu == gpu,
            r.mem_total_bytes == self.mem_total_bytes && r.page_size_bytes == self.page_size_bytes,
    {
        PlatformSnapshot {
            arch: self.arch,
            kernel_release: self.kernel_release,
            cpu_model: self.cpu_model,
            online_cpus: self.online_cpus,
            caches: self.caches,
            gpu,
            mem_total_bytes: self.mem_total_bytes,
            page_size_bytes: self.page_size_bytes,
        }
    }
}

/// The text `s[from..to]` of the string whose characters are `s`, as an owned string.
fn text_between(text: &str, s: &Vec<char>, from: usize, to: usize) -> (r: String)
    requires
        s@ == text@,
        from <= to <= s@.len(),
    ensures
        r@ == s@.subrange(from as int, to as int),
{
    text.substring_char(from, to).to_owned()
}

/// `InvalidValue` for `field` carrying `s[from..to]`.
fn invalid_between(field: &'static str, text: &str, s: &Vec<char>, from: usize, to: usize) -> (r:
    ProbeError)
    requires
        s@ == text@,
        from <= to <= s@.len(),
    ensures
        r matches ProbeError::InvalidValue { field: f, value: v } && f == field && v@ == s@.subrange(
            from as int,
            to as int,
        ),
{
    ProbeError::InvalidValue { field, value: text_between(text, s, from, to) }
}

/// `u32::from_str` of the trimmed text.
pub open spec fn trimmed_u32(s: Seq<char>) -> Option<u32> {
    parse_u32_spec(trimmed(s))
}

/// Parse the trimmed text `s[from..to]` as a `u32`; on failure the error carries `s[from..to]`.
fn parse_u32_between(field: &'static str, text: &str, s: &Vec<char>, from: usize, to: usize) -> (r:
    Result<u32, ProbeError>)
    requires
        s@ == text@,
        from <= to <= s@.len(),
    ensures
        match trimmed_u32(s@.subrange(from as int, to as int)) {
            Some(v) => r == Ok::<u32, ProbeError>(v),
            None => invalid_value(r, field, s@.subrange(from as int, to as int)),
        },
{
    let (lo, hi) = trim_bounds(s, from, to);
    match parse_u32_chars(s, lo, hi) {
        Some(v) => Ok(v),
        None => Err(invalid_between(field, text, s, from, to)),
    }
}

/// Parse a trimmed decimal `u32` topology value.
pub fn parse_u32(field: &'static str, value: &str) -> (r: Result<u32, ProbeError>)
    ensures
        match trimmed_u32(value@) {
            Some(v) => r == Ok::<u32, ProbeError>(v),
            None => invalid_value(r, field, value@),
        },
{
    let s = chars_of(value);
    assert(s@.subrange(0, s@.len() as int) =~= value@);
    parse_u32_between(field, value, &s, 0, s.len())
}

/// One comma-separated CPU-list segment as an inclusive range. `Err(None)`: the whole list is
/// reported; `Err(Some(t))`: the text `t` is reported.
pub open spec fn segment_range(seg: Seq<char>) -> Result<(u32, u32), Option<Seq<char>>> {
    let t = trimmed(seg);
    if t.len() == 0 {
        Err(None)
    } else {
        let d = scan(t, 0, CharClass::Dash);
        if d < t.len() {
            let a = t.take(d);
            let b = t.subrange(d + 1, t.len() as int);
            match trimmed_u32(a) {
                None => Err(Some(a)),
                Some(x) => match trimmed_u32(b) {
                    None => Err(Some(b)),
                    Some(y) => if x > y {
                        Err(None)
                    } else {
                        Ok((x, y))
                    },
                },
            }
        } else {
            match trimmed_u32(t) {
                None => Err(Some(t)),
                Some(x) => Ok((x, x)),
            }
        }
    }
}

/// The ranges of the segments of `v` from `pos` on, or the first segment's failure.
pub open spec fn ranges_from(v: Seq<char>, pos: int) -> Result<Seq<(u32, u32)>, Option<Seq<char>>>
    decreases v.len() - pos,
{
    if pos < 0 || pos > v.len() {
        Ok(Seq::empty())
    } else {
        let c = scan(v, pos, CharClass::Comma);
        match segment_range(v.subrange(pos, c)) {
            Err(e) => Err(e),
            Ok(r) => if c >= v.len() {
                Ok(seq![r])
            } else {
                proof {
                    lemma_scan(v, pos, CharClass::Comma);
                }
                match ranges_from(v, c + 1) {
                    Ok(rs) => Ok(seq![r] + rs),
                    Err(e) => Err(e),
                }
            },
        }
    }
}

/// What a CPU list such as `0-3,8,10-11` denotes: its inclusive ranges, or the text that the
/// error reports.
pub open spec fn cpu_list_ranges(value: Seq<char>) -> Result<Seq<(u32, u32)>, Seq<char>> {
    let v = trimmed(value);
    if v.len() == 0 {
        Err(v)
    } else {
        match ranges_from(v, 0) {
            Ok(rs) => Ok(rs),
            Err(None) => Err(v),
            Err(Some(t)) => Err(t),
        }
    }
}

/// `x` lies in one of the inclusive ranges.
pub open spec fn in_ranges(rs: Seq<(u32, u32)>, x: u32) -> bool {
    exists|i: int| 0 <= i < rs.len() && (#[trigger] rs[i]).0 <= x <= rs[i].1
}

/// Strictly ascending, so sorted without duplicates.
pub open spec fn strictly_ascending(s: Seq<u32>) -> bool {
    forall|i: int, j: int| 0 <= i < j < s.len() ==> s[i] < s[j]
}

/// The CPU IDs of `rs`, ascending and de-duplicated.
fn expand_ranges(rs: &Vec<(u32, u32)>) -> (r: Vec<u32>)
    requires
        forall|i: int| 0 <= i < rs@.len() ==> (#[trigger] rs@[i]).0 <= rs@[i].1,
    ensures
        strictly_ascending(r@),
        forall|x: u32| r@.contains(x) <==> in_ranges(rs@, x),
{
    let mut out: Vec<u32> = Vec::new();
    let mut lo: u64 = 0;
    while lo <= 0xffff_ffff
        invariant
            lo <= 0x1_0000_0000,
            forall|j: int| 0 <= j < rs@.len() ==> (#[trigger] rs@[j]).0 <= rs@[j].1,
            strictly_ascending(out@),
            forall|i: int| 0 <= i < out@.len() ==> out@[i] < lo,
            forall|x: u32| x < lo ==> (out@.contains(x) <==> in_ranges(rs@, x)),
            forall|x: u32| out@.contains(x) ==> x < lo,
        decreases 0x1_0000_0000 - lo,
    {
        let mut best: u64 = 0x1_0000_0000;
        let mut i: usize = 0;
        while i < rs.len()
            invariant
                lo <= 0xffff_ffff,
                i <= rs@.len(),
                forall|j: int| 0 <= j < rs@.len() ==> (#[trigger] rs@[j]).0 <= rs@[j].1,
                best <= 0x1_0000_0000,
                best < 0x1_0000_0000 ==> lo <= best && in_ranges(rs@, best as u32),
                forall|j: int|
                    0 <= j < i && lo <= (#[trigger] rs@[j]).1 ==> best <= rs@[j].0 || best <= lo,
            decreases rs@.len() - i,
        {
            let (s, e) = rs[i];
            if (e as u64) >= lo {
                let cand: u64 = if (s as u64) > lo {
                    s as u64
                } else {
                    lo
                };
                if cand < best {
                    best = cand;
                    assert(rs@[i as int].0 <= best <= rs@[i as int].1);
                }
            }
            i += 1;
        }
        if best == 0x1_0000_0000 {
            proof {
                assert forall|x: u32| out@.contains(x) <==> in_ranges(rs@, x) by {
                    if x >= lo && in_ranges(rs@, x) {
                        let j = choose|j: int| 0 <= j < rs@.len() && (#[trigger] rs@[j]).0 <= x <= rs@[j].1;
                    }
                }
            }
            return out;
        }
        let x = best as u32;
        proof {
            assert forall|y: u32| y < best + 1 implies (out@.push(x).contains(y) <==> in_ranges(rs@, y)) by {
                if y < lo {
                    if out@.push(x).contains(y) && y != x {
                        let k = choose|k: int| 0 <= k < out@.push(x).len() && out@.push(x)[k] == y;
                        assert(out@[k] == y);
                    }
                    if out@.contains(y) {
                        let k = choose|k: int| 0 <= k < out@.len() && out@[k] == y;
                        assert(out@.push(x)[k] == y);
                    }
                } else if y == x {
                    assert(out@.push(x)[out@.len() as int] == y);
                } else {
                    if in_ranges(rs@, y) {
                        let j = choose|j: int| 0 <= j < rs@.len() && (#[trigger] rs@[j]).0 <= y <= rs@[j].1;
                    }
                    if out@.push(x).contains(y) {
                        let k = choose|k: int| 0 <= k < out@.push(x).len() && out@.push(x)[k] == y;
                        if k < out@.len() {
                            assert(out@[k] == y);
                        }
                    }
                }
            }
            assert forall|y: u32| out@.push(x).contains(y) implies y < best + 1 by {
                let k = choose|k: int| 0 <= k < out@.push(x).len() && out@.push(x)[k] == y;
                if k < out@.len() {
                    assert(out@[k] == y);
                }
            }
        }
        out.push(x);
        lo = best + 1;
    }
    proof {
        assert forall|x: u32| out@.contains(x) <==> in_ranges(rs@, x) by {}
    }
    out
}


/// `segment_range` of `s[from..to]`; `Err(None)` asks the caller to report the whole list.
fn segment_range_exec(field: &'static str, text: &str, s: &Vec<char>, from: usize, to: usize) -> (r:
    Result<(u32, u32), Option<ProbeError>>)
    requires
        s@ == text@,
        from <= to <= s@.len(),
    ensures
        match segment_range(s@.subrange(from as int, to as int)) {
            Ok(v) => r == Ok::<(u32, u32), Option<ProbeError>>(v),
            Err(None) => r == Err::<(u32, u32), Option<ProbeError>>(None),
            Err(Some(t)) => r matches Err(Some(ProbeError::InvalidValue { field: f, value: v }))
                && f == field && v@ == t,
        },
{
    let ghost seg = s@.subrange(from as int, to as int);
    let (lo, hi) = trim_bounds(s, from, to);
    let ghost t = s@.subrange(lo as int, hi as int);
    assert(t == trimmed(seg));
    if lo == hi {
        return Err(None);
    }
    let d = scan_exec(s, lo, hi, CharClass::Dash);
    if d < hi {
        assert(t.take(d - lo) =~= s@.subrange(lo as int, d as int));
        assert(t.subrange(d - lo + 1, t.len() as int) =~= s@.subrange(d + 1, hi as int));
        let x = match parse_u32_between(field, text, s, lo, d) {
            Ok(x) => x,
            Err(e) => {
                return Err(Some(e));
            },
        };
        let y = match parse_u32_between(field, text, s, d + 1, hi) {
            Ok(y) => y,
            Err(e) => {
                return Err(Some(e));
            },
        };
        if x > y {
            return Err(None);
        }
        Ok((x, y))
    } else {
        match parse_u32_between(field, text, s, lo, hi) {
            Ok(x) => Ok((x, x)),
            Err(e) => Err(Some(e)),
        }
    }
}

/// Parse a Linux CPU list such as `0-3,8,10-11` into sorted, de-duplicated CPU IDs.
pub fn parse_cpu_list_for(field: &'static str, value: &str) -> (r: Result<Vec<u32>, ProbeError>)
    ensures
        match cpu_list_ranges(value@) {
            Err(t) => invalid_value(r, field, t),
            Ok(rs) => r is Ok && strictly_ascending(r->Ok_0@) && forall|x: u32|
                r->Ok_0@.contains(x) <==> in_ranges(rs, x),
        },
{
    let s = chars_of(value);
    let (lo, hi) = trim_bounds(&s, 0, s.len());
    assert(s@.subrange(0, s@.len() as int) =~= value@);
    let ghost v = s@.subrange(lo as int, hi as int);
    if lo == hi {
        return Err(invalid_between(field, value, &s, lo, hi));
    }
    let mut ranges: Vec<(u32, u32)> = Vec::new();
    let mut pos = lo;
    loop
        invariant
            s@ == value@,
            lo <= pos <= hi <= s@.len(),
            v == s@.subrange(lo as int, hi as int),
            v == trimmed(value@),
            v.len() > 0,
            forall|j: int| 0 <= j < ranges@.len() ==> (#[trigger] ranges@[j]).0 <= ranges@[j].1,
            ranges_from(v, 0) == match ranges_from(v, pos - lo) {
                Ok(rest) => Ok(ranges@ + rest),
                Err(e) => Err(e),
            },
        decreases hi - pos,
    {
        let c = scan_exec(&s, pos, hi, CharClass::Comma);
        proof {
            lemma_scan(v, pos - lo, CharClass::Comma);
            crate::text::lemma_scan_suffix(v, pos - lo, 0, CharClass::Comma);
            assert(v.subrange(pos - lo, v.len() as int) =~= s@.subrange(pos as int, hi as int));
            assert(v.subrange(pos - lo, c - lo) =~= s@.subrange(pos as int, c as int));
            assert(scan(v, pos - lo, CharClass::Comma) == c - lo);
        }
        let range = match segment_range_exec(field, value, &s, pos, c) {
            Ok(range) => range,
            Err(Some(e)) => {
                return Err(e);
            },
            Err(None) => {
                return Err(invalid_between(field, value, &s, lo, hi));
            },
        };
        let ghost prev = ranges@;
        ranges.push(range);
        if c == hi {
            proof {
                assert(ranges_from(v, pos - lo) == Ok::<Seq<(u32, u32)>, Option<Seq<char>>>(seq![range]));
                assert(prev + seq![range] =~= ranges@);
                assert(cpu_list_ranges(value@) == Ok::<Seq<(u32, u32)>, Seq<char>>(ranges@));
            }
            let cpus = expand_ranges(&ranges);
            return Ok(cpus);
        }
        proof {
            match ranges_from(v, c + 1 - lo) {
                Ok(rest) => {
                    assert(prev + (seq![range] + rest) =~= ranges@ + rest);
                },
                Err(_) => {},
            }
        }
        pos = c + 1;
    }
}

/// Parse the `shared_cpu_list` of a cache.
pub fn parse_cpu_list(value: &str) -> (r: Result<Vec<u32>, ProbeError>)
    ensures
        match cpu_list_ranges(value@) {
            Err(t) => invalid_value(r, "shared_cpu_list", t),
            Ok(rs) => r is Ok && strictly_ascending(r->Ok_0@) && forall|x: u32|
                r->Ok_0@.contains(x) <==> in_ranges(rs, x),
        },
{
    parse_cpu_list_for("shared_cpu_list", value)
}


/// What a sysfs cache size such as `64K`, `2M` or `4096` denotes in bytes, or the text that the
/// error reports. A final `K`, `M` or `G` (either case) multiplies by 1024, 1024² or 1024³.
pub open spec fn cache_size_of(value: Seq<char>) -> Result<u64, Seq<char>> {
    let t = trimmed(value);
    if t.len() == 0 {
        Err(t)
    } else {
        let last = t.last();
        let (number, multiplier) = if last == 'K' || last == 'k' {
            (t.drop_last(), 1024nat)
        } else if last == 'M' || last == 'm' {
            (t.drop_last(), 1024nat * 1024)
        } else if last == 'G' || last == 'g' {
            (t.drop_last(), 1024nat * 1024 * 1024)
        } else {
            (t, 1nat)
        };
        match parse_u64_spec(number) {
            None => Err(t),
            Some(base) => if base * multiplier > u64::MAX {
                Err(t)
            } else {
                Ok((base * multiplier) as u64)
            },
        }
    }
}

/// Parse a sysfs cache size in bytes.
pub fn parse_cache_size(value: &str) -> (r: Result<u64, ProbeError>)
    ensures
        match cache_size_of(value@) {
            Ok(v) => r == Ok::<u64, ProbeError>(v),
            Err(t) => invalid_value(r, "cache size", t),
        },
{
    let s = chars_of(value);
    let (lo, hi) = trim_bounds(&s, 0, s.len());
    assert(s@.subrange(0, s@.len() as int) =~= value@);
    let ghost t = s@.subrange(lo as int, hi as int);
    if lo == hi {
        return Err(invalid_between("cache size", value, &s, lo, hi));
    }
    let last = s[hi - 1];
    assert(t.last() == last);
    let (end, multiplier): (usize, u64) = if last == 'K' || last == 'k' {
        (hi - 1, 1024)
    } else if last == 'M' || last == 'm' {
        (hi - 1, 1024 * 1024)
    } else if last == 'G' || last == 'g' {
        (hi - 1, 1024 * 1024 * 1024)
    } else {
        (hi, 1)
    };
    assert(t.drop_last() =~= s@.subrange(lo as int, hi - 1));
    let base = match parse_u64_chars(&s, lo, end) {
        Some(b) => b,
        None => {
            return Err(invalid_between("cache size", value, &s, lo, hi));
        },
    };
    match base.checked_mul(multiplier) {
        Some(v) => Ok(v),
        None => Err(invalid_between("cache size", value, &s, lo, hi)),
    }
}

/// The cache type that sysfs spells `t` (after trimming), if any.
pub open spec fn cache_type_of(t: Seq<char>) -> Option<CacheType> {
    if t == "Data"@ {
        Some(CacheType::Data)
    } else if t == "Instruction"@ {
        Some(CacheType::Instruction)
    } else if t == "Unified"@ {
        Some(CacheType::Unified)
    } else {
        None
    }
}

/// Parse a sysfs cache type.
pub fn parse_cache_type(value: &str) -> (r: Result<CacheType, ProbeError>)
    ensures
        match cache_type_of(trimmed(value@)) {
            Some(c) => r == Ok::<CacheType, ProbeError>(c),
            None => invalid_value(r, "cache type", trimmed(value@)),
        },        trimmed(value@) == "Data"@ ==> r == Ok::<CacheType, ProbeError>(CacheType::Data),
        trimmed(value@) == "Instruction"@ ==> r == Ok::<CacheType, ProbeError>(CacheType::Instruction),
        trimmed(value@) == "Unified"@ ==> r == Ok::<CacheType, ProbeError>(CacheType::Unified),
        r matches Ok(c) ==> trimmed(value@) == (match c {
            CacheType::Data => "Data"@,
            CacheType::Instruction => "Instruction"@,
            CacheType::Unified => "Unified"@,
        }),
{
    let s = chars_of(value);
    let (lo, hi) = trim_bounds(&s, 0, s.len());
    assert(s@.subrange(0, s@.len() as int) =~= value@);
    let t = value.substring_char(lo, hi);
    proof {
        reveal_strlit("Data");
        reveal_strlit("Instruction");
        reveal_strlit("Unified");
        assert("Data"@.len() == 4 && "Instruction"@.len() == 11 && "Unified"@.len() == 7);
        assert("Instruction"@[0] != "Unified"@[0]);
    }
    if same_text(t, "Data") {
        Ok(CacheType::Data)
    } else if same_text(t, "Instruction") {
        Ok(CacheType::Instruction)
    } else if same_text(t, "Unified") {
        Ok(CacheType::Unified)
    } else {
        Err(ProbeError::InvalidValue { field: "cache type", value: t.to_owned() })
    }
}

/// Sort rank of a cache type: instruction, then data, then unified.
pub open spec fn type_rank(t: CacheType) -> u8 {
    match t {
        CacheType::Instruction => 0,
        CacheType::Data => 1,
        CacheType::Unified => 2,
    }
}

/// Sort rank of a cache type: instruction, then data, then unified.
pub fn cache_type_rank(cache_type: CacheType) -> (r: u8)
    ensures
        r == type_rank(cache_type),
{
    match cache_type {
        CacheType::Instruction => 0,
        CacheType::Data => 1,
        CacheType::Unified => 2,
    }
}

/// `name` is `prefix` followed by at least one ASCII digit and nothing else (as `cpu3` or
/// `index0`).
pub open spec fn numbered_name(name: Seq<char>, prefix: Seq<char>) -> bool {
    &&& name.len() > prefix.len()
    &&& name.take(prefix.len() as int) == prefix
    &&& forall|i: int| prefix.len() <= i < name.len() ==> crate::text::is_digit(#[trigger] name[i])
}

/// Whether a directory entry name is `prefix` followed by decimal digits.
pub fn is_numbered_name(name: &str, prefix: &str) -> (r: bool)
    ensures
        r == numbered_name(name@, prefix@),
{
    let n = chars_of(name);
    let p = chars_of(prefix);
    if n.len() <= p.len() {
        return false;
    }
    if !subrange_equals(&n, 0, p.len(), &p) {
        assert(n@.subrange(0, p@.len() as int) =~= n@.take(p@.len() as int));
        return false;
    }
    assert(n@.subrange(0, p@.len() as int) =~= n@.take(p@.len() as int));
    let mut i = p.len();
    while i < n.len()
        invariant
            p@.len() <= i <= n@.len(),
            n@ == name@,
            p@ == prefix@,
            forall|j: int| p@.len() <= j < i ==> crate::text::is_digit(#[trigger] n@[j]),
        decreases n@.len() - i,
    {
        let c = n[i];
        if !('0' <= c && c <= '9') {
            return false;
        }
        i += 1;
    }
    true
}

/// Parse a sysfs cache level: a trimmed `u32` that must fit `u8`.
pub fn parse_cache_level(value: &str) -> (r: Result<u8, ProbeError>)
    ensures
        match trimmed_u32(value@) {
            None => invalid_value(r, "cache level", value@),
            Some(v) => if v <= 255 {
                r == Ok::<u8, ProbeError>(v as u8)
            } else {
                invalid_value(r, "cache level", decimal_chars(v as nat))
            },
        },
{
    let level = parse_u32("cache level", value)?;
    if level > 255 {
        return Err(ProbeError::InvalidValue { field: "cache level", value: decimal_string(level as u64) });
    }
    Ok(level as u8)
}

/// What the host identity checks report, in order: a blank architecture, a blank kernel
/// release, a zero page size.
pub open spec fn host_identity_error(arch: Seq<char>, kernel: Seq<char>, page_size: u64) -> Option<
    (&'static str, Seq<char>),
> {
    if all_white_space(arch) {
        Some(("architecture", arch))
    } else if all_white_space(kernel) {
        Some(("kernel release", kernel))
    } else if page_size == 0 {
        Some(("page size", decimal_chars(0)))
    } else {
        None
    }
}

/// Check the externally supplied host identity facts: architecture, kernel release, page size.
pub fn check_host_identity(arch: &str, kernel_release: &str, page_size_bytes: u64) -> (r: Result<
    (),
    ProbeError,
>)
    ensures
        match host_identity_error(arch@, kernel_release@, page_size_bytes) {
            None => r is Ok,
            Some((field, value)) => invalid_value(r, field, value),
        },        r is Ok <==> (!all_white_space(arch@) && !all_white_space(kernel_release@) && page_size_bytes != 0),
{
    if is_blank(arch) {
        return Err(ProbeError::InvalidValue { field: "architecture", value: arch.to_owned() });
    }
    if is_blank(kernel_release) {
        return Err(ProbeError::InvalidValue { field: "kernel release", value: kernel_release.to_owned() });
    }
    if page_size_bytes == 0 {
        return Err(ProbeError::InvalidValue { field: "page size", value: decimal_string(0) });
    }
    Ok(())
}


/// End of the text of the line starting at `pos` (`str::lines`): the next line feed, less one
/// carriage return right before it.
pub open spec fn line_stop(s: Seq<char>, pos: int) -> int {
    let n = scan(s, pos, CharClass::Newline);
    if n < s.len() && n > pos && s[n - 1] == '\r' {
        n - 1
    } else {
        n
    }
}

/// The value of `key: value` in `line` when the trimmed key is `key` and the trimmed value is
/// non-empty.
pub open spec fn key_value(line: Seq<char>, key: Seq<char>) -> Option<Seq<char>> {
    let c = scan(line, 0, CharClass::Colon);
    if c >= line.len() {
        None
    } else if trimmed(line.take(c)) == key && trimmed(line.subrange(c + 1, line.len() as int)).len() > 0 {
        Some(trimmed(line.subrange(c + 1, line.len() as int)))
    } else {
        None
    }
}

/// The value of the first line, from the line starting at `pos` on, that holds `key`.
pub open spec fn value_for_key(s: Seq<char>, pos: int, key: Seq<char>) -> Option<Seq<char>>
    decreases s.len() - pos,
{
    if pos < 0 || pos >= s.len() {
        None
    } else {
        match key_value(s.subrange(pos, line_stop(s, pos)), key) {
            Some(v) => Some(v),
            None => {
                let n = scan(s, pos, CharClass::Newline);
                if n >= s.len() {
                    None
                } else {
                    proof {
                        lemma_scan(s, pos, CharClass::Newline);
                    }
                    value_for_key(s, n + 1, key)
                }
            },
        }
    }
}

/// The CPU model of a `/proc/cpuinfo` text: the first of the keys `model name`, `Model`,
/// `Processor`, `Hardware` that some line gives a value.
pub open spec fn cpu_model_of(cpuinfo: Seq<char>) -> Option<Seq<char>> {
    match value_for_key(cpuinfo, 0, "model name"@) {
        Some(v) => Some(v),
        None => match value_for_key(cpuinfo, 0, "Model"@) {
            Some(v) => Some(v),
            None => match value_for_key(cpuinfo, 0, "Processor"@) {
                Some(v) => Some(v),
                None => value_for_key(cpuinfo, 0, "Hardware"@),
            },
        },
    }
}

/// Bounds of the line starting at `pos`: its stop and the next line feed.
fn line_bounds(s: &Vec<char>, pos: usize) -> (r: (usize, usize))
    requires
        pos < s@.len(),
    ensures
        r.0 == line_stop(s@, pos as int),
        r.1 == scan(s@, pos as int, CharClass::Newline),
        pos <= r.0 <= r.1 <= s@.len(),
{
    let n = scan_exec(s, pos, s.len(), CharClass::Newline);
    proof {
        crate::text::lemma_scan_suffix(s@, pos as int, 0, CharClass::Newline);
        assert(s@.subrange(pos as int, s@.len() as int) =~= s@.subrange(pos as int, s@.len() as int));
        lemma_scan(s@, pos as int, CharClass::Newline);
    }
    if n < s.len() && n > pos && s[n - 1] == '\r' {
        (n - 1, n)
    } else {
        (n, n)
    }
}

/// Bounds of `value_for_key(s, 0, key)` in `s`.
fn find_key_value(s: &Vec<char>, key: &Vec<char>) -> (r: Option<(usize, usize)>)
    ensures
        match value_for_key(s@, 0, key@) {
            Some(v) => r matches Some((lo, hi)) && lo <= hi <= s@.len() && s@.subrange(lo as int, hi as int) == v,
            None => r is None,
        },
{
    let mut pos: usize = 0;
    while pos < s.len()
        invariant
            pos <= s@.len(),
            value_for_key(s@, 0, key@) == value_for_key(s@, pos as int, key@),
        decreases s@.len() - pos,
    {
        let (stop, n) = line_bounds(s, pos);
        let ghost line = s@.subrange(pos as int, stop as int);
        let c = scan_exec(s, pos, stop, CharClass::Colon);
        if c < stop {
            let (klo, khi) = trim_bounds(s, pos, c);
            let (vlo, vhi) = trim_bounds(s, c + 1, stop);
            proof {
                assert(line.take(c - pos) =~= s@.subrange(pos as int, c as int));
                assert(line.subrange(c - pos + 1, line.len() as int) =~= s@.subrange(c + 1, stop as int));
            }
            if subrange_equals(s, klo, khi, key) && vlo < vhi {
                return Some((vlo, vhi));
            }
        }
        if n >= s.len() {
            return None;
        }
        pos = n + 1;
    }
    None
}

/// Parse the CPU model from `/proc/cpuinfo` text.
pub fn parse_cpu_model(cpuinfo: &str) -> (r: Result<String, ProbeError>)
    ensures
        match cpu_model_of(cpuinfo@) {
            Some(v) => r matches Ok(m) && m@ == v,
            None => invalid_value(r, "CPU model", "missing from /proc/cpuinfo"@),
        },
{
    let s = chars_of(cpuinfo);
    let keys = ["model name", "Model", "Processor", "Hardware"];
    let mut k: usize = 0;
    while k < 4
        invariant
            s@ == cpuinfo@,
            k <= 4,
            keys@ == seq!["model name", "Model", "Processor", "Hardware"],
            cpu_model_of(cpuinfo@) == (if k == 0 {
                cpu_model_of(cpuinfo@)
            } else if k == 1 {
                match value_for_key(cpuinfo@, 0, "Model"@) {
                    Some(v) => Some(v),
                    None => match value_for_key(cpuinfo@, 0, "Processor"@) {
                        Some(v) => Some(v),
                        None => value_for_key(cpuinfo@, 0, "Hardware"@),
                    },
                }
            } else if k == 2 {
                match value_for_key(cpuinfo@, 0, "Processor"@) {
                    Some(v) => Some(v),
                    None => value_for_key(cpuinfo@, 0, "Hardware"@),
                }
            } else if k == 3 {
                value_for_key(cpuinfo@, 0, "Hardware"@)
            } else {
                None
            }),
        decreases 4 - k,
    {
        let key = chars_of(keys[k]);
        match find_key_value(&s, &key) {
            Some((lo, hi)) => {
                return Ok(text_between(cpuinfo, &s, lo, hi));
            },
            None => {},
        }
        k += 1;
    }
    Err(ProbeError::InvalidValue { field: "CPU model", value: "missing from /proc/cpuinfo".to_owned() })
}


/// The marker of the total-memory line of `/proc/meminfo`.
pub open spec fn mem_total_marker() -> Seq<char> {
    "MemTotal:"@
}

/// The byte count that a `MemTotal:` line's remainder `rest` gives: exactly two white-space
/// separated fields, a `u64` number of KiB and `kB`, with the byte count fitting `u64`.
pub open spec fn mem_total_fields(rest: Seq<char>) -> Option<u64> {
    let t1 = skip_space(rest, 0);
    let e1 = scan(rest, t1, CharClass::Space);
    let t2 = skip_space(rest, e1);
    let e2 = scan(rest, t2, CharClass::Space);
    if t1 >= rest.len() || t2 >= rest.len() || skip_space(rest, e2) < rest.len() {
        None
    } else if rest.subrange(t2, e2) != "kB"@ {
        None
    } else {
        match parse_u64_spec(rest.subrange(t1, e1)) {
            None => None,
            Some(kib) => if kib * 1024 > u64::MAX {
                None
            } else {
                Some((kib * 1024) as u64)
            },
        }
    }
}

/// The first `MemTotal:` line from the line starting at `pos` on: its byte count, or the line's
/// text when it is malformed. `None` when no line starts with the marker.
pub open spec fn mem_total_from(s: Seq<char>, pos: int) -> Option<Result<u64, Seq<char>>>
    decreases s.len() - pos,
{
    if pos < 0 || pos >= s.len() {
        None
    } else {
        let line = s.subrange(pos, line_stop(s, pos));
        if line.len() >= 9 && line.take(9) == mem_total_marker() {
            match mem_total_fields(line.subrange(9, line.len() as int)) {
                Some(v) => Some(Ok(v)),
                None => Some(Err(line)),
            }
        } else {
            let n = scan(s, pos, CharClass::Newline);
            if n >= s.len() {
                None
            } else {
                proof {
                    lemma_scan(s, pos, CharClass::Newline);
                }
                mem_total_from(s, n + 1)
            }
        }
    }
}

/// `mem_total_fields` of `s[from..to]`.
fn mem_total_fields_exec(s: &Vec<char>, from: usize, to: usize) -> (r: Option<u64>)
    requires
        from <= to <= s@.len(),
    ensures
        r == mem_total_fields(s@.subrange(from as int, to as int)),
{
    let ghost rest = s@.subrange(from as int, to as int);
    let t1 = skip_space_exec(s, from, to);
    proof {
        crate::text::lemma_skip_space(rest, 0);
    }
    if t1 >= to {
        return None;
    }
    let e1 = scan_exec(s, t1, to, CharClass::Space);
    proof {
        crate::text::lemma_scan_suffix(rest, t1 - from, 0, CharClass::Space);
        assert(rest.subrange(t1 - from, rest.len() as int) =~= s@.subrange(t1 as int, to as int));
        lemma_scan(rest, t1 - from, CharClass::Space);
    }
    let t2 = skip_space_exec(s, e1, to);
    proof {
        crate::text::lemma_skip_space_suffix(rest, e1 - from, 0);
        assert(rest.subrange(e1 - from, rest.len() as int) =~= s@.subrange(e1 as int, to as int));
    }
    if t2 >= to {
        return None;
    }
    let e2 = scan_exec(s, t2, to, CharClass::Space);
    proof {
        crate::text::lemma_scan_suffix(rest, t2 - from, 0, CharClass::Space);
        assert(rest.subrange(t2 - from, rest.len() as int) =~= s@.subrange(t2 as int, to as int));
        lemma_scan(rest, t2 - from, CharClass::Space);
    }
    let t3 = skip_space_exec(s, e2, to);
    proof {
        crate::text::lemma_skip_space_suffix(rest, e2 - from, 0);
        assert(rest.subrange(e2 - from, rest.len() as int) =~= s@.subrange(e2 as int, to as int));
    }
    if t3 < to {
        return None;
    }
    let kb = chars_of("kB");
    proof {
        reveal_strlit("kB");
    }
    assert(rest.subrange(t2 - from, e2 - from) =~= s@.subrange(t2 as int, e2 as int));
    if !subrange_equals(s, t2, e2, &kb) {
        return None;
    }
    assert(rest.subrange(t1 - from, e1 - from) =~= s@.subrange(t1 as int, e1 as int));
    match parse_u64_chars(s, t1, e1) {
        None => None,
        Some(kib) => kib.checked_mul(1024),
    }
}

/// Parse total physical memory in bytes from `/proc/meminfo` text.
pub fn parse_mem_total_bytes(meminfo: &str) -> (r: Result<u64, ProbeError>)
    ensures
        match mem_total_from(meminfo@, 0) {
            Some(Ok(v)) => r == Ok::<u64, ProbeError>(v),
            Some(Err(line)) => invalid_value(r, "MemTotal", line),
            None => invalid_value(r, "MemTotal", "missing from /proc/meminfo"@),
        },
{
    let s = chars_of(meminfo);
    let marker = chars_of("MemTotal:");
    proof {
        reveal_strlit("MemTotal:");
    }
    let mut pos: usize = 0;
    while pos < s.len()
        invariant
            s@ == meminfo@,
            marker@ == mem_total_marker(),
            pos <= s@.len(),
            mem_total_from(s@, 0) == mem_total_from(s@, pos as int),
        decreases s@.len() - pos,
    {
        let (stop, n) = line_bounds(&s, pos);
        let ghost line = s@.subrange(pos as int, stop as int);
        if stop - pos >= 9 && subrange_equals(&s, pos, pos + 9, &marker) {
            assert(line.take(9) =~= s@.subrange(pos as int, pos + 9));
            assert(line.subrange(9, line.len() as int) =~= s@.subrange(pos + 9, stop as int));
            return match mem_total_fields_exec(&s, pos + 9, stop) {
                Some(v) => Ok(v),
                None => Err(invalid_between("MemTotal", meminfo, &s, pos, stop)),
            };
        }
        proof {
            if line.len() >= 9 {
                assert(line.take(9) =~= s@.subrange(pos as int, pos + 9));
            }
        }
        if n >= s.len() {
            return Err(
                ProbeError::InvalidValue {
                    field: "MemTotal",
                    value: "missing from /proc/meminfo".to_owned(),
                },
            );
        }
        pos = n + 1;
    }
    Err(ProbeError::InvalidValue { field: "MemTotal", value: "missing from /proc/meminfo".to_owned() })
}


/// `cpus` lists, ascending and once each, exactly the CPUs of the ranges `rs`.
pub open spec fn lists_ranges(cpus: Seq<u32>, rs: Seq<(u32, u32)>) -> bool {
    strictly_ascending(cpus) && forall|x: u32| cpus.contains(x) <==> in_ranges(rs, x)
}

/// What building a host probe from what reading its files gave returns, in the order the
/// files are read: the identity facts, the online CPU list, the CPU model, the memory total,
/// then the cache tree; `r` is the first failure or the probe those facts give.
pub open spec fn host_probe_outcome(
    arch: Seq<char>,
    kernel_release: Seq<char>,
    page_size_bytes: u64,
    online: Result<String, ProbeError>,
    cpuinfo: Result<String, ProbeError>,
    meminfo: Result<String, ProbeError>,
    caches: Result<Vec<CpuCache>, ProbeError>,
    r: Result<HostProbe, ProbeError>,
) -> bool {
    match host_identity_error(arch, kernel_release, page_size_bytes) {
        Some((field, value)) => invalid_value(r, field, value),
        None => match online {
            Err(e) => r == Err::<HostProbe, ProbeError>(e),
            Ok(o) => match cpu_list_ranges(o@) {
                Err(t) => invalid_value(r, "online CPUs", t),
                Ok(rs) => match cpuinfo {
                    Err(e) => r == Err::<HostProbe, ProbeError>(e),
                    Ok(c) => match cpu_model_of(c@) {
                        None => invalid_value(r, "CPU model", "missing from /proc/cpuinfo"@),
                        Some(model) => match meminfo {
                            Err(e) => r == Err::<HostProbe, ProbeError>(e),
                            Ok(m) => match mem_total_from(m@, 0) {
                                None => invalid_value(r, "MemTotal", "missing from /proc/meminfo"@),
                                Some(Err(line)) => invalid_value(r, "MemTotal", line),
                                Some(Ok(total)) => match caches {
                                    Err(e) => r == Err::<HostProbe, ProbeError>(e),
                                    Ok(cs) => r matches Ok(h) && h.arch@ == arch && h.kernel_release@
                                        == kernel_release && h.cpu_model@ == model && lists_ranges(
                                        h.online_cpus@,
                                        rs,
                                    ) && h.caches == cs && h.mem_total_bytes == total
                                        && h.page_size_bytes == page_size_bytes,
                                },
                            },
                        },
                    },
                },
            },
        },
    }
}

/// Build a host probe from what reading each Linux file gave (its trimmed text, or the read
/// failure), checking the facts in the order the files are read.
pub fn host_probe_from_texts(
    arch: &str,
    kernel_release: &str,
    page_size_bytes: u64,
    online: Result<String, ProbeError>,
    cpuinfo: Result<String, ProbeError>,
    meminfo: Result<String, ProbeError>,
    caches: Result<Vec<CpuCache>, ProbeError>,
) -> (r: Result<HostProbe, ProbeError>)
    ensures
        host_probe_outcome(arch@, kernel_release@, page_size_bytes, online, cpuinfo, meminfo, caches, r),
{
    check_host_identity(arch, kernel_release, page_size_bytes)?;
    let online_text = match online {
        Ok(t) => t,
        Err(e) => {
            return Err(e);
        },
    };
    let online_cpus = parse_cpu_list_for("online CPUs", online_text.as_str())?;
    let cpuinfo_text = match cpuinfo {
        Ok(t) => t,
        Err(e) => {
            return Err(e);
        },
    };
    let cpu_model = parse_cpu_model(cpuinfo_text.as_str())?;
    let meminfo_text = match meminfo {
        Ok(t) => t,
        Err(e) => {
            return Err(e);
        },
    };
    let mem_total_bytes = parse_mem_total_bytes(meminfo_text.as_str())?;
    let caches = match caches {
        Ok(c) => c,
        Err(e) => {
            return Err(e);
        },
    };
    Ok(
        HostProbe {
            arch: arch.to_owned(),
            kernel_release: kernel_release.to_owned(),
            cpu_model,
            online_cpus,
            caches,
            mem_total_bytes,
            page_size_bytes,
        },
    )
}

/// Two cache descriptors describe the same physical cache (every field equal).
pub open spec fn same_cache(a: CpuCache, b: CpuCache) -> bool {
    &&& a.level == b.level
    &&& a.cache_type == b.cache_type
    &&& a.size_bytes == b.size_bytes
    &&& a.line_bytes == b.line_bytes
    &&& a.shared_cpu_ids@ == b.shared_cpu_ids@
}

/// The caches in discovery order, each physical cache kept at its first report only.
pub open spec fn dedup_caches(s: Seq<CpuCache>) -> Seq<CpuCache>
    decreases s.len(),
{
    if s.len() == 0 {
        s
    } else {
        let d = dedup_caches(s.drop_last());
        if exists|i: int| 0 <= i < d.len() && same_cache(#[trigger] d[i], s.last()) {
            d
        } else {
            d.push(s.last())
        }
    }
}

/// Lexicographic order of CPU-ID lists (as `Vec<u32>` orders them).
pub open spec fn ids_less(a: Seq<u32>, b: Seq<u32>) -> bool
    decreases a.len(),
{
    if a.len() == 0 {
        b.len() > 0
    } else if b.len() == 0 {
        false
    } else if a[0] != b[0] {
        a[0] < b[0]
    } else {
        ids_less(a.drop_first(), b.drop_first())
    }
}

/// The canonical cache order: by level, then type rank, then sharing CPUs, then size.
pub open spec fn cache_less(a: CpuCache, b: CpuCache) -> bool {
    if a.level != b.level {
        a.level < b.level
    } else if type_rank(a.cache_type) != type_rank(b.cache_type) {
        type_rank(a.cache_type) < type_rank(b.cache_type)
    } else if a.shared_cpu_ids@ != b.shared_cpu_ids@ {
        ids_less(a.shared_cpu_ids@, b.shared_cpu_ids@)
    } else {
        a.size_bytes < b.size_bytes
    }
}

/// Where `c` is inserted: before the first cache that `c` precedes, or at the end.
pub open spec fn insert_position(sorted: Seq<CpuCache>, c: CpuCache, from: int) -> int
    decreases sorted.len() - from,
{
    if from >= sorted.len() {
        sorted.len() as int
    } else if cache_less(c, sorted[from]) {
        from
    } else {
        insert_position(sorted, c, from + 1)
    }
}

/// Stable insertion sort of `s` by `cache_less` (equal keys keep their order).
pub open spec fn sorted_caches(s: Seq<CpuCache>) -> Seq<CpuCache>
    decreases s.len(),
{
    if s.len() == 0 {
        s
    } else {
        let d = sorted_caches(s.drop_last());
        let p = insert_position(d, s.last(), 0);
        d.insert(if 0 <= p <= d.len() { p } else { d.len() as int }, s.last())
    }
}

/// Whether two CPU-ID lists are equal.
fn same_ids(a: &[u32], b: &[u32]) -> (r: bool)
    ensures
        r == (a@ == b@),
{
    if a.len() != b.len() {
        return false;
    }
    let mut i: usize = 0;
    while i < a.len()
        invariant
            i <= a@.len(),
            a@.len() == b@.len(),
            forall|j: int| 0 <= j < i ==> a@[j] == b@[j],
        decreases a@.len() - i,
    {
        if a[i] != b[i] {
            return false;
        }
        i += 1;
    }
    assert(a@ =~= b@);
    true
}

/// Whether `a` precedes `b` lexicographically.
fn ids_less_exec(a: &[u32], b: &[u32]) -> (r: bool)
    ensures
        r == ids_less(a@, b@),
{
    let mut i: usize = 0;
    assert(a@.skip(0) =~= a@);
    assert(b@.skip(0) =~= b@);
    while i < a.len() && i < b.len() && a[i] == b[i]
        invariant
            i <= a@.len(),
            i <= b@.len(),
            ids_less(a@, b@) == ids_less(a@.skip(i as int), b@.skip(i as int)),
        decreases a@.len() - i,
    {
        assert(a@.skip(i as int).drop_first() =~= a@.skip(i + 1));
        assert(b@.skip(i as int).drop_first() =~= b@.skip(i + 1));
        i += 1;
    }
    if i == a.len() {
        i < b.len()
    } else if i == b.len() {
        false
    } else {
        assert(a@.skip(i as int)[0] == a@[i as int]);
        assert(b@.skip(i as int)[0] == b@[i as int]);
        a[i] < b[i]
    }
}

/// Whether `a` precedes `b` in the canonical cache order.
fn cache_less_exec(a: &CpuCache, b: &CpuCache) -> (r: bool)
    ensures
        r == cache_less(*a, *b),
{
    if a.level != b.level {
        return a.level < b.level;
    }
    let ra = cache_type_rank(a.cache_type);
    let rb = cache_type_rank(b.cache_type);
    if ra != rb {
        return ra < rb;
    }
    if !same_ids(a.shared_cpu_ids.as_slice(), b.shared_cpu_ids.as_slice()) {
        return ids_less_exec(a.shared_cpu_ids.as_slice(), b.shared_cpu_ids.as_slice());
    }
    a.size_bytes < b.size_bytes
}

/// Whether two descriptors describe the same cache.
fn same_cache_exec(a: &CpuCache, b: &CpuCache) -> (r: bool)
    ensures
        r == same_cache(*a, *b),
{
    a.level == b.level && a.cache_type == b.cache_type && a.size_bytes == b.size_bytes && a.line_bytes
        == b.line_bytes && same_ids(a.shared_cpu_ids.as_slice(), b.shared_cpu_ids.as_slice())
}

/// Each physical cache once, in the canonical order; `NoCaches(root)` when none was found.
pub fn finish_cache_tree(found: Vec<CpuCache>, root: String) -> (r: Result<Vec<CpuCache>, ProbeError>)
    ensures
        dedup_caches(found@).len() == 0 ==> (r matches Err(ProbeError::NoCaches(x)) && x == root),
        dedup_caches(found@).len() > 0 ==> (r matches Ok(v) && v@ == sorted_caches(dedup_caches(found@))),
{
    let ghost all = found@;
    let total = found.len();
    let mut rest = found;
    let mut kept: Vec<CpuCache> = Vec::new();
    let mut i: usize = 0;
    while rest.len() > 0
        invariant
            i <= all.len(),
            total == all.len(),
            rest@ == all.skip(i as int),
            kept@ == dedup_caches(all.take(i as int)),
        decreases rest@.len(),
    {
        let c = rest.remove(0);
        assert(all.take(i + 1).drop_last() =~= all.take(i as int));
        assert(all.skip(i as int)[0] == all[i as int]);
        assert(rest@ =~= all.skip(i + 1));
        let mut j: usize = 0;
        let mut seen = false;
        while j < kept.len()
            invariant
                j <= kept@.len(),
                seen == exists|m: int| 0 <= m < j && same_cache(#[trigger] kept@[m], c),
            decreases kept@.len() - j,
        {
            if same_cache_exec(&kept[j], &c) {
                seen = true;
            }
            j += 1;
        }
        if !seen {
            kept.push(c);
        }
        i += 1;
    }
    assert(all.take(i as int) =~= all);
    if kept.len() == 0 {
        return Err(ProbeError::NoCaches(root));
    }
    let ghost deduped = kept@;
    let kept_len = kept.len();
    let mut sorted: Vec<CpuCache> = Vec::new();
    let mut k: usize = 0;
    while kept.len() > 0
        invariant
            k <= deduped.len(),
            kept_len == deduped.len(),
            kept@ == deduped.skip(k as int),
            sorted@ == sorted_caches(deduped.take(k as int)),
        decreases kept@.len(),
    {
        let c = kept.remove(0);
        assert(deduped.take(k + 1).drop_last() =~= deduped.take(k as int));
        assert(deduped.skip(k as int)[0] == deduped[k as int]);
        assert(kept@ =~= deduped.skip(k + 1));
        let mut p: usize = 0;
        while p < sorted.len() && !cache_less_exec(&c, &sorted[p])
            invariant
                p <= sorted@.len(),
                insert_position(sorted@, c, 0) == insert_position(sorted@, c, p as int),
            decreases sorted@.len() - p,
        {
            p += 1;
        }
        proof {
            lemma_insert_position(sorted@, c, 0);
        }
        sorted.insert(p, c);
        k += 1;
    }
    assert(deduped.take(k as int) =~= deduped);
    Ok(sorted)
}

proof fn lemma_insert_position(sorted: Seq<CpuCache>, c: CpuCache, from: int)
    requires
        0 <= from <= sorted.len(),
    ensures
        from <= insert_position(sorted, c, from) <= sorted.len(),
    decreases sorted.len() - from,
{
    if from < sorted.len() && !cache_less(c, sorted[from]) {
        lemma_insert_position(sorted, c, from + 1);
    }
}


/// Some entry of `d` describes the same cache as `c`.
pub open spec fn covers(d: Seq<CpuCache>, c: CpuCache) -> bool {
    exists|j: int| 0 <= j < d.len() && same_cache(#[trigger] d[j], c)
}

/// No two entries of `d` describe the same cache.
pub open spec fn no_repeats(d: Seq<CpuCache>) -> bool {
    forall|i: int, j: int| 0 <= i < j < d.len() ==> !same_cache(#[trigger] d[i], #[trigger] d[j])
}

/// Keeping each cache at its first report keeps no cache twice, drops none, and invents none.
proof fn lemma_dedup_caches(s: Seq<CpuCache>)
    ensures
        no_repeats(dedup_caches(s)),
        forall|i: int| 0 <= i < s.len() ==> covers(dedup_caches(s), #[trigger] s[i]),
        forall|j: int| 0 <= j < dedup_caches(s).len() ==> s.contains(#[trigger] dedup_caches(s)[j]),
    decreases s.len(),
{
    if s.len() > 0 {
        let p = s.drop_last();
        let x = s.last();
        let d = dedup_caches(p);
        lemma_dedup_caches(p);
        assert forall|i: int| 0 <= i < s.len() - 1 implies covers(d, #[trigger] s[i]) by {
            assert(s[i] == p[i]);
        }
        assert forall|j: int| 0 <= j < d.len() implies s.contains(#[trigger] d[j]) by {
            assert(p.contains(d[j]));
            let k = choose|k: int| 0 <= k < p.len() && p[k] == d[j];
            assert(s[k] == p[k]);
        }
        if !covers(d, x) {
            let e = d.push(x);
            assert(e[d.len() as int] == x);
            assert(covers(e, x));
            assert forall|i: int| 0 <= i < s.len() implies covers(e, #[trigger] s[i]) by {
                if i < s.len() - 1 {
                    assert(covers(d, s[i]));
                    let j = choose|j: int| 0 <= j < d.len() && same_cache(#[trigger] d[j], s[i]);
                    assert(e[j] == d[j]);
                }
            }
            assert forall|j: int| 0 <= j < e.len() implies s.contains(#[trigger] e[j]) by {
                if j < d.len() {
                    assert(e[j] == d[j]);
                    assert(s.contains(d[j]));
                } else {
                    assert(s[s.len() - 1] == x);
                }
            }
            assert forall|i: int, j: int| 0 <= i < j < e.len() implies !same_cache(#[trigger] e[i], #[trigger] e[j]) by {
                if j < d.len() {
                    assert(e[i] == d[i] && e[j] == d[j]);
                } else {
                    assert(e[i] == d[i]);
                    if same_cache(d[i], x) {
                        assert(covers(d, x));
                    }
                }
            }
        } else {
            assert(covers(d, s[s.len() - 1]));
        }
    }
}

/// Sorting keeps exactly the caches it was given.
proof fn lemma_sorted_caches_multiset(s: Seq<CpuCache>)
    ensures
        sorted_caches(s).to_multiset() == s.to_multiset(),
    decreases s.len(),
{
    broadcast use vstd::seq_lib::to_multiset_insert, vstd::seq_lib::to_multiset_build;

    if s.len() > 0 {
        let p = s.drop_last();
        lemma_sorted_caches_multiset(p);
        let d = sorted_caches(p);
        let pos = insert_position(d, s.last(), 0);
        lemma_insert_position(d, s.last(), 0);
        assert(s == p.push(s.last()));
        assert(d.insert(pos, s.last()).to_multiset() == d.to_multiset().insert(s.last()));
    }
}

/// A permutation of `d` covers what `d` covers.
proof fn lemma_permutation_covers(d: Seq<CpuCache>, v: Seq<CpuCache>, c: CpuCache)
    requires
        v.to_multiset() == d.to_multiset(),
        covers(d, c),
    ensures
        covers(v, c),
{
    broadcast use vstd::seq_lib::to_multiset_contains;

    let j = choose|j: int| 0 <= j < d.len() && same_cache(#[trigger] d[j], c);
    assert(d.contains(d[j]));
    assert(d.to_multiset().count(d[j]) > 0);
    assert(v.to_multiset().count(d[j]) > 0);
    let k = choose|k: int| 0 <= k < v.len() && v[k] == d[j];
    assert(same_cache(v[k], c));
}

/// Every entry of a permutation of `d` is an entry of `d`.
proof fn lemma_permutation_member(d: Seq<CpuCache>, v: Seq<CpuCache>, j: int) -> (m: int)
    requires
        v.to_multiset() == d.to_multiset(),
        0 <= j < v.len(),
    ensures
        0 <= m < d.len(),
        d[m] == v[j],
{
    broadcast use vstd::seq_lib::to_multiset_contains;

    assert(v.contains(v[j]));
    assert(v.to_multiset().count(v[j]) > 0);
    assert(d.to_multiset().count(v[j]) > 0);
    choose|m: int| 0 <= m < d.len() && d[m] == v[j]
}

/// A permutation of a list without repeats has none.
proof fn lemma_permutation_no_repeats(d: Seq<CpuCache>, v: Seq<CpuCache>)
    requires
        v.to_multiset() == d.to_multiset(),
        no_repeats(d),
    ensures
        no_repeats(v),
{
    assert forall|i: int, j: int| 0 <= i < j < v.len() implies !same_cache(#[trigger] v[i], #[trigger] v[j]) by {
        if same_cache(v[i], v[j]) {
            let a = lemma_permutation_member(d, v, i);
            if v[i] == v[j] {
                lemma_two_positions_count(v, i, j);
                let b = lemma_second_position(d, a);
                if a < b {
                    assert(!same_cache(d[a], d[b]));
                } else {
                    assert(!same_cache(d[b], d[a]));
                }
            } else {
                let b = lemma_permutation_member(d, v, j);
                if a < b {
                    assert(!same_cache(d[a], d[b]));
                } else {
                    assert(!same_cache(d[b], d[a]));
                }
            }
        }
    }
}

/// A finished cache tree lists each physical cache exactly once: every reported cache is
/// listed (as the same cache), everything listed was reported, and no cache is listed twice.
pub proof fn law_cache_tree_lists_each_cache_once(found: Seq<CpuCache>)
    ensures
        forall|i: int| 0 <= i < found.len() ==> covers(sorted_caches(dedup_caches(found)), #[trigger] found[i]),
        forall|j: int|
            0 <= j < sorted_caches(dedup_caches(found)).len() ==> found.contains(
                #[trigger] sorted_caches(dedup_caches(found))[j],
            ),
        no_repeats(sorted_caches(dedup_caches(found))),
{
    let d = dedup_caches(found);
    let v = sorted_caches(d);
    lemma_dedup_caches(found);
    lemma_sorted_caches_multiset(d);
    assert forall|i: int| 0 <= i < found.len() implies covers(v, #[trigger] found[i]) by {
        lemma_permutation_covers(d, v, found[i]);
    }
    assert forall|j: int| 0 <= j < v.len() implies found.contains(#[trigger] v[j]) by {
        let m = lemma_permutation_member(d, v, j);
        assert(found.contains(d[m]));
    }
    lemma_permutation_no_repeats(d, v);
}

/// A value found at two positions occurs at least twice.
proof fn lemma_two_positions_count(v: Seq<CpuCache>, i: int, j: int)
    requires
        0 <= i < j < v.len(),
        v[i] == v[j],
    ensures
        v.to_multiset().count(v[i]) >= 2,
{
    broadcast use vstd::seq_lib::to_multiset_contains, vstd::seq_lib::to_multiset_remove,
        vstd::multiset::group_multiset_axioms;

    let r = v.remove(i);
    assert(r[j - 1] == v[j]);
    assert(r.contains(v[i]));
    assert(r.to_multiset().count(v[i]) > 0);
    assert(r.to_multiset() == v.to_multiset().remove(v[i]));
}

/// A value that occurs at least twice occurs at a second position.
proof fn lemma_second_position(d: Seq<CpuCache>, a: int) -> (b: int)
    requires
        0 <= a < d.len(),
        d.to_multiset().count(d[a]) >= 2,
    ensures
        0 <= b < d.len(),
        b != a,
        d[b] == d[a],
{
    broadcast use vstd::seq_lib::to_multiset_contains, vstd::seq_lib::to_multiset_remove,
        vstd::multiset::group_multiset_axioms;

    let r = d.remove(a);
    assert(r.to_multiset() == d.to_multiset().remove(d[a]));
    assert(r.to_multiset().count(d[a]) > 0);
    assert(r.contains(d[a]));
    let k = choose|k: int| 0 <= k < r.len() && r[k] == d[a];
    if k < a {
        assert(r[k] == d[k]);
        k
    } else {
        assert(r[k] == d[k + 1]);
        k + 1
    }
}


/// A decimal text with one unit suffix is a cache size of that many units.
proof fn lemma_suffixed_size(n: u32, c: char, unit: nat)
    requires
        (c == 'K' && unit == 1024) || (c == 'M' && unit == 1024 * 1024) || (c == 'G' && unit == 1024 * 1024 * 1024),
    ensures
        cache_size_of(decimal_chars(n as nat).push(c)) == Ok::<u64, Seq<char>>((n * unit) as u64),
        n * unit <= u64::MAX,
{
    let d = decimal_chars(n as nat);
    crate::text::law_decimal_text_parses_back(n as u64);
    crate::text::lemma_decimal_chars(n as nat);
    crate::text::lemma_digits_trimmed(d);
    let t = d.push(c);
    assert(t[0] == d[0]);
    assert(crate::text::is_digit(d[0]));
    assert(t[t.len() - 1] == c);
    crate::text::lemma_trimmed_unpadded(t);
    assert(t.drop_last() =~= d);
    assert(parse_u64_spec(d) == Some(n as u64));
    assert(n * unit <= u64::MAX) by (nonlinear_arith)
        requires
            n <= u32::MAX,
            unit <= 1024 * 1024 * 1024,
    ;
}

/// Decimal sysfs values round-trip: the decimal text of any `u32` parses back to it as a
/// number, as a plain cache size, and with a `K`, `M` or `G` suffix as that many KiB, MiB or GiB.
pub proof fn law_decimal_sysfs_values_parse_back(n: u32)
    ensures
        trimmed_u32(decimal_chars(n as nat)) == Some(n),
        cache_size_of(decimal_chars(n as nat)) == Ok::<u64, Seq<char>>(n as u64),
        cache_size_of(decimal_chars(n as nat).push('K')) == Ok::<u64, Seq<char>>((n * 1024) as u64),
        cache_size_of(decimal_chars(n as nat).push('M')) == Ok::<u64, Seq<char>>((n * 1024 * 1024) as u64),
        cache_size_of(decimal_chars(n as nat).push('G')) == Ok::<u64, Seq<char>>(
            (n * 1024 * 1024 * 1024) as u64,
        ),
{
    let d = decimal_chars(n as nat);
    crate::text::law_decimal_text_parses_back(n as u64);
    crate::text::lemma_decimal_chars(n as nat);
    crate::text::lemma_digits_trimmed(d);
    assert(crate::text::is_digit(d[d.len() - 1]));
    assert(trimmed(d) == d);
    assert(parse_u64_spec(d) == Some(n as u64));
    let last = d.last();
    assert('0' <= last <= '9');
    assert(last != 'K' && last != 'k' && last != 'M' && last != 'm' && last != 'G' && last != 'g');
    assert(n * 1nat == n);
    lemma_suffixed_size(n, 'K', 1024);
    lemma_suffixed_size(n, 'M', 1024 * 1024);
    lemma_suffixed_size(n, 'G', 1024 * 1024 * 1024);
}


/// Every cache before the insertion point does not follow `c`; the cache at it (if any) does.
proof fn lemma_insert_position_bounds(sorted: Seq<CpuCache>, c: CpuCache, from: int)
    requires
        0 <= from <= sorted.len(),
    ensures
        forall|k: int| from <= k < insert_position(sorted, c, from) ==> !cache_less(c, #[trigger] sorted[k]),
        insert_position(sorted, c, from) < sorted.len() ==> cache_less(c, sorted[insert_position(sorted, c, from)]),
    decreases sorted.len() - from,
{
    if from < sorted.len() && !cache_less(c, sorted[from]) {
        lemma_insert_position_bounds(sorted, c, from + 1);
    }
}

/// Levels never decrease along `s`.
pub open spec fn levels_ascend(s: Seq<CpuCache>) -> bool {
    forall|i: int, j: int| 0 <= i < j < s.len() ==> (#[trigger] s[i]).level <= (#[trigger] s[j]).level
}

/// The cache tree lists caches level by level: L1 before L2 before L3.
pub proof fn law_cache_tree_lists_levels_in_order(s: Seq<CpuCache>)
    ensures
        levels_ascend(sorted_caches(s)),
    decreases s.len(),
{
    if s.len() > 0 {
        let d = sorted_caches(s.drop_last());
        let c = s.last();
        law_cache_tree_lists_levels_in_order(s.drop_last());
        lemma_insert_position(d, c, 0);
        lemma_insert_position_bounds(d, c, 0);
        let p = insert_position(d, c, 0);
        let out = d.insert(p, c);
        assert(sorted_caches(s) == out);
        assert forall|k: int| 0 <= k < p implies (#[trigger] d[k]).level <= c.level by {
            assert(!cache_less(c, d[k]));
        }
        assert forall|k: int| p <= k < d.len() implies c.level <= (#[trigger] d[k]).level by {
            assert(cache_less(c, d[p]));
            assert(d[p].level <= d[k].level || p == k);
        }
        assert forall|i: int, j: int| 0 <= i < j < out.len() implies (#[trigger] out[i]).level <= (#[trigger] out[j]).level by {
            if j < p {
                assert(out[i] == d[i] && out[j] == d[j]);
            } else if j == p {
                assert(out[i] == d[i] && out[j] == c);
            } else if i < p {
                assert(out[i] == d[i] && out[j] == d[j - 1]);
            } else if i == p {
                assert(out[i] == c && out[j] == d[j - 1]);
            } else {
                assert(out[i] == d[i - 1] && out[j] == d[j - 1]);
            }
        }
    }
}
} // verus!
