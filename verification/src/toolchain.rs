//! The CUDA code-generation contract and `nvcc` toolkit requirements of GB10X.
use crate::text::{
    chars_of, find_from, find_from_exec, in_class, lemma_find_from, lemma_scan, lemma_scan_suffix, parse_u32_chars,
    parse_u32_spec, scan, scan_exec, CharClass,
};
use vstd::prelude::*;
use vstd::string::StrSliceExecFns;

verus! {

/// Oldest CUDA Toolkit major release with `sm_121a` support.
pub const MIN_CUDA_MAJOR: u32 = 12;

/// Oldest CUDA Toolkit minor release (of [`MIN_CUDA_MAJOR`]) with `sm_121a` support.
pub const MIN_CUDA_MINOR: u32 = 9;

/// CUDA architecture target supported by GB10X.
#[derive(Clone, Copy, Debug, PartialEq, Eq)]
pub enum CudaArchTarget {
    /// NVIDIA GB10 architecture-specific target.
    Gb10Sm121a,
}

/// Immutable CUDA code-generation contract for GB10X.
#[derive(Clone, Copy, Debug, PartialEq, Eq)]
pub struct CudaBuildContract {
    target: CudaArchTarget,
}

impl CudaBuildContract {
    /// The target this contract builds for.
    pub closed spec fn target_spec(self) -> CudaArchTarget {
        self.target
    }

    /// The only CUDA build contract supported by GB10X.
    pub fn gb10() -> (r: Self)
        ensures
            r.target_spec() == CudaArchTarget::Gb10Sm121a,
    {
        Self { target: CudaArchTarget::Gb10Sm121a }
    }

    /// The virtual PTX architecture required by the build contract.
    pub fn virtual_arch(&self) -> (r: &'static str)
        ensures
            self.target_spec() == CudaArchTarget::Gb10Sm121a ==> r@ == "compute_121a"@,
    {
        match self.target {
            CudaArchTarget::Gb10Sm121a => "compute_121a",
        }
    }

    /// The real cubin architecture required by the build contract.
    pub fn real_arch(&self) -> (r: &'static str)
        ensures
            self.target_spec() == CudaArchTarget::Gb10Sm121a ==> r@ == "sm_121a"@,
    {
        match self.target {
            CudaArchTarget::Gb10Sm121a => "sm_121a",
        }
    }

    /// Whether the contract uses an architecture-specific `a` target.
    pub fn is_arch_specific(&self) -> (r: bool)
        ensures
            r == (self.target_spec() == CudaArchTarget::Gb10Sm121a),
    {
        match self.target {
            CudaArchTarget::Gb10Sm121a => true,
        }
    }
}

/// Parsed `nvcc` toolkit version.
#[derive(Clone, Copy, Debug, PartialEq, Eq)]
pub struct NvccVersion {
    /// CUDA Toolkit major release.
    pub major: u32,
    /// CUDA Toolkit minor release.
    pub minor: u32,
    /// Optional build/patch component from the `Vx.y.z` token.
    pub patch: Option<u32>,
}

/// Failure while parsing or validating the CUDA toolchain used by GB10X.
#[derive(Clone, Debug, PartialEq, Eq)]
pub enum CudaToolchainError {
    /// The `nvcc --version` output did not contain a release token.
    MissingRelease,
    /// The release token was present but malformed.
    InvalidRelease(String),
    /// The toolkit predates architecture-specific SM 12.1 compiler support.
    UnsupportedVersion {
        /// Discovered toolkit major version.
        found_major: u32,
        /// Discovered toolkit minor version.
        found_minor: u32,
        /// Required toolkit major version.
        required_major: u32,
        /// Required toolkit minor version.
        required_minor: u32,
    },
}

/// The marker that precedes the release number.
pub open spec fn release_marker() -> Seq<char> {
    seq!['r', 'e', 'l', 'e', 'a', 's', 'e', ' ']
}

/// The release token: the text after the first `release ` marker, up to the next marker and
/// then up to the first `,`, space, line feed or carriage return. `None` without a marker.
pub open spec fn release_token(out: Seq<char>) -> Option<Seq<char>> {
    let at = find_from(out, release_marker(), 0);
    if at >= out.len() {
        None
    } else {
        let start = at + 8;
        let seg = out.subrange(start, find_from(out, release_marker(), start));
        Some(seg.take(scan(seg, 0, CharClass::ReleaseEnd)))
    }
}

/// `major.minor` of a release token: exactly two dot-separated `u32` components.
pub open spec fn release_components(t: Seq<char>) -> Option<(u32, u32)> {
    let d = scan(t, 0, CharClass::Dot);
    if d >= t.len() || scan(t, d + 1, CharClass::Dot) < t.len() {
        None
    } else {
        match (parse_u32_spec(t.take(d)), parse_u32_spec(t.subrange(d + 1, t.len() as int))) {
            (Some(major), Some(minor)) => Some((major, minor)),
            _ => None,
        }
    }
}

/// Start of the first token (tokens are separated by `,` or white space) that begins with `V`,
/// at or after `from`; `out.len()` when none.
pub open spec fn v_token(out: Seq<char>, from: int) -> int
    decreases out.len() - from,
{
    if from < 0 || from >= out.len() {
        out.len() as int
    } else if out[from] == 'V' && (from == 0 || in_class(CharClass::TokenEnd, out[from - 1])) {
        from
    } else {
        v_token(out, from + 1)
    }
}

/// `x.y.z` of a build token: exactly three dot-separated `u32` components.
pub open spec fn build_components(b: Seq<char>) -> Option<(u32, u32, u32)> {
    let d1 = scan(b, 0, CharClass::Dot);
    let d2 = scan(b, d1 + 1, CharClass::Dot);
    if d1 >= b.len() || d2 >= b.len() || scan(b, d2 + 1, CharClass::Dot) < b.len() {
        None
    } else {
        match (
            parse_u32_spec(b.take(d1)),
            parse_u32_spec(b.subrange(d1 + 1, d2)),
            parse_u32_spec(b.subrange(d2 + 1, b.len() as int)),
        ) {
            (Some(x), Some(y), Some(z)) => Some((x, y, z)),
            _ => None,
        }
    }
}

/// The patch component: from the first `V` token, when it spells `major.minor.patch`.
pub open spec fn patch_of(out: Seq<char>, major: u32, minor: u32) -> Option<u32> {
    let v = v_token(out, 0);
    if v >= out.len() {
        None
    } else {
        let b = out.subrange(v + 1, scan(out, v + 1, CharClass::TokenEnd));
        match build_components(b) {
            Some((x, y, z)) => if x == major && y == minor {
                Some(z)
            } else {
                None
            },
            None => None,
        }
    }
}

/// Index of the first `V` token at or after `from`.
fn v_token_exec(s: &Vec<char>, from: usize) -> (r: usize)
    requires
        from <= s@.len(),
    ensures
        r == v_token(s@, from as int),
{
    let mut i = from;
    while i < s.len()
        invariant
            from <= i <= s@.len(),
            v_token(s@, from as int) == v_token(s@, i as int),
        decreases s@.len() - i,
    {
        if s[i] == 'V' && (i == 0 || crate::text::in_class_exec(&CharClass::TokenEnd, s[i - 1])) {
            return i;
        }
        i += 1;
    }
    i
}

/// `release_components` of `s[from..to]`.
fn release_components_exec(s: &Vec<char>, from: usize, to: usize) -> (r: Option<(u32, u32)>)
    requires
        from <= to <= s@.len(),
    ensures
        r == release_components(s@.subrange(from as int, to as int)),
{
    let ghost t = s@.subrange(from as int, to as int);
    let d = scan_exec(s, from, to, CharClass::Dot);
    if d == to {
        return None;
    }
    proof {
        lemma_scan(t, 0, CharClass::Dot);
        lemma_scan_suffix(t, d - from + 1, 0, CharClass::Dot);
        assert(t.subrange(d - from + 1, t.len() as int) =~= s@.subrange(d + 1, to as int));
    }
    let e = scan_exec(s, d + 1, to, CharClass::Dot);
    if e < to {
        return None;
    }
    assert(t.take(d - from) =~= s@.subrange(from as int, d as int));
    assert(t.subrange(d - from + 1, t.len() as int) =~= s@.subrange(d + 1, to as int));
    let major = parse_u32_chars(s, from, d);
    let minor = parse_u32_chars(s, d + 1, to);
    match (major, minor) {
        (Some(x), Some(y)) => Some((x, y)),
        _ => None,
    }
}


/// `build_components` of `s[from..to]`.
fn build_components_exec(s: &Vec<char>, from: usize, to: usize) -> (r: Option<(u32, u32, u32)>)
    requires
        from <= to <= s@.len(),
    ensures
        r == build_components(s@.subrange(from as int, to as int)),
{
    let ghost b = s@.subrange(from as int, to as int);
    let d1 = scan_exec(s, from, to, CharClass::Dot);
    if d1 == to {
        return None;
    }
    proof {
        lemma_scan(b, 0, CharClass::Dot);
        lemma_scan_suffix(b, d1 - from + 1, 0, CharClass::Dot);
        assert(b.subrange(d1 - from + 1, b.len() as int) =~= s@.subrange(d1 + 1, to as int));
    }
    let d2 = scan_exec(s, d1 + 1, to, CharClass::Dot);
    if d2 == to {
        return None;
    }
    proof {
        lemma_scan(s@.subrange(d1 + 1, to as int), 0, CharClass::Dot);
        lemma_scan_suffix(b, d2 - from + 1, 0, CharClass::Dot);
        assert(b.subrange(d2 - from + 1, b.len() as int) =~= s@.subrange(d2 + 1, to as int));
    }
    let d3 = scan_exec(s, d2 + 1, to, CharClass::Dot);
    if d3 < to {
        return None;
    }
    assert(b.take(d1 - from) =~= s@.subrange(from as int, d1 as int));
    assert(b.subrange(d1 - from + 1, d2 - from) =~= s@.subrange(d1 + 1, d2 as int));
    let x = parse_u32_chars(s, from, d1);
    let y = parse_u32_chars(s, d1 + 1, d2);
    let z = parse_u32_chars(s, d2 + 1, to);
    match (x, y, z) {
        (Some(x), Some(y), Some(z)) => Some((x, y, z)),
        _ => None,
    }
}

/// The patch component of `out` for a release `major.minor`.
fn patch_exec(out: &Vec<char>, major: u32, minor: u32) -> (r: Option<u32>)
    ensures
        r == patch_of(out@, major, minor),
{
    let v = v_token_exec(out, 0);
    if v >= out.len() {
        return None;
    }
    proof {
        lemma_scan(out@, v + 1, CharClass::TokenEnd);
        lemma_scan_suffix(out@, v + 1, 0, CharClass::TokenEnd);
    }
    let e = scan_exec(out, v + 1, out.len(), CharClass::TokenEnd);
    assert(out@.subrange(v + 1, out@.len() as int) =~= out@.subrange(v + 1, out@.len() as int));
    match build_components_exec(out, v + 1, e) {
        Some((x, y, z)) => if x == major && y == minor {
            Some(z)
        } else {
            None
        },
        None => None,
    }
}

/// What `parse_nvcc_version` returns for `out`.
pub open spec fn nvcc_outcome(out: Seq<char>) -> Result<(u32, u32, Option<u32>), Option<Seq<char>>> {
    match release_token(out) {
        None => Err(None),
        Some(t) => match release_components(t) {
            None => Err(Some(t)),
            Some((major, minor)) => Ok((major, minor, patch_of(out, major, minor))),
        },
    }
}

/// Parse the canonical CUDA release/build tokens emitted by `nvcc --version`.
pub fn parse_nvcc_version(output: &str) -> (r: Result<NvccVersion, CudaToolchainError>)
    ensures
        match nvcc_outcome(output@) {
            Err(None) => r == Err::<NvccVersion, CudaToolchainError>(CudaToolchainError::MissingRelease),
            Err(Some(t)) => r matches Err(CudaToolchainError::InvalidRelease(found)) && found@ == t,
            Ok((major, minor, patch)) => r == Ok::<NvccVersion, CudaToolchainError>(
                NvccVersion { major, minor, patch },
            ),
        },
{
    let out = chars_of(output);
    let marker = chars_of("release ");
    proof {
        reveal_strlit("release ");
        assert(marker@ =~= release_marker());
    }
    let n = out.len();
    let at = find_from_exec(&out, &marker, 0);
    proof {
        lemma_find_from(out@, marker@, 0);
    }
    if at >= n {
        return Err(CudaToolchainError::MissingRelease);
    }
    let start = at + 8;
    let next = find_from_exec(&out, &marker, start);
    proof {
        lemma_find_from(out@, marker@, start as int);
    }
    let ghost seg = out@.subrange(start as int, next as int);
    let end = scan_exec(&out, start, next, CharClass::ReleaseEnd);
    let ghost t = seg.take(end - start);
    assert(t =~= out@.subrange(start as int, end as int));
    assert(release_token(output@) == Some(t));
    match release_components_exec(&out, start, end) {
        None => {
            let token = output.substring_char(start, end);
            Err(CudaToolchainError::InvalidRelease(token.to_owned()))
        },
        Some((major, minor)) => {
            let patch = patch_exec(&out, major, minor);
            Ok(NvccVersion { major, minor, patch })
        },
    }
}

/// The version is older than the oldest toolkit that supports `sm_121a`.
pub open spec fn too_old(v: NvccVersion) -> bool {
    v.major < MIN_CUDA_MAJOR || (v.major == MIN_CUDA_MAJOR && v.minor < MIN_CUDA_MINOR)
}

/// Validate that an `nvcc` version can target GB10X's `sm_121a` contract.
pub fn validate_nvcc_for_gb10(version: &NvccVersion) -> (r: Result<(), CudaToolchainError>)
    ensures
        too_old(*version) ==> r == Err::<(), CudaToolchainError>(
            CudaToolchainError::UnsupportedVersion {
                found_major: version.major,
                found_minor: version.minor,
                required_major: MIN_CUDA_MAJOR,
                required_minor: MIN_CUDA_MINOR,
            },
        ),
        !too_old(*version) ==> r is Ok,
        r is Ok <==> (version.major > 12 || (version.major == 12 && version.minor >= 9)),
{
    if version.major < MIN_CUDA_MAJOR || (version.major == MIN_CUDA_MAJOR && version.minor
        < MIN_CUDA_MINOR) {
        return Err(
            CudaToolchainError::UnsupportedVersion {
                found_major: version.major,
                found_minor: version.minor,
                required_major: MIN_CUDA_MAJOR,
                required_minor: MIN_CUDA_MINOR,
            },
        );
    }
    Ok(())
}

/// Toolkit acceptance is monotone: a release at least as new as an accepted one is accepted.
pub proof fn law_newer_toolkits_stay_accepted(a: NvccVersion, b: NvccVersion)
    requires
        !too_old(a),
        b.major > a.major || (b.major == a.major && b.minor >= a.minor),
    ensures
        !too_old(b),
{
}

} // verus!
