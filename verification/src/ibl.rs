//! Image-based-lighting bake products and the `.hyge-env` container.
//!
//! A bake holds three products, each stored as RGBA16F texels of eight
//! little-endian bytes: a roughness-mipped prefiltered environment cubemap,
//! a diffuse irradiance cubemap and a square BRDF integration LUT. The
//! container layout (little-endian) is:
//!
//! ```text
//! [0..8]   magic "HYGE-ENV"
//! [8..12]  version (1)
//! [12..16] flags (0)
//! [16..20] prefilter base edge
//! [20..24] prefilter mip count
//! [24..28] irradiance face edge
//! [28..32] BRDF LUT edge
//! [32..64] source hash
//! prefilter texels: for each mip, six faces of dim(mip)^2 texels
//! irradiance texels: six faces of edge^2 texels
//! BRDF LUT texels: edge^2 texels
//! ```
//!
//! where `dim(mip)` is the base edge halved `mip` times (at least 1).

use vstd::prelude::*;

verus! {

/// Base edge of the prefiltered environment cubemap, in pixels.
pub const PREFILTER_BASE_SIZE: u32 = 256;

/// Edge of the diffuse irradiance cubemap, in pixels.
pub const IRRADIANCE_SIZE: u32 = 32;

/// Edge of the BRDF integration LUT, in pixels.
pub const BRDF_LUT_SIZE: u32 = 512;

/// Resolution and sample count of an environment bake.
#[derive(Copy, Clone, Debug, PartialEq, Eq, Structural)]
pub struct BakeConfig {
    /// Edge of the prefiltered environment cubemap's base mip, in pixels.
    pub prefilter_size: u32,
    /// Edge of the diffuse irradiance cubemap.
    pub irradiance_size: u32,
    /// Edge of the BRDF integration LUT.
    pub brdf_lut_size: u32,
    /// Monte Carlo samples per output texel in the prefilter and the BRDF
    /// LUT integration.
    pub sample_count: u32,
}

impl Default for BakeConfig {
    fn default() -> (r: Self)
        ensures
            r.prefilter_size == PREFILTER_BASE_SIZE,
            r.irradiance_size == IRRADIANCE_SIZE,
            r.brdf_lut_size == BRDF_LUT_SIZE,
            r.sample_count == 1024,
    {
        BakeConfig {
            prefilter_size: PREFILTER_BASE_SIZE,
            irradiance_size: IRRADIANCE_SIZE,
            brdf_lut_size: BRDF_LUT_SIZE,
            sample_count: 1024,
        }
    }
}

/// The eight-byte magic ("HYGE-ENV") at the start of every container.
pub const ENV_FILE_MAGIC: [u8; 8] = [72u8, 89u8, 71u8, 69u8, 45u8, 69u8, 78u8, 86u8];

/// The container format version.
pub const ENV_FILE_VERSION: u32 = 1;

/// A roughness-mipped environment cubemap: `mip_chain[mip][face]` holds
/// the row-major RGBA16F texels of one face of one mip.
#[derive(Debug, Clone)]
pub struct PrefilterCubemap {
    /// Edge of the largest mip, in pixels.
    pub base_size: u32,
    /// Number of mip levels in the chain.
    pub mip_count: u32,
    /// `mip_chain[mip][face]` = row-major RGBA16F texels.
    pub mip_chain: Vec<[Vec<[u8; 8]>; 6]>,
}

/// A diffuse irradiance cubemap (one mip).
#[derive(Debug, Clone)]
pub struct IrradianceCubemap {
    /// Face edge in pixels.
    pub size: u32,
    /// `faces_rgba16f[face]` = row-major RGBA16F texels.
    pub faces_rgba16f: [Vec<[u8; 8]>; 6],
}

/// A square BRDF integration LUT.
#[derive(Debug, Clone)]
pub struct BrdfLut {
    /// Edge in pixels.
    pub size: u32,
    /// Row-major RGBA16F texels.
    pub pixels_rgba16f: Vec<[u8; 8]>,
}

/// A complete baked IBL set.
#[derive(Debug, Clone)]
pub struct EnvironmentBake {
    /// The roughness-mipped environment cubemap.
    pub prefilter: PrefilterCubemap,
    /// The diffuse irradiance cubemap.
    pub irradiance: IrradianceCubemap,
    /// The split-sum BRDF integration LUT.
    pub brdf_lut: BrdfLut,
    /// Hash of the source image the set was baked from.
    pub source_hash: [u8; 32],
}

/// Why a container could not be written or read.
#[derive(Copy, Clone, Debug, PartialEq, Eq, Structural)]
pub enum EnvFileError {
    /// A prefilter face does not hold `dim(mip)^2` texels.
    PrefilterLengthMismatch { mip: u32, face: u32 },
    /// The input is shorter than the 64-byte header.
    TooShort,
    /// The first eight bytes are not the magic.
    BadMagic,
    /// The version field is not [`ENV_FILE_VERSION`].
    UnsupportedVersion(u32),
    /// The input ends inside a prefilter face.
    TruncatedPrefilter { mip: u32, face: u32 },
    /// The input ends inside an irradiance face.
    TruncatedIrradiance { face: u32 },
    /// The input ends inside the BRDF LUT.
    TruncatedBrdfLut,
}

// ---------------------------------------------------------------------------
// Mip arithmetic
// ---------------------------------------------------------------------------

/// `base` halved (rounding down) `n` times.
pub open spec fn halved(base: nat, n: nat) -> nat
    decreases n,
{
    if n == 0 {
        base
    } else {
        halved(base, (n - 1) as nat) / 2
    }
}

/// Edge of mip `mip` of a chain whose largest mip has edge `base`.
pub open spec fn mip_edge(base: nat, mip: nat) -> nat {
    let h = halved(base, mip);
    if h == 0 {
        1
    } else {
        h
    }
}

/// Number of binary digits of `n` (0 for 0).
pub open spec fn bit_length(n: nat) -> nat
    decreases n,
{
    if n == 0 {
        0
    } else {
        1 + bit_length(n / 2)
    }
}

/// Halving never grows a value.
pub proof fn lemma_halved_le(base: nat, n: nat)
    ensures
        halved(base, n) <= base,
    decreases n,
{
    if n > 0 {
        lemma_halved_le(base, (n - 1) as nat);
    }
}

/// Number of mips of a prefiltered cubemap with base edge `base`:
/// `floor(log2(base)) + 1`, so a 256 base gives 9 mips (0 for base 0).
pub fn prefilter_mip_count(base: u32) -> (r: u32)
    ensures
        r == bit_length(base as nat),
{
    let mut n: u32 = base;
    let mut count: u32 = 0;
    proof {
        lemma_bit_length_u32(base);
    }
    while n > 0
        invariant
            count + bit_length(n as nat) == bit_length(base as nat),
            bit_length(base as nat) <= 32,
        decreases n,
    {
        n = n / 2;
        count = count + 1;
    }
    count
}

/// A `u32` has at most 32 binary digits.
pub proof fn lemma_bit_length_u32(n: u32)
    ensures
        bit_length(n as nat) <= 32,
{
    vstd::arithmetic::power2::lemma2_to64();
    lemma_bit_length_bound(n as nat, 32);
}

/// Values below `2^k` have at most `k` binary digits.
pub proof fn lemma_bit_length_bound(n: nat, k: nat)
    requires
        n < vstd::arithmetic::power2::pow2(k),
    ensures
        bit_length(n) <= k,
    decreases k,
{
    if n > 0 {
        if k == 0 {
            vstd::arithmetic::power2::lemma2_to64();
        } else {
            vstd::arithmetic::power2::lemma_pow2_unfold(k);
            lemma_bit_length_bound(n / 2, (k - 1) as nat);
        }
    }
}

/// Returns the `(width, height)` of the next mip after a 2x2 box
/// downsample: each edge (at least 1) halved, rounding up.
pub fn mip_dim(w: u32, h: u32) -> (r: (u32, u32))
    ensures
        r.0 == (if w == 0 { 1 } else { (w + 1) / 2 }),
        r.1 == (if h == 0 { 1 } else { (h + 1) / 2 }),
{
    let w1: u32 = if w == 0 { 1 } else { w };
    let h1: u32 = if h == 0 { 1 } else { h };
    (w1 / 2 + w1 % 2, h1 / 2 + h1 % 2)
}

// ---------------------------------------------------------------------------
// Abstract model of a bake and of its container bytes
// ---------------------------------------------------------------------------

/// A run of texels, each texel given by its eight bytes.
pub open spec fn texel_run(ts: Seq<[u8; 8]>) -> Seq<Seq<u8>> {
    ts.map_values(|t: [u8; 8]| t@)
}

/// The six faces of a cubemap level.
pub open spec fn face_set(fs: [Vec<[u8; 8]>; 6]) -> Seq<Seq<Seq<u8>>> {
    fs@.map_values(|f: Vec<[u8; 8]>| texel_run(f@))
}

/// Abstract content of a bake: sizes, texel bytes and the source hash.
pub ghost struct BakeView {
    pub base_size: u32,
    pub mip_count: u32,
    pub mips: Seq<Seq<Seq<Seq<u8>>>>,
    pub irr_size: u32,
    pub irr: Seq<Seq<Seq<u8>>>,
    pub lut_size: u32,
    pub lut: Seq<Seq<u8>>,
    pub hash: Seq<u8>,
}

impl View for EnvironmentBake {
    type V = BakeView;

    open spec fn view(&self) -> BakeView {
        BakeView {
            base_size: self.prefilter.base_size,
            mip_count: self.prefilter.mip_count,
            mips: self.prefilter.mip_chain@.map_values(|fs: [Vec<[u8; 8]>; 6]| face_set(fs)),
            irr_size: self.irradiance.size,
            irr: face_set(self.irradiance.faces_rgba16f),
            lut_size: self.brdf_lut.size,
            lut: texel_run(self.brdf_lut.pixels_rgba16f@),
            hash: self.source_hash@,
        }
    }
}

/// `n * n`.
pub open spec fn sq(n: nat) -> nat {
    n * n
}

/// The bytes of a run of texels, in order.
pub open spec fn run_bytes(ts: Seq<Seq<u8>>) -> Seq<u8>
    decreases ts.len(),
{
    if ts.len() == 0 {
        Seq::empty()
    } else {
        run_bytes(ts.drop_last()) + ts.last()
    }
}

/// The bytes of a list of faces, face after face.
pub open spec fn faces_bytes(fs: Seq<Seq<Seq<u8>>>) -> Seq<u8>
    decreases fs.len(),
{
    if fs.len() == 0 {
        Seq::empty()
    } else {
        faces_bytes(fs.drop_last()) + run_bytes(fs.last())
    }
}

/// The bytes of a list of mips, mip after mip.
pub open spec fn mips_bytes(ms: Seq<Seq<Seq<Seq<u8>>>>) -> Seq<u8>
    decreases ms.len(),
{
    if ms.len() == 0 {
        Seq::empty()
    } else {
        mips_bytes(ms.drop_last()) + faces_bytes(ms.last())
    }
}

/// `n` texels of eight bytes each.
pub open spec fn run_shaped(ts: Seq<Seq<u8>>, n: nat) -> bool {
    ts.len() == n && forall|i: int| 0 <= i < ts.len() ==> (#[trigger] ts[i]).len() == 8
}

/// Faces that all hold `n` texels of eight bytes each.
pub open spec fn faces_shaped(fs: Seq<Seq<Seq<u8>>>, n: nat) -> bool {
    forall|f: int| 0 <= f < fs.len() ==> run_shaped(#[trigger] fs[f], n)
}

/// Mips whose faces all have the size of their level.
pub open spec fn mips_shaped(ms: Seq<Seq<Seq<Seq<u8>>>>, base: nat) -> bool {
    forall|m: int|
        0 <= m < ms.len() ==> (#[trigger] ms[m]).len() == 6 && faces_shaped(
            ms[m],
            sq(mip_edge(base, m as nat)),
        )
}

/// Number of texels in the first `count` mips of a chain with base edge
/// `base` (six faces per mip).
pub open spec fn mips_texels(base: nat, count: nat) -> nat
    decreases count,
{
    if count == 0 {
        0
    } else {
        mips_texels(base, (count - 1) as nat) + 6 * sq(mip_edge(base, (count - 1) as nat))
    }
}

/// The four little-endian bytes of `x`.
pub open spec fn le32(x: u32) -> Seq<u8> {
    seq![(x % 256) as u8, ((x / 256) % 256) as u8, ((x / 65536) % 256) as u8, (x / 16777216) as u8]
}

/// The little-endian `u32` stored at `at`.
pub open spec fn read_le32(b: Seq<u8>, at: int) -> u32 {
    (b[at] + 256 * b[at + 1] + 65536 * b[at + 2] + 16777216 * b[at + 3]) as u32
}

impl BakeView {
    /// The sizes and texel counts agree: `mip_count` mips of six faces of
    /// `dim(mip)^2` texels, six irradiance faces and a LUT of edge^2
    /// texels, every texel eight bytes, and a 32-byte hash.
    pub open spec fn shaped(self) -> bool {
        &&& self.mips.len() == self.mip_count
        &&& mips_shaped(self.mips, self.base_size as nat)
        &&& self.irr.len() == 6
        &&& faces_shaped(self.irr, sq(self.irr_size as nat))
        &&& run_shaped(self.lut, sq(self.lut_size as nat))
        &&& self.hash.len() == 32
    }

    /// The 64-byte container header.
    pub open spec fn header(self) -> Seq<u8> {
        ENV_FILE_MAGIC@ + le32(ENV_FILE_VERSION) + le32(0) + le32(self.base_size) + le32(
            self.mip_count,
        ) + le32(self.irr_size) + le32(self.lut_size) + self.hash
    }

    /// The container bytes: header, the first `mip_count` mips, the
    /// irradiance faces, the LUT.
    pub open spec fn encoding(self) -> Seq<u8> {
        self.header() + mips_bytes(self.mips.take(self.mip_count as int)) + faces_bytes(self.irr)
            + run_bytes(self.lut)
    }
}

/// The first face of `faces`, starting at face `f`, whose length is not
/// `n`.
pub open spec fn first_bad_face(faces: Seq<Seq<Seq<u8>>>, n: nat, f: nat) -> Option<nat>
    decreases 6 - f,
{
    if f >= 6 {
        None
    } else if faces[f as int].len() != n {
        Some(f)
    } else {
        first_bad_face(faces, n, f + 1)
    }
}

/// The first `(mip, face)` from mip `m` on whose face length does not
/// match its level.
pub open spec fn first_bad_prefilter(v: BakeView, m: nat) -> Option<(nat, nat)>
    decreases v.mip_count - m,
{
    if m >= v.mip_count {
        None
    } else {
        match first_bad_face(v.mips[m as int], sq(mip_edge(v.base_size as nat, m)), 0) {
            Some(f) => Some((m, f)),
            None => first_bad_prefilter(v, m + 1),
        }
    }
}

/// What encoding a bake yields: the container bytes, or the first
/// prefilter face whose texel count does not match its level.
pub open spec fn encode_outcome(v: BakeView) -> Result<Seq<u8>, EnvFileError> {
    match first_bad_prefilter(v, 0) {
        Some((m, f)) => Err(EnvFileError::PrefilterLengthMismatch { mip: m as u32, face: f as u32 }),
        None => Ok(v.encoding()),
    }
}

/// The first face, from face `f` on, of six consecutive runs of `n`
/// texels starting at byte `start` that does not fit in `len` bytes.
pub open spec fn first_short_face(len: nat, start: nat, n: nat, f: nat) -> Option<nat>
    decreases 6 - f,
{
    if f >= 6 {
        None
    } else if start + 8 * (f + 1) * n > len {
        Some(f)
    } else {
        first_short_face(len, start, n, f + 1)
    }
}

/// A short face found by the scan is one of the six faces.
pub proof fn lemma_first_short_face_range(len: nat, start: nat, n: nat, f: nat)
    ensures
        first_short_face(len, start, n, f) matches Some(x) ==> f <= x < 6,
    decreases 6 - f,
{
    if f < 6 {
        lemma_first_short_face_range(len, start, n, f + 1);
    }
}

/// Byte offset at which mip `m` starts.
pub open spec fn mip_start(base: nat, m: nat) -> nat {
    64 + 8 * mips_texels(base, m)
}

/// The first `(mip, face)` from mip `m` on that does not fit in `len`
/// bytes.
pub open spec fn first_short_prefilter(len: nat, base: nat, count: nat, m: nat) -> Option<(nat, nat)>
    decreases count - m,
{
    if m >= count {
        None
    } else {
        match first_short_face(len, mip_start(base, m), sq(mip_edge(base, m)), 0) {
            Some(f) => Some((m, f)),
            None => first_short_prefilter(len, base, count, m + 1),
        }
    }
}

/// Header fields as read from container bytes.
pub open spec fn hdr_base(b: Seq<u8>) -> nat {
    read_le32(b, 16) as nat
}

pub open spec fn hdr_mips(b: Seq<u8>) -> nat {
    read_le32(b, 20) as nat
}

pub open spec fn hdr_irr(b: Seq<u8>) -> nat {
    read_le32(b, 24) as nat
}

pub open spec fn hdr_lut(b: Seq<u8>) -> nat {
    read_le32(b, 28) as nat
}

/// Byte offset where the irradiance section starts.
pub open spec fn irr_start(b: Seq<u8>) -> nat {
    mip_start(hdr_base(b), hdr_mips(b))
}

/// Byte offset where the BRDF LUT starts.
pub open spec fn lut_start(b: Seq<u8>) -> nat {
    irr_start(b) + 48 * sq(hdr_irr(b))
}

/// Byte offset where the BRDF LUT ends.
pub open spec fn lut_end(b: Seq<u8>) -> nat {
    lut_start(b) + 8 * sq(hdr_lut(b))
}

/// Which error, if any, reading the container `b` reports.
pub open spec fn decode_outcome(b: Seq<u8>) -> Result<(), EnvFileError> {
    if b.len() < 64 {
        Err(EnvFileError::TooShort)
    } else if b.subrange(0, 8) != ENV_FILE_MAGIC@ {
        Err(EnvFileError::BadMagic)
    } else if read_le32(b, 8) != ENV_FILE_VERSION {
        Err(EnvFileError::UnsupportedVersion(read_le32(b, 8)))
    } else {
        match first_short_prefilter(b.len(), hdr_base(b), hdr_mips(b), 0) {
            Some((m, f)) => Err(EnvFileError::TruncatedPrefilter { mip: m as u32, face: f as u32 }),
            None => match first_short_face(b.len(), irr_start(b), sq(hdr_irr(b)), 0) {
                Some(f) => Err(EnvFileError::TruncatedIrradiance { face: f as u32 }),
                None => if lut_end(b) > b.len() {
                    Err(EnvFileError::TruncatedBrdfLut)
                } else {
                    Ok(())
                },
            },
        }
    }
}

/// `v` is what reading the accepted container `b` yields: the sizes from
/// the header, the hash, and texels of the sizes the header announces
/// whose bytes are the container's body.
pub open spec fn decoded_as(b: Seq<u8>, v: BakeView) -> bool {
    &&& v.base_size as nat == hdr_base(b)
    &&& v.mip_count as nat == hdr_mips(b)
    &&& v.irr_size as nat == hdr_irr(b)
    &&& v.lut_size as nat == hdr_lut(b)
    &&& v.hash == b.subrange(32, 64)
    &&& v.shaped()
    &&& mips_bytes(v.mips) + faces_bytes(v.irr) + run_bytes(v.lut) == b.subrange(
        64,
        lut_end(b) as int,
    )
}

// ---------------------------------------------------------------------------
// Lemmas about the container layout
// ---------------------------------------------------------------------------

/// A run of `n` eight-byte texels takes `8 n` bytes.
pub proof fn lemma_run_bytes_len(ts: Seq<Seq<u8>>, n: nat)
    requires
        run_shaped(ts, n),
    ensures
        run_bytes(ts).len() == 8 * n,
    decreases n,
{
    if n > 0 {
        assert(run_shaped(ts.drop_last(), (n - 1) as nat)) by {
            assert forall|i: int| 0 <= i < ts.drop_last().len() implies (#[trigger] ts.drop_last()[i]).len() == 8 by {
                assert(ts.drop_last()[i] == ts[i]);
            }
        }
        lemma_run_bytes_len(ts.drop_last(), (n - 1) as nat);
        assert(ts.last().len() == 8) by {
            assert(ts[ts.len() - 1].len() == 8);
        }
    }
}

/// Faces of `n` texels each take `8 n` bytes per face.
pub proof fn lemma_faces_bytes_len(fs: Seq<Seq<Seq<u8>>>, n: nat)
    requires
        faces_shaped(fs, n),
    ensures
        faces_bytes(fs).len() == 8 * n * fs.len(),
    decreases fs.len(),
{
    if fs.len() > 0 {
        assert(faces_shaped(fs.drop_last(), n)) by {
            assert forall|f: int| 0 <= f < fs.drop_last().len() implies run_shaped(#[trigger] fs.drop_last()[f], n) by {
                assert(fs.drop_last()[f] == fs[f]);
            }
        }
        lemma_faces_bytes_len(fs.drop_last(), n);
        assert(run_shaped(fs[fs.len() - 1], n));
        lemma_run_bytes_len(fs.last(), n);
        assert(8 * n * fs.len() == 8 * n * (fs.len() - 1) + 8 * n) by (nonlinear_arith);
    }
}

/// A shaped chain of `k` mips takes `8 * mips_texels(base, k)` bytes.
pub proof fn lemma_mips_bytes_len(ms: Seq<Seq<Seq<Seq<u8>>>>, base: nat)
    requires
        mips_shaped(ms, base),
    ensures
        mips_bytes(ms).len() == 8 * mips_texels(base, ms.len()),
    decreases ms.len(),
{
    if ms.len() > 0 {
        let k = (ms.len() - 1) as nat;
        assert(mips_shaped(ms.drop_last(), base)) by {
            assert forall|m: int| 0 <= m < ms.drop_last().len() implies (#[trigger] ms.drop_last()[m]).len() == 6
                && faces_shaped(ms.drop_last()[m], sq(mip_edge(base, m as nat))) by {
                assert(ms.drop_last()[m] == ms[m]);
            }
        }
        lemma_mips_bytes_len(ms.drop_last(), base);
        assert(ms[k as int].len() == 6 && faces_shaped(ms[k as int], sq(mip_edge(base, k))));
        lemma_faces_bytes_len(ms.last(), sq(mip_edge(base, k)));
    }
}

/// Two runs of `n` eight-byte texels with the same bytes are equal.
pub proof fn lemma_run_injective(a: Seq<Seq<u8>>, b: Seq<Seq<u8>>, n: nat)
    requires
        run_shaped(a, n),
        run_shaped(b, n),
        run_bytes(a) == run_bytes(b),
    ensures
        a == b,
    decreases n,
{
    if n == 0 {
        assert(a =~= b);
    } else {
        let a1 = a.drop_last();
        let b1 = b.drop_last();
        assert(run_shaped(a1, (n - 1) as nat)) by {
            assert forall|i: int| 0 <= i < a1.len() implies (#[trigger] a1[i]).len() == 8 by {
                assert(a1[i] == a[i]);
            }
        }
        assert(run_shaped(b1, (n - 1) as nat)) by {
            assert forall|i: int| 0 <= i < b1.len() implies (#[trigger] b1[i]).len() == 8 by {
                assert(b1[i] == b[i]);
            }
        }
        lemma_run_bytes_len(a1, (n - 1) as nat);
        lemma_run_bytes_len(b1, (n - 1) as nat);
        let k: int = 8 * (n - 1);
        assert(a[a.len() - 1].len() == 8);
        assert(b[b.len() - 1].len() == 8);
        assert(run_bytes(a1) =~= run_bytes(a).subrange(0, k));
        assert(run_bytes(b1) =~= run_bytes(b).subrange(0, k));
        assert(a.last() =~= run_bytes(a).subrange(k, k + 8));
        assert(b.last() =~= run_bytes(b).subrange(k, k + 8));
        lemma_run_injective(a1, b1, (n - 1) as nat);
        assert(a =~= b) by {
            assert forall|i: int| 0 <= i < a.len() implies a[i] == b[i] by {
                if i < a.len() - 1 {
                    assert(a[i] == a1[i]);
                    assert(b[i] == b1[i]);
                }
            }
        }
    }
}

/// Two lists of faces of `n` texels each with the same bytes are equal.
pub proof fn lemma_faces_injective(a: Seq<Seq<Seq<u8>>>, b: Seq<Seq<Seq<u8>>>, n: nat)
    requires
        a.len() == b.len(),
        faces_shaped(a, n),
        faces_shaped(b, n),
        faces_bytes(a) == faces_bytes(b),
    ensures
        a == b,
    decreases a.len(),
{
    if a.len() == 0 {
        assert(a =~= b);
    } else {
        let a1 = a.drop_last();
        let b1 = b.drop_last();
        assert(faces_shaped(a1, n)) by {
            assert forall|f: int| 0 <= f < a1.len() implies run_shaped(#[trigger] a1[f], n) by {
                assert(a1[f] == a[f]);
            }
        }
        assert(faces_shaped(b1, n)) by {
            assert forall|f: int| 0 <= f < b1.len() implies run_shaped(#[trigger] b1[f], n) by {
                assert(b1[f] == b[f]);
            }
        }
        lemma_faces_bytes_len(a1, n);
        lemma_faces_bytes_len(b1, n);
        assert(run_shaped(a[a.len() - 1], n));
        assert(run_shaped(b[b.len() - 1], n));
        lemma_run_bytes_len(a.last(), n);
        lemma_run_bytes_len(b.last(), n);
        let k: int = (8 * n * a1.len()) as int;
        assert(run_bytes(a.last()) =~= faces_bytes(a).subrange(k, k + 8 * n));
        assert(run_bytes(b.last()) =~= faces_bytes(b).subrange(k, k + 8 * n));
        assert(faces_bytes(a1) =~= faces_bytes(a).subrange(0, k));
        assert(faces_bytes(b1) =~= faces_bytes(b).subrange(0, k));
        lemma_faces_injective(a1, b1, n);
        lemma_run_injective(a.last(), b.last(), n);
        assert(a =~= b) by {
            assert forall|i: int| 0 <= i < a.len() implies a[i] == b[i] by {
                if i < a.len() - 1 {
                    assert(a[i] == a1[i]);
                    assert(b[i] == b1[i]);
                }
            }
        }
    }
}

/// Two shaped mip chains of the same length with the same bytes are
/// equal.
pub proof fn lemma_mips_injective(a: Seq<Seq<Seq<Seq<u8>>>>, b: Seq<Seq<Seq<Seq<u8>>>>, base: nat)
    requires
        a.len() == b.len(),
        mips_shaped(a, base),
        mips_shaped(b, base),
        mips_bytes(a) == mips_bytes(b),
    ensures
        a == b,
    decreases a.len(),
{
    if a.len() == 0 {
        assert(a =~= b);
    } else {
        let a1 = a.drop_last();
        let b1 = b.drop_last();
        let m = (a.len() - 1) as nat;
        let n = sq(mip_edge(base, m));
        assert(mips_shaped(a1, base)) by {
            assert forall|i: int| 0 <= i < a1.len() implies (#[trigger] a1[i]).len() == 6
                && faces_shaped(a1[i], sq(mip_edge(base, i as nat))) by {
                assert(a1[i] == a[i]);
            }
        }
        assert(mips_shaped(b1, base)) by {
            assert forall|i: int| 0 <= i < b1.len() implies (#[trigger] b1[i]).len() == 6
                && faces_shaped(b1[i], sq(mip_edge(base, i as nat))) by {
                assert(b1[i] == b[i]);
            }
        }
        lemma_mips_bytes_len(a1, base);
        lemma_mips_bytes_len(b1, base);
        assert(a[m as int].len() == 6 && faces_shaped(a[m as int], n));
        assert(b[m as int].len() == 6 && faces_shaped(b[m as int], n));
        lemma_faces_bytes_len(a.last(), n);
        lemma_faces_bytes_len(b.last(), n);
        let k: int = (8 * mips_texels(base, m)) as int;
        assert(faces_bytes(a.last()) =~= mips_bytes(a).subrange(k, k + 8 * n * 6));
        assert(faces_bytes(b.last()) =~= mips_bytes(b).subrange(k, k + 8 * n * 6));
        assert(mips_bytes(a1) =~= mips_bytes(a).subrange(0, k));
        assert(mips_bytes(b1) =~= mips_bytes(b).subrange(0, k));
        lemma_mips_injective(a1, b1, base);
        lemma_faces_injective(a.last(), b.last(), n);
        assert(a =~= b) by {
            assert forall|i: int| 0 <= i < a.len() implies a[i] == b[i] by {
                if i < a.len() - 1 {
                    assert(a[i] == a1[i]);
                    assert(b[i] == b1[i]);
                }
            }
        }
    }
}

/// The four little-endian bytes of a `u32` read back as that `u32`.
pub proof fn lemma_le32_round_trip(x: u32)
    ensures
        le32(x).len() == 4,
        read_le32(le32(x), 0) == x,
{
    let b = le32(x);
    assert(b[0] == (x % 256) as u8);
    assert(b[1] == ((x / 256) % 256) as u8);
    assert(b[2] == ((x / 65536) % 256) as u8);
    assert(b[3] == (x / 16777216) as u8);
    assert((x % 256) + 256 * ((x / 256) % 256) + 65536 * ((x / 65536) % 256) + 16777216 * (x
        / 16777216) == x) by (bit_vector);
}

/// If six runs of `n` texels from `start` fit, no face is short.
pub proof fn lemma_no_short_face(len: nat, start: nat, n: nat, f: nat)
    requires
        start + 48 * n <= len,
        f <= 6,
    ensures
        first_short_face(len, start, n, f) is None,
    decreases 6 - f,
{
    if f < 6 {
        assert(8 * (f + 1) * n <= 48 * n) by (nonlinear_arith)
            requires
                f + 1 <= 6,
        ;
        lemma_no_short_face(len, start, n, f + 1);
    }
}

/// The texel count of a mip chain prefix grows with the prefix.
pub proof fn lemma_mips_texels_mono(base: nat, a: nat, b: nat)
    requires
        a <= b,
    ensures
        mips_texels(base, a) <= mips_texels(base, b),
    decreases b,
{
    if a < b {
        lemma_mips_texels_mono(base, a, (b - 1) as nat);
    }
}

/// If every mip fits, no prefilter face is short.
pub proof fn lemma_no_short_prefilter(len: nat, base: nat, count: nat, m: nat)
    requires
        mip_start(base, count) <= len,
    ensures
        first_short_prefilter(len, base, count, m) is None,
    decreases count - m,
{
    if m < count {
        lemma_mips_texels_mono(base, m + 1, count);
        assert(mip_start(base, m) + 48 * sq(mip_edge(base, m)) == mip_start(base, m + 1));
        lemma_no_short_face(len, mip_start(base, m), sq(mip_edge(base, m)), 0);
        lemma_no_short_prefilter(len, base, count, m + 1);
    }
}

/// A shaped bake has no prefilter face of the wrong length.
pub proof fn lemma_no_bad_prefilter(v: BakeView, m: nat)
    requires
        v.shaped(),
    ensures
        first_bad_prefilter(v, m) is None,
    decreases v.mip_count - m,
{
    if m < v.mip_count {
        let n = sq(mip_edge(v.base_size as nat, m));
        assert(v.mips[m as int].len() == 6 && faces_shaped(v.mips[m as int], n));
        assert forall|f: nat| f <= 6 implies first_bad_face(v.mips[m as int], n, f) is None by {
            lemma_no_bad_face(v.mips[m as int], n, f);
        }
        lemma_no_bad_prefilter(v, m + 1);
    }
}

/// Six faces of `n` texels have no face of the wrong length.
pub proof fn lemma_no_bad_face(faces: Seq<Seq<Seq<u8>>>, n: nat, f: nat)
    requires
        faces.len() == 6,
        faces_shaped(faces, n),
        f <= 6,
    ensures
        first_bad_face(faces, n, f) is None,
    decreases 6 - f,
{
    if f < 6 {
        assert(run_shaped(faces[f as int], n));
        lemma_no_bad_face(faces, n, f + 1);
    }
}

/// Writing a well-formed bake succeeds; reading the bytes back succeeds;
/// and the only bake they read back as is the one written.
pub proof fn law_env_file_round_trip(v: BakeView, w: BakeView)
    requires
        v.shaped(),
    ensures
        encode_outcome(v) == Ok::<Seq<u8>, EnvFileError>(v.encoding()),
        decode_outcome(v.encoding()) == Ok::<(), EnvFileError>(()),
        decoded_as(v.encoding(), w) ==> w == v,
{
    lemma_no_bad_prefilter(v, 0);
    let b = v.encoding();
    let h = v.header();
    let base = v.base_size as nat;
    assert(v.mips.take(v.mip_count as int) =~= v.mips);
    lemma_mips_bytes_len(v.mips, base);
    lemma_faces_bytes_len(v.irr, sq(v.irr_size as nat));
    lemma_run_bytes_len(v.lut, sq(v.lut_size as nat));
    lemma_le32_round_trip(ENV_FILE_VERSION);
    lemma_le32_round_trip(0);
    lemma_le32_round_trip(v.base_size);
    lemma_le32_round_trip(v.mip_count);
    lemma_le32_round_trip(v.irr_size);
    lemma_le32_round_trip(v.lut_size);
    assert(h.len() == 64);
    assert(b.subrange(0, 8) =~= ENV_FILE_MAGIC@);
    assert(b.subrange(8, 12) =~= le32(ENV_FILE_VERSION));
    assert(b.subrange(16, 20) =~= le32(v.base_size));
    assert(b.subrange(20, 24) =~= le32(v.mip_count));
    assert(b.subrange(24, 28) =~= le32(v.irr_size));
    assert(b.subrange(28, 32) =~= le32(v.lut_size));
    assert(read_le32(b, 8) == read_le32(b.subrange(8, 12), 0));
    assert(read_le32(b, 16) == read_le32(b.subrange(16, 20), 0));
    assert(read_le32(b, 20) == read_le32(b.subrange(20, 24), 0));
    assert(read_le32(b, 24) == read_le32(b.subrange(24, 28), 0));
    assert(read_le32(b, 28) == read_le32(b.subrange(28, 32), 0));
    assert(hdr_base(b) == base);
    assert(hdr_mips(b) == v.mip_count);
    assert(hdr_irr(b) == v.irr_size);
    assert(hdr_lut(b) == v.lut_size);
    assert(b.len() == lut_end(b));
    lemma_no_short_prefilter(b.len(), base, v.mip_count as nat, 0);
    lemma_no_short_face(b.len(), irr_start(b), sq(hdr_irr(b)), 0);
    let body = mips_bytes(v.mips) + faces_bytes(v.irr) + run_bytes(v.lut);
    assert(b.subrange(64, lut_end(b) as int) =~= body);
    assert(b.subrange(32, 64) =~= v.hash);
    if decoded_as(b, w) {
        let mw = mips_bytes(w.mips);
        let fw = faces_bytes(w.irr);
        let lw = run_bytes(w.lut);
        lemma_mips_bytes_len(w.mips, base);
        lemma_faces_bytes_len(w.irr, sq(w.irr_size as nat));
        lemma_run_bytes_len(w.lut, sq(w.lut_size as nat));
        let body_w = mw + fw + lw;
        assert(body_w == body);
        let k1: int = mips_bytes(v.mips).len() as int;
        let k2: int = k1 + faces_bytes(v.irr).len();
        assert(mw =~= body_w.subrange(0, k1));
        assert(mips_bytes(v.mips) =~= body.subrange(0, k1));
        assert(fw =~= body_w.subrange(k1, k2));
        assert(faces_bytes(v.irr) =~= body.subrange(k1, k2));
        assert(lw =~= body_w.subrange(k2, body.len() as int));
        assert(run_bytes(v.lut) =~= body.subrange(k2, body.len() as int));
        lemma_mips_injective(w.mips, v.mips, base);
        lemma_faces_injective(w.irr, v.irr, sq(v.irr_size as nat));
        lemma_run_injective(w.lut, v.lut, sq(v.lut_size as nat));
    }
}

// ---------------------------------------------------------------------------
// Writing a container
// ---------------------------------------------------------------------------

/// The four little-endian bytes of `x`.
fn le_bytes(x: u32) -> (r: [u8; 4])
    ensures
        r@ == le32(x),
{
    let r = [(x % 256) as u8, ((x / 256) % 256) as u8, ((x / 65536) % 256) as u8, (x / 16777216) as u8];
    assert(r@ =~= le32(x));
    r
}

/// Appends the bytes of every texel of `texels` to `out`.
fn append_texels(out: &mut Vec<u8>, texels: &Vec<[u8; 8]>)
    ensures
        final(out)@ == old(out)@ + run_bytes(texel_run(texels@)),
{
    let ghost start = out@;
    let mut t: usize = 0;
    while t < texels.len()
        invariant
            t <= texels.len(),
            out@ == start + run_bytes(texel_run(texels@).take(t as int)),
        decreases texels.len() - t,
    {
        out.extend_from_slice(&texels[t]);
        proof {
            let ts = texel_run(texels@);
            assert(ts.take(t + 1).drop_last() =~= ts.take(t as int));
            assert(ts.take(t + 1).last() == texels@[t as int]@);
        }
        t = t + 1;
    }
    assert(texel_run(texels@).take(texels.len() as int) =~= texel_run(texels@));
}

/// Serializes a bake to container bytes. Fails on the first prefilter
/// face (in mip, then face order) that does not hold `dim(mip)^2` texels;
/// the irradiance faces and the LUT are written as they are.
pub fn encode_env_file(bake: &EnvironmentBake) -> (r: Result<Vec<u8>, EnvFileError>)
    requires
        bake.prefilter.mip_chain@.len() >= bake.prefilter.mip_count,
    ensures
        match encode_outcome(bake@) {
            Ok(bytes) => r matches Ok(out) && out@ == bytes,
            Err(e) => r == Err::<Vec<u8>, EnvFileError>(e),
        },
{
    let ghost v = bake@;
    let mut out: Vec<u8> = Vec::new();
    out.extend_from_slice(&ENV_FILE_MAGIC);
    out.extend_from_slice(&le_bytes(ENV_FILE_VERSION));
    out.extend_from_slice(&le_bytes(0));
    out.extend_from_slice(&le_bytes(bake.prefilter.base_size));
    out.extend_from_slice(&le_bytes(bake.prefilter.mip_count));
    out.extend_from_slice(&le_bytes(bake.irradiance.size));
    out.extend_from_slice(&le_bytes(bake.brdf_lut.size));
    out.extend_from_slice(&bake.source_hash);
    assert(out@ =~= v.header());
    let count = bake.prefilter.mip_count;
    let mut mip: u32 = 0;
    let mut cur: u64 = bake.prefilter.base_size as u64;
    while mip < count
        invariant
            v == bake@,
            count == v.mip_count,
            bake.prefilter.mip_chain@.len() >= count,
            mip <= count,
            cur == halved(v.base_size as nat, mip as nat),
            out@ == v.header() + mips_bytes(v.mips.take(mip as int)),
            first_bad_prefilter(v, 0) == first_bad_prefilter(v, mip as nat),
        decreases count - mip,
    {
        proof {
            lemma_halved_le(v.base_size as nat, mip as nat);
        }
        let edge: u64 = if cur == 0 { 1 } else { cur };
        assert(edge * edge <= 0xFFFF_FFFE_0000_0001) by (nonlinear_arith)
            requires
                edge <= 0xFFFF_FFFF,
        ;
        let n: u64 = edge * edge;
        let ghost before = out@;
        let faces = &bake.prefilter.mip_chain[mip as usize];
        let ghost fv = v.mips[mip as int];
        assert(fv == face_set(*faces));
        let mut face: usize = 0;
        while face < 6
            invariant
                v == bake@,
                fv == face_set(*faces),
                fv.len() == 6,
                face <= 6,
                n == sq(mip_edge(v.base_size as nat, mip as nat)),
                out@ == before + faces_bytes(fv.take(face as int)),
                first_bad_face(fv, n as nat, 0) == first_bad_face(fv, n as nat, face as nat),
                first_bad_prefilter(v, 0) == first_bad_prefilter(v, mip as nat),
                mip < count,
                count == v.mip_count,
                fv == v.mips[mip as int],
            decreases 6 - face,
        {
            let texels = &faces[face];
            if texels.len() as u64 != n {
                proof {
                    assert(fv[face as int].len() == texels@.len());
                    assert(first_bad_face(fv, n as nat, face as nat) == Some(face as nat));
                }
                return Err(EnvFileError::PrefilterLengthMismatch { mip, face: face as u32 });
            }
            append_texels(&mut out, texels);
            proof {
                assert(fv.take(face + 1).drop_last() =~= fv.take(face as int));
                assert(fv.take(face + 1).last() == texel_run(texels@));
                assert(fv[face as int].len() == n);
            }
            face = face + 1;
        }
        proof {
            assert(fv.take(6) =~= fv);
            assert(v.mips.take(mip + 1).drop_last() =~= v.mips.take(mip as int));
            assert(v.mips.take(mip + 1).last() == fv);
        }
        mip = mip + 1;
        cur = cur / 2;
    }
    let ghost after_mips = out@;
    let mut face: usize = 0;
    while face < 6
        invariant
            v == bake@,
            face <= 6,
            out@ == after_mips + faces_bytes(v.irr.take(face as int)),
        decreases 6 - face,
    {
        append_texels(&mut out, &bake.irradiance.faces_rgba16f[face]);
        proof {
            assert(v.irr.take(face + 1).drop_last() =~= v.irr.take(face as int));
        }
        face = face + 1;
    }
    assert(v.irr.take(6) =~= v.irr);
    append_texels(&mut out, &bake.brdf_lut.pixels_rgba16f);
    Ok(out)
}

// ---------------------------------------------------------------------------
// Reading a container
// ---------------------------------------------------------------------------

/// The views of a list of faces.
pub open spec fn faces_view(fs: Seq<Vec<[u8; 8]>>) -> Seq<Seq<Seq<u8>>> {
    fs.map_values(|f: Vec<[u8; 8]>| texel_run(f@))
}

/// The views of a list of mips.
pub open spec fn chain_view(ms: Seq<[Vec<[u8; 8]>; 6]>) -> Seq<Seq<Seq<Seq<u8>>>> {
    ms.map_values(|fs: [Vec<[u8; 8]>; 6]| face_set(fs))
}

/// The little-endian `u32` at byte `at`.
fn read_u32(bytes: &[u8], at: usize) -> (r: u32)
    requires
        at + 4 <= bytes@.len(),
    ensures
        r == read_le32(bytes@, at as int),
{
    let b0 = bytes[at] as u32;
    let b1 = bytes[at + 1] as u32;
    let b2 = bytes[at + 2] as u32;
    let b3 = bytes[at + 3] as u32;
    assert(b0 + 256 * b1 + 65536 * b2 + 16777216 * b3 <= 0xFFFF_FFFF) by (nonlinear_arith)
        requires
            b0 <= 255,
            b1 <= 255,
            b2 <= 255,
            b3 <= 255,
    ;
    b0 + 256 * b1 + 65536 * b2 + 16777216 * b3
}

/// Reads `n` texels starting at byte `at`.
fn read_texels(bytes: &[u8], at: usize, n: usize) -> (r: Vec<[u8; 8]>)
    requires
        at + 8 * n <= bytes@.len(),
    ensures
        run_shaped(texel_run(r@), n as nat),
        run_bytes(texel_run(r@)) == bytes@.subrange(at as int, at + 8 * n),
{
    let mut out: Vec<[u8; 8]> = Vec::new();
    let mut c: usize = at;
    let mut k: usize = 0;
    while k < n
        invariant
            k <= n,
            c == at + 8 * k,
            at + 8 * n <= bytes@.len(),
            out@.len() == k,
            run_bytes(texel_run(out@)) == bytes@.subrange(at as int, c as int),
        decreases n - k,
    {
        let t: [u8; 8] = [
            bytes[c],
            bytes[c + 1],
            bytes[c + 2],
            bytes[c + 3],
            bytes[c + 4],
            bytes[c + 5],
            bytes[c + 6],
            bytes[c + 7],
        ];
        assert(t@ =~= bytes@.subrange(c as int, c + 8));
        let ghost prev = out@;
        out.push(t);
        proof {
            assert(texel_run(out@).drop_last() =~= texel_run(prev));
            assert(bytes@.subrange(at as int, c + 8) =~= bytes@.subrange(at as int, c as int)
                + bytes@.subrange(c as int, c + 8));
        }
        c = c + 8;
        k = k + 1;
    }
    out
}

/// Reads six consecutive faces of `n` texels starting at byte `at`,
/// reporting the first face that runs past the end of `bytes`.
fn read_six_faces(bytes: &[u8], at: usize, n: u64) -> (r: Result<([Vec<[u8; 8]>; 6], usize), u32>)
    requires
        at <= bytes@.len(),
    ensures
        match first_short_face(bytes@.len(), at as nat, n as nat, 0) {
            Some(f) => r == Err::<([Vec<[u8; 8]>; 6], usize), u32>(f as u32),
            None => r matches Ok((faces, end)) && {
                &&& end == at + 48 * n
                &&& end <= bytes@.len()
                &&& face_set(faces).len() == 6
                &&& faces_shaped(face_set(faces), n as nat)
                &&& faces_bytes(face_set(faces)) == bytes@.subrange(at as int, end as int)
            },
        },
{
    let mut faces: Vec<Vec<[u8; 8]>> = Vec::new();
    let mut c: usize = at;
    let mut f: usize = 0;
    while f < 6
        invariant
            f <= 6,
            at <= c <= bytes@.len(),
            c == at + 8 * f * n,
            faces@.len() == f,
            first_short_face(bytes@.len(), at as nat, n as nat, 0) == first_short_face(
                bytes@.len(),
                at as nat,
                n as nat,
                f as nat,
            ),
            faces_shaped(faces_view(faces@), n as nat),
            faces_bytes(faces_view(faces@)) == bytes@.subrange(at as int, c as int),
        decreases 6 - f,
    {
        let room: usize = (bytes.len() - c) / 8;
        assert(8 * (f + 1) * n == 8 * f * n + 8 * n) by (nonlinear_arith);
        if n > room as u64 {
            return Err(f as u32);
        }
        let run = read_texels(bytes, c, n as usize);
        let ghost prev = faces@;
        faces.push(run);
        proof {
            assert(faces_view(faces@).drop_last() =~= faces_view(prev));
            assert(faces_view(faces@).last() == texel_run(run@));
            assert(bytes@.subrange(at as int, c + 8 * n) =~= bytes@.subrange(at as int, c as int)
                + bytes@.subrange(c as int, c + 8 * n));
            assert forall|i: int| 0 <= i < faces_view(faces@).len() implies run_shaped(
                #[trigger] faces_view(faces@)[i],
                n as nat,
            ) by {
                if i < prev.len() {
                    assert(faces_view(faces@)[i] == faces_view(prev)[i]);
                }
            }
        }
        c = c + 8 * (n as usize);
        f = f + 1;
    }
    let ghost all = faces@;
    let f5 = faces.pop().unwrap();
    let f4 = faces.pop().unwrap();
    let f3 = faces.pop().unwrap();
    let f2 = faces.pop().unwrap();
    let f1 = faces.pop().unwrap();
    let f0 = faces.pop().unwrap();
    let arr = [f0, f1, f2, f3, f4, f5];
    assert(face_set(arr) =~= faces_view(all)) by {
        assert(arr@[0] == all[0]);
        assert(arr@[1] == all[1]);
        assert(arr@[2] == all[2]);
        assert(arr@[3] == all[3]);
        assert(arr@[4] == all[4]);
        assert(arr@[5] == all[5]);
    }
    assert(8 * 6 * n == 48 * n);
    Ok((arr, c))
}

/// Reads container bytes back into a bake, rejecting short input, a
/// wrong magic or version, and input that ends inside a section.
/// Trailing bytes after the LUT are ignored.
pub fn decode_env_file(bytes: &[u8]) -> (r: Result<EnvironmentBake, EnvFileError>)
    ensures
        match decode_outcome(bytes@) {
            Ok(()) => r matches Ok(bake) && decoded_as(bytes@, bake@),
            Err(e) => r matches Err(e2) && e2 == e,
        },
{
    if bytes.len() < 64 {
        return Err(EnvFileError::TooShort);
    }
    let mut i: usize = 0;
    while i < 8
        invariant
            i <= 8,
            64 <= bytes@.len(),
            forall|j: int| 0 <= j < i ==> bytes@[j] == ENV_FILE_MAGIC@[j],
        decreases 8 - i,
    {
        if bytes[i] != ENV_FILE_MAGIC[i] {
            assert(bytes@.subrange(0, 8)[i as int] != ENV_FILE_MAGIC@[i as int]);
            return Err(EnvFileError::BadMagic);
        }
        i = i + 1;
    }
    assert(bytes@.subrange(0, 8) =~= ENV_FILE_MAGIC@);
    let version = read_u32(bytes, 8);
    if version != ENV_FILE_VERSION {
        return Err(EnvFileError::UnsupportedVersion(version));
    }
    let base = read_u32(bytes, 16);
    let mips = read_u32(bytes, 20);
    let irr = read_u32(bytes, 24);
    let lut = read_u32(bytes, 28);
    let mut hash: [u8; 32] = [0u8; 32];
    let mut h: usize = 0;
    while h < 32
        invariant
            h <= 32,
            64 <= bytes@.len(),
            forall|j: int| 0 <= j < h ==> hash@[j] == bytes@[32 + j],
        decreases 32 - h,
    {
        hash[h] = bytes[32 + h];
        h = h + 1;
    }
    assert(hash@ =~= bytes@.subrange(32, 64));
    let ghost b = bytes@;
    let mut cursor: usize = 64;
    let mut chain: Vec<[Vec<[u8; 8]>; 6]> = Vec::new();
    let mut mip: u32 = 0;
    let mut cur: u64 = base as u64;
    while mip < mips
        invariant
            b == bytes@,
            64 <= b.len(),
            b.subrange(0, 8) == ENV_FILE_MAGIC@,
            read_le32(b, 8) == ENV_FILE_VERSION,
            base as nat == hdr_base(b),
            mips as nat == hdr_mips(b),
            mip <= mips,
            cur == halved(base as nat, mip as nat),
            cursor == mip_start(base as nat, mip as nat),
            cursor <= b.len(),
            chain@.len() == mip,
            mips_shaped(chain_view(chain@), base as nat),
            mips_bytes(chain_view(chain@)) == b.subrange(64, cursor as int),
            first_short_prefilter(b.len(), base as nat, mips as nat, 0) == first_short_prefilter(
                b.len(),
                base as nat,
                mips as nat,
                mip as nat,
            ),
        decreases mips - mip,
    {
        proof {
            lemma_halved_le(base as nat, mip as nat);
        }
        let edge: u64 = if cur == 0 { 1 } else { cur };
        assert(edge * edge <= 0xFFFF_FFFE_0000_0001) by (nonlinear_arith)
            requires
                edge <= 0xFFFF_FFFF,
        ;
        let n: u64 = edge * edge;
        assert(n == sq(mip_edge(base as nat, mip as nat)));
        match read_six_faces(bytes, cursor, n) {
            Err(f) => {
                proof {
                    lemma_first_short_face_range(b.len(), cursor as nat, n as nat, 0);
                }
                assert(first_short_prefilter(b.len(), base as nat, mips as nat, mip as nat) == Some(
                    (mip as nat, f as nat),
                ));
                return Err(EnvFileError::TruncatedPrefilter { mip, face: f });
            },
            Ok((faces, end)) => {
                let ghost prev = chain@;
                chain.push(faces);
                proof {
                    assert(chain_view(chain@).drop_last() =~= chain_view(prev));
                    assert(chain_view(chain@).last() == face_set(faces));
                    assert(b.subrange(64, end as int) =~= b.subrange(64, cursor as int) + b.subrange(
                        cursor as int,
                        end as int,
                    ));
                    assert forall|m: int| 0 <= m < chain_view(chain@).len() implies (
                    #[trigger] chain_view(chain@)[m]).len() == 6 && faces_shaped(
                        chain_view(chain@)[m],
                        sq(mip_edge(base as nat, m as nat)),
                    ) by {
                        if m < prev.len() {
                            assert(chain_view(chain@)[m] == chain_view(prev)[m]);
                        }
                    }
                }
                cursor = end;
            },
        }
        mip = mip + 1;
        cur = cur / 2;
    }
    assert(irr as nat * irr as nat <= 0xFFFF_FFFE_0000_0001) by (nonlinear_arith)
        requires
            irr <= 0xFFFF_FFFF,
    ;
    let n_irr: u64 = irr as u64 * irr as u64;
    let (irr_faces, irr_end) = match read_six_faces(bytes, cursor, n_irr) {
        Err(f) => {
            proof {
                lemma_first_short_face_range(b.len(), cursor as nat, n_irr as nat, 0);
            }
            return Err(EnvFileError::TruncatedIrradiance { face: f });
        },
        Ok(x) => x,
    };
    assert(lut as nat * lut as nat <= 0xFFFF_FFFE_0000_0001) by (nonlinear_arith)
        requires
            lut <= 0xFFFF_FFFF,
    ;
    let n_lut: u64 = lut as u64 * lut as u64;
    let room: usize = (bytes.len() - irr_end) / 8;
    if n_lut > room as u64 {
        return Err(EnvFileError::TruncatedBrdfLut);
    }
    let lut_texels = read_texels(bytes, irr_end, n_lut as usize);
    let bake = EnvironmentBake {
        prefilter: PrefilterCubemap { base_size: base, mip_count: mips, mip_chain: chain },
        irradiance: IrradianceCubemap { size: irr, faces_rgba16f: irr_faces },
        brdf_lut: BrdfLut { size: lut, pixels_rgba16f: lut_texels },
        source_hash: hash,
    };
    proof {
        let v = bake@;
        assert(v.mips == chain_view(chain@));
        assert(b.subrange(64, lut_end(b) as int) =~= b.subrange(64, cursor as int) + b.subrange(
            cursor as int,
            irr_end as int,
        ) + b.subrange(irr_end as int, lut_end(b) as int));
    }
    Ok(bake)
}

/// Returns the container bytes of `bake`, every face written as it is,
/// whatever its length; it never fails.
pub fn encode_for_test(bake: &EnvironmentBake) -> (r: Vec<u8>)
    requires
        bake.prefilter.mip_chain@.len() >= bake.prefilter.mip_count,
    ensures
        r@ == bake@.encoding(),
{
    let ghost v = bake@;
    let mut out: Vec<u8> = Vec::new();
    out.extend_from_slice(&ENV_FILE_MAGIC);
    out.extend_from_slice(&le_bytes(ENV_FILE_VERSION));
    out.extend_from_slice(&le_bytes(0));
    out.extend_from_slice(&le_bytes(bake.prefilter.base_size));
    out.extend_from_slice(&le_bytes(bake.prefilter.mip_count));
    out.extend_from_slice(&le_bytes(bake.irradiance.size));
    out.extend_from_slice(&le_bytes(bake.brdf_lut.size));
    out.extend_from_slice(&bake.source_hash);
    assert(out@ =~= v.header());
    let count = bake.prefilter.mip_count;
    let mut mip: u32 = 0;
    while mip < count
        invariant
            v == bake@,
            count == v.mip_count,
            bake.prefilter.mip_chain@.len() >= count,
            mip <= count,
            out@ == v.header() + mips_bytes(v.mips.take(mip as int)),
        decreases count - mip,
    {
        let ghost before = out@;
        let faces = &bake.prefilter.mip_chain[mip as usize];
        let ghost fv = v.mips[mip as int];
        assert(fv == face_set(*faces));
        let mut face: usize = 0;
        while face < 6
            invariant
                v == bake@,
                fv == face_set(*faces),
                fv.len() == 6,
                face <= 6,
                out@ == before + faces_bytes(fv.take(face as int)),
            decreases 6 - face,
        {
            let texels = &faces[face];
            append_texels(&mut out, texels);
            proof {
                assert(fv.take(face + 1).drop_last() =~= fv.take(face as int));
                assert(fv.take(face + 1).last() == texel_run(texels@));
            }
            face = face + 1;
        }
        proof {
            assert(fv.take(6) =~= fv);
            assert(v.mips.take(mip + 1).drop_last() =~= v.mips.take(mip as int));
            assert(v.mips.take(mip + 1).last() == fv);
        }
        mip = mip + 1;
    }
    let ghost after_mips = out@;
    let mut face: usize = 0;
    while face < 6
        invariant
            v == bake@,
            face <= 6,
            out@ == after_mips + faces_bytes(v.irr.take(face as int)),
        decreases 6 - face,
    {
        append_texels(&mut out, &bake.irradiance.faces_rgba16f[face]);
        proof {
            assert(v.irr.take(face + 1).drop_last() =~= v.irr.take(face as int));
        }
        face = face + 1;
    }
    assert(v.irr.take(6) =~= v.irr);
    append_texels(&mut out, &bake.brdf_lut.pixels_rgba16f);
    proof {
        assert(v.mips.take(count as int) =~= v.mips.take(v.mip_count as int));
    }
    out
}

/// Returns the BLAKE3 digest of the container bytes of `bake`, every face
/// written as it is.
pub fn env_file_hash(bake: &EnvironmentBake) -> (r: [u8; 32])
    requires
        bake.prefilter.mip_chain@.len() >= bake.prefilter.mip_count,
    ensures
        r@ == crate::content::blake3_digest(bake@.encoding()),
{
    let bytes = encode_for_test(bake);
    crate::content::blake3_hash(bytes.as_slice())
}

/// Byte `8 i + j` of a run of eight-byte texels is byte `j` of texel `i`.
pub proof fn lemma_run_bytes_index(ts: Seq<Seq<u8>>)
    requires
        forall|i: int| 0 <= i < ts.len() ==> (#[trigger] ts[i]).len() == 8,
    ensures
        run_bytes(ts).len() == 8 * ts.len(),
        forall|i: int, j: int| 0 <= i < ts.len() && 0 <= j < 8 ==> run_bytes(ts)[8 * i + j] == #[trigger] ts[i][j],
    decreases ts.len(),
{
    if ts.len() > 0 {
        let p = ts.drop_last();
        assert forall|i: int| 0 <= i < p.len() implies (#[trigger] p[i]).len() == 8 by {
            assert(p[i] == ts[i]);
        }
        lemma_run_bytes_index(p);
        assert(ts.last().len() == 8) by {
            assert(ts[ts.len() - 1] == ts.last());
        }
        assert forall|i: int, j: int| 0 <= i < ts.len() && 0 <= j < 8 implies run_bytes(ts)[8 * i + j]
            == #[trigger] ts[i][j] by {
            if i < ts.len() - 1 {
                assert(p[i] == ts[i]);
                assert(p[i][j] == run_bytes(p)[8 * i + j]);
            } else {
                assert(ts[i] == ts.last());
            }
        }
    }
}

/// The container ends with the BRDF LUT, texel after texel in row-major
/// order: the last `8 n` bytes of the encoding of a bake with `n` LUT
/// texels are texel 0, then texel 1, and so on.
pub proof fn law_env_lut_written_in_texel_order(v: BakeView)
    requires
        v.hash.len() == 32,
        forall|i: int| 0 <= i < v.lut.len() ==> (#[trigger] v.lut[i]).len() == 8,
    ensures
        ({
            let e = v.encoding();
            let l = e.len() - 8 * v.lut.len();
            &&& l >= 64
            &&& forall|i: int, j: int|
                0 <= i < v.lut.len() && 0 <= j < 8 ==> e[l + 8 * i + j] == #[trigger] v.lut[i][j]
        }),
{
    let e = v.encoding();
    let pre = v.header() + mips_bytes(v.mips.take(v.mip_count as int)) + faces_bytes(v.irr);
    lemma_run_bytes_index(v.lut);
    assert(e == pre + run_bytes(v.lut));
    assert(v.header().len() == 64);
    let l = e.len() - 8 * v.lut.len();
    assert(l == pre.len());
    assert forall|i: int, j: int| 0 <= i < v.lut.len() && 0 <= j < 8 implies e[l + 8 * i + j]
        == #[trigger] v.lut[i][j] by {
        assert(e[l + 8 * i + j] == run_bytes(v.lut)[8 * i + j]);
    }
}

/// Reading a container yields the BRDF LUT texels in the order they are
/// stored: texel `i` is the eight bytes at `lut_start + 8 i`.
pub proof fn law_env_lut_read_in_texel_order(b: Seq<u8>, v: BakeView)
    requires
        decode_outcome(b) is Ok,
        decoded_as(b, v),
    ensures
        forall|i: int, j: int|
            0 <= i < v.lut.len() && 0 <= j < 8 ==> #[trigger] v.lut[i][j] == b[lut_start(b) + 8 * i + j],
{
    let body = mips_bytes(v.mips) + faces_bytes(v.irr) + run_bytes(v.lut);
    let pre = mips_bytes(v.mips) + faces_bytes(v.irr);
    lemma_run_bytes_index(v.lut);
    assert(v.lut.len() == sq(hdr_lut(b)));
    assert(lut_end(b) <= b.len());
    assert(lut_start(b) >= 64);
    assert(body == b.subrange(64, lut_end(b) as int));
    assert(body.len() == lut_end(b) - 64);
    assert(pre.len() == lut_start(b) - 64);
    assert forall|i: int, j: int| 0 <= i < v.lut.len() && 0 <= j < 8 implies #[trigger] v.lut[i][j]
        == b[lut_start(b) + 8 * i + j] by {
        assert(body[pre.len() + 8 * i + j] == run_bytes(v.lut)[8 * i + j]);
        assert(body[pre.len() + 8 * i + j] == b[64 + pre.len() + 8 * i + j]);
    }
}

} // verus!
