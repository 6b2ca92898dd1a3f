//! Depth read-back bookkeeping: the fingerprint that a depth buffer must
//! match to be trusted, the row-padded sample addressing, the per-frame
//! read-back cycle, and the visibility rule for peaks.

use vstd::prelude::*;

verus! {

/// A two-dimensional extent.
#[derive(Debug, Clone, Copy, PartialEq, Eq, Structural)]
pub struct Size<T> {
    pub width: T,
    pub height: T,
}

impl<T> Size<T> {
    pub fn new(width: T, height: T) -> (r: Size<T>)
        ensures
            r.width == width,
            r.height == height,
    {
        Size { width, height }
    }
}

/// The camera pose as raw bit patterns: two poses are the same exactly
/// when all their bits agree, which is what a depth-buffer fingerprint
/// needs (the arithmetic on the pose itself stays with the renderer).
#[derive(Debug, Clone, Copy, PartialEq, Eq, Structural)]
pub struct CameraBits {
    pub eye_x: u32,
    pub eye_y: u32,
    pub eye_z: u32,
    pub pitch: u32,
    pub yaw: u32,
    pub fov_y: u32,
}

/// What the depth buffer currently reflects: viewport size and camera
/// pose. A pending or completed read-back is only valid while this
/// fingerprint is unchanged from request to completion.
#[derive(Debug, Clone, Copy, PartialEq, Eq, Structural)]
pub struct DepthState {
    pub size: Size<u32>,
    pub camera: CameraBits,
}

/// Bytes per padded row: the row byte count rounded up to a multiple of
/// 256, the copy alignment of the depth read-back buffer.
pub fn pad_256(size: u32) -> (r: u32)
    requires
        1 <= size <= 4_294_967_040,
    ensures
        r == ((size - 1) / 256 + 1) * 256,
        r % 256 == 0,
        size <= r < size + 256,
{
    let r = ((size - 1) / 256 + 1) * 256;
    proof {
        let q = ((size - 1) / 256 + 1) as int;
        assert((q * 256) % 256 == 0) by (nonlinear_arith);
        assert(((size - 1) / 256) * 256 <= size - 1 < ((size - 1) / 256) * 256 + 256)
            by (nonlinear_arith)
            requires
                size >= 1,
        ;
    }
    r
}

/// Bytes per padded row of a depth raster `width` pixels wide.
pub open spec fn spec_row_stride(width: int) -> int {
    ((width * 4 - 1) / 256 + 1) * 256
}

/// Byte offset of the depth sample at pixel `(x, y)` in a read-back
/// buffer whose rows are padded to 256 bytes: four bytes per sample, and
/// the sample stays within its own padded row.
pub fn depth_sample_offset(x: u32, y: u32, width: u32) -> (r: u64)
    requires
        1 <= width <= 1_000_000_000,
        x < width,
    ensures
        r == x * 4 + y * spec_row_stride(width as int),
        r + 4 <= (y + 1) * spec_row_stride(width as int),
{
    let stride = pad_256(width * 4);
    proof {
        let s = stride as int;
        assert(s == spec_row_stride(width as int));
        assert(x * 4 + 4 <= s);
        assert(y * s + x * 4 + 4 <= y * s + s) by (nonlinear_arith)
            requires
                x * 4 + 4 <= s,
        ;
        assert(y * s + s == (y + 1) * s) by (nonlinear_arith);
        assert(x as int * 4 + y as int * s <= u64::MAX) by (nonlinear_arith)
            requires
                0 <= y <= u32::MAX,
                0 <= s <= 4_000_000_256,
                0 <= x as int * 4 < s,
        ;
    }
    (x as u64) * 4 + (y as u64) * (stride as u64)
}

/// Where the per-frame read-back cycle stands. The fingerprint taken when
/// the copy was issued travels with the cycle.
#[derive(Debug, Clone, Copy, PartialEq, Eq, Structural)]
pub enum ReadbackPhase {
    /// No read-back is in flight.
    Idle,
    /// The depth copy was submitted under this fingerprint.
    Requested(DepthState),
    /// The copied buffer is mapped for CPU reads.
    Mapped(DepthState),
}

/// Drives the read-back cycle: at most one read-back is in flight, and a
/// result is only resolved when the fingerprint it was captured under is
/// still current; a stale result is discarded and the cycle returns to
/// idle either way.
pub struct DepthVisibilityResolver {
    phase: ReadbackPhase,
    resolved: Option<DepthState>,
}

impl DepthVisibilityResolver {
    /// Where the cycle stands.
    pub closed spec fn phase(self) -> ReadbackPhase {
        self.phase
    }

    /// The fingerprint of the last resolved read-back.
    pub closed spec fn resolved_state(self) -> Option<DepthState> {
        self.resolved
    }

    pub fn new() -> (r: DepthVisibilityResolver)
        ensures
            r.phase() is Idle,
            r.resolved_state() is None,
    {
        DepthVisibilityResolver { phase: ReadbackPhase::Idle, resolved: None }
    }

    /// Whether a new depth copy must be issued after this frame: only
    /// when none is in flight and the current fingerprint differs from
    /// the last resolved one.
    pub fn should_request(&self, current: &DepthState) -> (r: bool)
        ensures
            r == (self.phase() is Idle && self.resolved_state() != Some(*current)),
    {
        match (&self.phase, &self.resolved) {
            (ReadbackPhase::Idle, Option::None) => true,
            (ReadbackPhase::Idle, Option::Some(resolved)) => !(*resolved == *current),
            _ => false,
        }
    }

    /// Records that the depth copy was submitted under this fingerprint.
    pub fn on_copy_requested(&mut self, fingerprint: DepthState)
        requires
            old(self).phase() is Idle,
        ensures
            final(self).phase() == ReadbackPhase::Requested(fingerprint),
            final(self).resolved_state() == old(self).resolved_state(),
    {
        self.phase = ReadbackPhase::Requested(fingerprint);
    }

    /// Records that the copied buffer is mapped for CPU reads.
    pub fn on_mapped(&mut self)
        requires
            old(self).phase() matches ReadbackPhase::Requested(_),
        ensures
            final(self).phase() == ReadbackPhase::Mapped(
                old(self).phase()->Requested_0,
            ),
            final(self).resolved_state() == old(self).resolved_state(),
    {
        let fingerprint = match &self.phase {
            ReadbackPhase::Requested(f) => *f,
            _ => {
                proof {
                    assert(false);
                }
                DepthState {
                    size: Size { width: 0, height: 0 },
                    camera: CameraBits {
                        eye_x: 0,
                        eye_y: 0,
                        eye_z: 0,
                        pitch: 0,
                        yaw: 0,
                        fov_y: 0,
                    },
                }
            },
        };
        self.phase = ReadbackPhase::Mapped(fingerprint);
    }

    /// Consumes the mapped buffer: the result counts only when the
    /// fingerprint is still the current one; a stale result is discarded.
    /// The cycle returns to idle on both paths, so the buffer is always
    /// released.
    pub fn resolve(&mut self, current: &DepthState) -> (accepted: bool)
        requires
            old(self).phase() matches ReadbackPhase::Mapped(_),
        ensures
            final(self).phase() is Idle,
            accepted == (old(self).phase() == ReadbackPhase::Mapped(*current)),
            accepted ==> final(self).resolved_state() == Some(*current),
            !accepted ==> final(self).resolved_state() == old(self).resolved_state(),
    {
        let accepted = match &self.phase {
            ReadbackPhase::Mapped(fingerprint) => *fingerprint == *current,
            _ => {
                proof {
                    assert(false);
                }
                false
            },
        };
        if accepted {
            self.resolved = Some(*current);
        }
        self.phase = ReadbackPhase::Idle;
        accepted
    }
}

/// The visibility rule: a peak shows when it stands nearer than the
/// terrain the depth buffer recorded at its pixel, less a small margin
/// against self-occlusion flicker. Distances are in thousandths of a
/// scene unit.
pub open spec fn spec_visible(peak_distance: int, terrain_distance: int, margin: int) -> bool {
    peak_distance - margin < terrain_distance
}

/// Whether a peak at `peak_distance` is visible against terrain at
/// `terrain_distance`, with the given margin; all in thousandths of a
/// scene unit.
pub fn is_visible(peak_distance: i64, terrain_distance: i64, margin: i64) -> (r: bool)
    requires
        -1_000_000_000_000 <= peak_distance <= 1_000_000_000_000,
        -1_000_000_000_000 <= margin <= 1_000_000_000_000,
    ensures
        r == spec_visible(peak_distance as int, terrain_distance as int, margin as int),
{
    peak_distance - margin < terrain_distance
}

/// Moving a peak further away never turns it from hidden to visible: for
/// a fixed terrain depth and margin, visibility is monotone.
pub proof fn lemma_visibility_monotonic(
    nearer: int,
    further: int,
    terrain_distance: int,
    margin: int,
)
    requires
        nearer <= further,
        spec_visible(further, terrain_distance, margin),
    ensures
        spec_visible(nearer, terrain_distance, margin),
{
}

} // verus!
