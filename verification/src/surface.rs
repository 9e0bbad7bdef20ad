//! The layer surface's size and readiness, how a configure event from the
//! compositor changes them, and the buffer geometry of a frame.

use vstd::prelude::*;

verus! {

/// The side the surface gets from a configure event: the compositor's value
/// when it proposes one, the configured window's otherwise.
pub open spec fn chosen_side(proposed: u32, fallback: u32) -> u32 {
    if proposed > 0 {
        proposed
    } else {
        fallback
    }
}

/// Bytes of a `width` x `height` ARGB8888 frame.
pub open spec fn frame_bytes(width: u32, height: u32) -> int {
    width * height * 4
}

/// Whether a frame of that size can be counted in `u32`, as the size of the
/// shared-memory pool is.
pub open spec fn frame_bytes_fit(width: u32, height: u32) -> bool {
    frame_bytes(width, height) <= u32::MAX
}

/// The size in bytes of the shared-memory pool for a `width` x `height`
/// window: four bytes per pixel.
pub fn pool_bytes(width: u32, height: u32) -> (n: usize)
    requires
        frame_bytes_fit(width, height),
    ensures
        n == frame_bytes(width, height),
{
    assert(width * height * 4 <= u32::MAX);
    let wh: u64 = width as u64 * height as u64;
    assert(wh == width * height) by (nonlinear_arith)
        requires
            wh == width as u64 * height as u64,
    ;
    let n: u32 = (wh * 4) as u32;
    n as usize
}

/// Geometry of one frame's buffer, as the shared-memory pool takes it.
#[derive(Clone, Copy, Debug, PartialEq, Eq, Structural)]
pub struct FrameGeometry {
    pub width: i32,
    pub height: i32,
    pub stride: i32,
}

/// The part of the widget's state that decides whether and how large a
/// frame is drawn.
#[derive(Clone, Copy, Debug, PartialEq, Eq, Structural)]
pub struct SurfaceState {
    pub width: u32,
    pub height: u32,
    pub configured: bool,
}

/// The state after a configure event proposing `new_width` x `new_height`
/// for a window configured as `default_width` x `default_height`.
pub open spec fn after_configure(
    new_width: u32,
    new_height: u32,
    default_width: u32,
    default_height: u32,
) -> SurfaceState {
    SurfaceState {
        width: chosen_side(new_width, default_width),
        height: chosen_side(new_height, default_height),
        configured: true,
    }
}

/// The size the pool must grow to for frames of `width` x `height`, when
/// its current size `pool_len` is smaller than one frame.
pub open spec fn pool_growth(pool_len: usize, width: u32, height: u32) -> Option<usize> {
    if pool_len < frame_bytes(width, height) {
        Some(frame_bytes(width, height) as usize)
    } else {
        None
    }
}

/// The pool's size once a growth decided by `pool_growth` is carried out.
pub open spec fn pool_len_after(pool_len: usize, growth: Option<usize>) -> int {
    match growth {
        Some(n) => n as int,
        None => pool_len as int,
    }
}

/// Whether a frame is drawn in this state.
pub open spec fn draws(s: SurfaceState) -> bool {
    s.configured && s.width != 0 && s.height != 0
}

impl SurfaceState {
    /// The state before the compositor has configured the surface.
    pub fn new() -> (s: SurfaceState)
        ensures
            s == (SurfaceState { width: 0, height: 0, configured: false }),
    {
        SurfaceState { width: 0, height: 0, configured: false }
    }

    /// Handles a configure event proposing `new_width` x `new_height` (0 for
    /// "choose yourself"), with `default_width` x `default_height` the
    /// configured window size and `pool_len` the pool's current size. The
    /// surface takes the chosen size and becomes configured; the result is
    /// the size the pool must grow to, when it is smaller than one frame.
    pub fn configure(
        &mut self,
        new_width: u32,
        new_height: u32,
        default_width: u32,
        default_height: u32,
        pool_len: usize,
    ) -> (grow_to: Option<usize>)
        requires
            frame_bytes_fit(
                chosen_side(new_width, default_width),
                chosen_side(new_height, default_height),
            ),
        ensures
            *final(self) == after_configure(new_width, new_height, default_width, default_height),
            grow_to == pool_growth(pool_len, final(self).width, final(self).height),
    {
        self.width = if new_width > 0 {
            new_width
        } else {
            default_width
        };
        self.height = if new_height > 0 {
            new_height
        } else {
            default_height
        };
        let needed: usize = pool_bytes(self.width, self.height);
        self.configured = true;
        if pool_len < needed {
            Some(needed)
        } else {
            None
        }
    }

    /// Whether `configure` accepts these arguments: one frame of the size
    /// it would choose can be counted in `u32`.
    pub fn configure_fits(
        new_width: u32,
        new_height: u32,
        default_width: u32,
        default_height: u32,
    ) -> (ok: bool)
        ensures
            ok == frame_bytes_fit(
                chosen_side(new_width, default_width),
                chosen_side(new_height, default_height),
            ),
    {
        let w: u64 = if new_width > 0 {
            new_width as u64
        } else {
            default_width as u64
        };
        let h: u64 = if new_height > 0 {
            new_height as u64
        } else {
            default_height as u64
        };
        assert(w * h <= u32::MAX * u32::MAX) by (nonlinear_arith)
            requires
                w <= u32::MAX,
                h <= u32::MAX,
        ;
        let wh: u64 = w * h;
        if wh > 0x3FFF_FFFF {
            false
        } else {
            wh * 4 <= 0xFFFF_FFFF
        }
    }

    /// The geometry of the frame to draw now, or `None` while the surface
    /// is not configured or has an empty side.
    pub fn frame(&self) -> (g: Option<FrameGeometry>)
        requires
            draws(*self) ==> self.width * 4 <= u32::MAX,
        ensures
            g == (if draws(*self) {
                Some(
                    FrameGeometry {
                        width: self.width as i32,
                        height: self.height as i32,
                        stride: (self.width * 4) as i32,
                    },
                )
            } else {
                None::<FrameGeometry>
            }),
    {
        if !self.configured {
            return None;
        }
        if self.width == 0 || self.height == 0 {
            return None;
        }
        Some(
            FrameGeometry {
                width: self.width as i32,
                height: self.height as i32,
                stride: (self.width * 4) as i32,
            },
        )
    }
}

/// A configured surface whose frame can be counted can also be drawn: the
/// stride of its rows fits in `u32`, it draws exactly when both chosen sides
/// are non-zero, and a drawn frame's buffer fits in the pool as the
/// configure event leaves it.
pub proof fn lemma_configured_frame_fits_pool(
    new_width: u32,
    new_height: u32,
    default_width: u32,
    default_height: u32,
    pool_len: usize,
)
    requires
        frame_bytes_fit(
            chosen_side(new_width, default_width),
            chosen_side(new_height, default_height),
        ),
    ensures
        ({
            let s = after_configure(new_width, new_height, default_width, default_height);
            &&& draws(s) <==> (s.width != 0 && s.height != 0)
            &&& draws(s) ==> s.width * 4 <= u32::MAX
            &&& draws(s) ==> pool_len_after(pool_len, pool_growth(pool_len, s.width, s.height))
                >= (s.width * 4) * s.height
        }),
{
    let s = after_configure(new_width, new_height, default_width, default_height);
    if draws(s) {
        assert(s.width * 4 <= s.width * s.height * 4) by (nonlinear_arith)
            requires
                s.height >= 1,
        ;
        assert((s.width * 4) * s.height == s.width * s.height * 4) by (nonlinear_arith);
    }
}

/// A surface the compositor has not configured draws nothing.
pub proof fn lemma_unconfigured_draws_nothing(s: SurfaceState)
    requires
        !s.configured,
    ensures
        !draws(s),
{
}

/// A frame can be counted exactly when `width * height * 4` does not exceed
/// `u32::MAX`; in particular the order of the sides does not matter.
pub proof fn lemma_frame_bytes_fit_exact(width: u32, height: u32)
    ensures
        frame_bytes_fit(width, height) <==> width as int * height as int * 4 <= 0xFFFF_FFFF,
        frame_bytes_fit(width, height) == frame_bytes_fit(height, width),
        frame_bytes(width, height) == width as int * height as int * 4,
{
    assert(width as int * height as int == height as int * width as int) by (nonlinear_arith);
}

/// What a configure event does, in terms of its arguments: each side is the
/// proposed one when non-zero and the configured window's otherwise, the
/// surface is configured, the event is accepted exactly when the chosen
/// frame's byte count fits in `u32`, and the pool grows, to exactly that
/// byte count, exactly when it is smaller.
pub proof fn lemma_configure_effect(
    new_width: u32,
    new_height: u32,
    default_width: u32,
    default_height: u32,
    pool_len: usize,
)
    ensures
        ({
            let s = after_configure(new_width, new_height, default_width, default_height);
            let w: u32 = if new_width > 0 {
                new_width
            } else {
                default_width
            };
            let h: u32 = if new_height > 0 {
                new_height
            } else {
                default_height
            };
            let bytes = w as int * h as int * 4;
            &&& s.width == w
            &&& s.height == h
            &&& s.configured
            &&& frame_bytes_fit(chosen_side(new_width, default_width), chosen_side(new_height, default_height))
                <==> bytes <= 0xFFFF_FFFF
            &&& bytes <= 0xFFFF_FFFF ==> (pool_growth(pool_len, s.width, s.height) is Some <==> pool_len < bytes)
            &&& bytes <= 0xFFFF_FFFF ==> (pool_growth(pool_len, s.width, s.height) matches Some(n) ==> n == bytes)
        }),
{
}

} // verus!
