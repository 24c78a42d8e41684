use vstd::prelude::*;

verus! {

/// Fewest particles the engine runs with.
pub const MIN_PARTICLES: usize = 500;

/// Most particles the engine runs with.
pub const MAX_PARTICLES: usize = 200_000;

/// Added to the shape number in the statistics while the morph targets come from text.
pub const TEXT_SHAPE_OFFSET: u32 = 100;

/// Simulation mode.
#[derive(Clone, Copy, Debug, PartialEq, Eq, Structural)]
pub enum Mode {
    /// SPH fluid (dam break).
    Sph,
    /// Particles spring toward cycling parametric shapes.
    Morph,
    /// Particles spring toward rasterised text.
    Text,
}

pub open spec fn mode_of_code(code: u32) -> Mode {
    if code == 0 {
        Mode::Sph
    } else if code == 1 {
        Mode::Morph
    } else {
        Mode::Text
    }
}

pub open spec fn code_of_mode(m: Mode) -> u32 {
    match m {
        Mode::Sph => 0,
        Mode::Morph => 1,
        Mode::Text => 2,
    }
}

impl Mode {
    /// Mode selected by a host code: 0 is SPH, 1 is morph, anything else is text.
    pub fn from_code(code: u32) -> (m: Mode)
        ensures
            m == mode_of_code(code),
    {
        match code {
            0 => Mode::Sph,
            1 => Mode::Morph,
            _ => Mode::Text,
        }
    }

    /// The host code of a mode.
    pub fn code(self) -> (c: u32)
        ensures
            c == code_of_mode(self),
    {
        match self {
            Mode::Sph => 0,
            Mode::Morph => 1,
            Mode::Text => 2,
        }
    }
}

/// A mode survives the round trip through its code, and every code names the mode whose
/// code is the code capped at 2.
pub proof fn lemma_mode_code_round_trip(m: Mode, code: u32)
    ensures
        mode_of_code(code_of_mode(m)) == m,
        code_of_mode(mode_of_code(code)) == if code <= 2 {
            code
        } else {
            2
        },
{
}

/// Requested particle counts are clamped into `MIN_PARTICLES ..= MAX_PARTICLES`.
pub fn clamp_count(n: usize) -> (r: usize)
    ensures
        MIN_PARTICLES <= r <= MAX_PARTICLES,
        MIN_PARTICLES <= n <= MAX_PARTICLES ==> r == n,
        n < MIN_PARTICLES ==> r == MIN_PARTICLES,
        n > MAX_PARTICLES ==> r == MAX_PARTICLES,
{
    if n < MIN_PARTICLES {
        MIN_PARTICLES
    } else if n > MAX_PARTICLES {
        MAX_PARTICLES
    } else {
        n
    }
}

/// The shape number reported in the statistics: 0 in SPH mode; otherwise the current shape
/// index (as a `u32`), plus `TEXT_SHAPE_OFFSET` while the targets come from text.
pub fn stats_shape(mode: Mode, shape_idx: usize, text_mode: bool) -> (r: u32)
    requires
        mode != Mode::Sph && text_mode ==> shape_idx as u32 + TEXT_SHAPE_OFFSET <= u32::MAX,
    ensures
        r == match mode {
            Mode::Sph => 0,
            _ => shape_idx as u32 + if text_mode {
                TEXT_SHAPE_OFFSET as int
            } else {
                0
            },
        },
{
    match mode {
        Mode::Sph => 0,
        _ => shape_idx as u32 + if text_mode {
            TEXT_SHAPE_OFFSET
        } else {
            0
        },
    }
}

/// The framebuffer is reallocated for a new size only when the size changes and both sides
/// are positive.
pub fn resize_needed(cur_w: i32, cur_h: i32, w: i32, h: i32) -> (r: bool)
    ensures
        r == (!(w == cur_w && h == cur_h) && w > 0 && h > 0),
{
    if w == cur_w && h == cur_h {
        return false;
    }
    if w <= 0 || h <= 0 {
        return false;
    }
    true
}

} // verus!
