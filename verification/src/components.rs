//! Small components and resources the stock plugins register.

use vstd::prelude::*;

use crate::time::Tick;

verus! {

/// A human-readable name attached to an entity.
#[derive(Debug, Clone, PartialEq, Eq, Hash, Default)]
pub struct LabelComponent {
    pub id: String,
}

impl LabelComponent {
    /// A label with the given name.
    pub fn new(id: &str) -> (r: LabelComponent)
        ensures
            r.id@ == id@,
    {
        LabelComponent { id: id.to_owned() }
    }
}

/// A two-state button: one click turns it on, the next turns it off.
#[derive(Debug, Clone, Copy, PartialEq, Eq, Structural, Default)]
pub struct ToggleButtonComponent {
    pub on: bool,
}

/// How long a timed button stays pressed: a stretch of driver-clock
/// nanoseconds, or a number of ticks.
#[derive(Debug, Clone, Copy, PartialEq, Eq, Structural)]
pub enum Delay {
    Time(u64),
    Tick(Tick),
}

impl Default for Delay {
    /// One tick.
    fn default() -> (r: Delay)
        ensures
            r == Delay::Tick(Tick(1u64)),
    {
        Delay::Tick(Tick(1))
    }
}

/// A button that springs back after its delay.
#[derive(Debug, Clone, Copy, PartialEq, Eq, Structural, Default)]
pub struct TimedButtonComponent {
    pub on: bool,
    pub delay: Delay,
}

/// The window's size in physical pixels, kept as a resource for systems
/// that project into screen space.
#[derive(Debug, Clone, Copy, PartialEq, Eq, Structural, Default)]
pub struct WindowDimensions {
    pub width: u32,
    pub height: u32,
}

/// Which layout a render bind group belongs to.
#[derive(Debug, Clone, Copy, PartialEq, Eq, Structural, Hash)]
pub enum BindGroupType {
    Texture,
    Camera,
}

/// Which render pipeline an object is drawn with.
#[derive(Debug, Clone, Copy, PartialEq, Eq, Structural, Hash)]
pub enum PipelineType {
    TwoDColoredLineList,
    TwoDColoredTriangleList,
    TwoDTexturedTriangleList,
    ThreeDColoredLineList,
    ThreeDColoredTriangleList,
    ThreeDTexturedTriangleList,
}

/// Where a model's geometry and material definitions live on disk; the
/// loading itself is the driver's business.
#[derive(Debug, Clone, PartialEq, Eq)]
pub struct Resources {
    pub obj_path: String,
    pub mat_path: String,
}

impl Resources {
    /// Remembers the two directories.
    pub fn new(obj_path: &str, mat_path: &str) -> (r: Resources)
        ensures
            r.obj_path@ == obj_path@,
            r.mat_path@ == mat_path@,
    {
        Resources { obj_path: obj_path.to_owned(), mat_path: mat_path.to_owned() }
    }
}

} // verus!
