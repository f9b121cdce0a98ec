//! What the command line asks for: which files to write, under which names, and at which size.

use vstd::prelude::*;

verus! {

/// Default longest-side length when no sizing parameter is given.
pub const DEFAULT_SIZE: u32 = 1024;

/// Suffix used for output names when no destination is given.
pub const DEFAULT_SUFFIX: &'static str = "svgy";

/// Suffix used for `--round`, so it never collides with `--svg`.
pub const ROUND_SUFFIX: &'static str = "round";

/// Target size, preserving aspect ratio and fitting inside the box.
#[derive(Clone, Copy, Debug, PartialEq, Eq, Structural)]
pub enum Target {
    /// Longest side becomes N.
    Square(u32),
    /// Fixed width, height derived from aspect ratio.
    Width(u32),
    /// Fixed height, width derived from aspect ratio.
    Height(u32),
    /// Fit inside W x H.
    Both(u32, u32),
}

impl Target {
    /// The canvas each axis asks for: an axis the target fixes is padded up to that length, and a
    /// free axis is as long as the artwork.
    pub open spec fn spec_canvas(self) -> (Option<u32>, Option<u32>) {
        match self {
            Target::Square(n) => (Some(n), Some(n)),
            Target::Width(w) => (Some(w), None),
            Target::Height(h) => (None, Some(h)),
            Target::Both(w, h) => (Some(w), Some(h)),
        }
    }

    /// The canvas each axis asks for, in pixels.
    #[verifier::when_used_as_spec(spec_canvas)]
    pub fn canvas(self) -> (r: (Option<u32>, Option<u32>))
        ensures
            r == self.spec_canvas(),
    {
        match self {
            Target::Square(n) => (Some(n), Some(n)),
            Target::Width(w) => (Some(w), None),
            Target::Height(h) => (None, Some(h)),
            Target::Both(w, h) => (Some(w), Some(h)),
        }
    }
}

/// The sizing options of the command line.
#[derive(Clone, Copy, Debug, PartialEq, Eq, Structural)]
pub struct SizeOpts {
    /// Longest side in pixels; takes precedence over `width` and `height`.
    pub size: Option<u32>,
    /// Target width in pixels.
    pub width: Option<u32>,
    /// Target height in pixels.
    pub height: Option<u32>,
}

impl SizeOpts {
    /// The target that the options name, `None` when no size was given.
    pub open spec fn spec_target(self) -> Option<Target> {
        match (self.size, self.width, self.height) {
            (Some(s), _, _) => Some(Target::Square(s)),
            (None, Some(w), Some(h)) => Some(Target::Both(w, h)),
            (None, Some(w), None) => Some(Target::Width(w)),
            (None, None, Some(h)) => Some(Target::Height(h)),
            (None, None, None) => None,
        }
    }

    /// Resolve to a [`Target`], or `None` if no size was given.
    pub fn target(&self) -> (r: Option<Target>)
        ensures
            r == self.spec_target(),
    {
        match (self.size, self.width, self.height) {
            (Some(s), _, _) => Some(Target::Square(s)),
            (None, Some(w), Some(h)) => Some(Target::Both(w, h)),
            (None, Some(w), None) => Some(Target::Width(w)),
            (None, None, Some(h)) => Some(Target::Height(h)),
            (None, None, None) => None,
        }
    }

    /// The target to resize by, falling back to a square of [`DEFAULT_SIZE`].
    pub fn target_or_default(&self) -> (r: Target)
        ensures
            r == (match self.spec_target() {
                Some(t) => t,
                None => Target::Square(DEFAULT_SIZE),
            }),
    {
        match self.target() {
            Some(t) => t,
            None => Target::Square(DEFAULT_SIZE),
        }
    }
}

/// The files the command line asks for. Each is absent, present with no path (the name is
/// derived from the input), or present with a path.
#[derive(Debug)]
pub struct Targets {
    pub svg: Option<Option<String>>,
    pub png: Option<Option<String>>,
    pub ico: Option<Option<String>>,
    pub icns: Option<Option<String>>,
    pub round: Option<Option<String>>,
}

impl Targets {
    /// No target was asked for.
    pub open spec fn spec_no_target(&self) -> bool {
        self.svg is None && self.png is None && self.ico is None && self.icns is None
            && self.round is None
    }

    /// `true` when no output target was requested, in which case `--svg` is implied. Any explicit
    /// target turns that default off.
    pub fn no_target(&self) -> (r: bool)
        ensures
            r == self.spec_no_target(),
    {
        self.svg.is_none() && self.png.is_none() && self.ico.is_none() && self.icns.is_none()
            && self.round.is_none()
    }

    /// Whether an SVG output is wanted, and where it goes.
    pub fn svg_target(&self) -> (r: Option<Option<String>>)
        ensures
            self.spec_no_target() ==> r == Some(None::<String>),
            !self.spec_no_target() ==> match self.svg {
                None => r is None,
                Some(None) => r == Some(None::<String>),
                Some(Some(p)) => r matches Some(Some(q)) && q@ == p@,
            },
    {
        if self.no_target() {
            // The implicit default: `svgy file.svg` -> `file.svgy.svg`.
            return Some(None);
        }
        match &self.svg {
            None => None,
            Some(None) => Some(None),
            Some(Some(p)) => Some(Some(p.clone())),
        }
    }
}

} // verus!
