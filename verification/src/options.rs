//! The options a caller chooses between: colour space, palette algorithm,
//! the way colours are put back, and the output file type.

use crate::error::Error;
use crate::text::str_equals;
use vstd::prelude::*;

verus! {

/// The space in which colour distances are measured.
#[derive(Debug, Clone, Copy, PartialEq, Eq, Structural)]
pub enum ColorSpace {
    Lab,
    Rgb,
}

impl ColorSpace {
    /// The name of this colour space.
    pub open spec fn spec_name(self) -> Seq<char> {
        match self {
            ColorSpace::Lab => "lab"@,
            ColorSpace::Rgb => "rgb"@,
        }
    }

    /// The colour space that `name` names.
    pub open spec fn named(name: Seq<char>) -> Option<ColorSpace> {
        if name == "lab"@ {
            Some(ColorSpace::Lab)
        } else if name == "rgb"@ {
            Some(ColorSpace::Rgb)
        } else {
            None
        }
    }

    /// How far a centroid may move and still count as settled, as the
    /// fraction `numerator / denominator`: 1 in Lab, 0.01 in RGB.
    pub open spec fn spec_convergence(self) -> (nat, nat) {
        match self {
            ColorSpace::Lab => (1, 1),
            ColorSpace::Rgb => (1, 100),
        }
    }

    /// The colour space that `str` names, if it names one.
    pub fn from(str: &str) -> (space: Option<ColorSpace>)
        ensures
            space == Self::named(str@),
    {
        if str_equals(str, "lab") {
            Some(ColorSpace::Lab)
        } else if str_equals(str, "rgb") {
            Some(ColorSpace::Rgb)
        } else {
            None
        }
    }

    /// The colour space that `s` names.
    pub fn from_str(s: &str) -> (space: Result<ColorSpace, Error>)
        ensures
            space == match Self::named(s@) {
                Some(found) => Ok::<ColorSpace, Error>(found),
                None => Err(Error::UnsupportedColorSpace),
            },
    {
        match ColorSpace::from(s) {
            Some(found) => Ok(found),
            None => Err(Error::UnsupportedColorSpace),
        }
    }

    /// The name of this colour space.
    pub fn name(&self) -> (name: &'static str)
        ensures
            name@ == self.spec_name(),
    {
        match self {
            ColorSpace::Lab => "lab",
            ColorSpace::Rgb => "rgb",
        }
    }

    /// The convergence threshold as a fraction, numerator first.
    pub fn convergence(&self) -> (epsilon: (u32, u32))
        ensures
            epsilon.0 == self.spec_convergence().0,
            epsilon.1 == self.spec_convergence().1,
            epsilon.1 > 0,
    {
        match self {
            ColorSpace::Lab => (1, 1),
            ColorSpace::Rgb => (1, 100),
        }
    }
}

/// Reading the name of a colour space gives that colour space back.
pub proof fn color_space_name_round_trip(space: ColorSpace)
    ensures
        ColorSpace::named(space.spec_name()) == Some(space),
{
    reveal_strlit("lab");
    reveal_strlit("rgb");
    assert("rgb"@[0] != "lab"@[0]);
}

/// The way a palette is extracted.
#[derive(Debug, Clone, Copy, PartialEq, Eq, Structural)]
pub enum Algorithm {
    Kmeans,
    Octree,
}

impl Algorithm {
    /// The name of this algorithm.
    pub open spec fn spec_name(self) -> Seq<char> {
        match self {
            Algorithm::Kmeans => "kmeans"@,
            Algorithm::Octree => "octree"@,
        }
    }

    /// The name used in file names and messages.
    pub fn name(&self) -> (name: &'static str)
        ensures
            name@ == self.spec_name(),
    {
        match self {
            Algorithm::Kmeans => "kmeans",
            Algorithm::Octree => "octree",
        }
    }

    /// The longest side, in pixels, that the algorithm takes in; larger
    /// images are scaled down first.
    pub open spec fn spec_max_dimension(self) -> nat {
        match self {
            Algorithm::Kmeans => 256,
            Algorithm::Octree => 128,
        }
    }

    /// The longest side, in pixels, that the algorithm takes in.
    pub fn max_dimension(&self) -> (side: u32)
        ensures
            side == self.spec_max_dimension(),
    {
        match self {
            Algorithm::Kmeans => 256,
            Algorithm::Octree => 128,
        }
    }
}

/// The way palette colours are put back into the image.
#[derive(Debug, Clone, Copy, PartialEq, Eq, Structural)]
pub enum ReduceMode {
    Replace,
    Dither,
    Meld,
}

impl ReduceMode {
    /// The name of this mode.
    pub open spec fn spec_name(self) -> Seq<char> {
        match self {
            ReduceMode::Replace => "replace"@,
            ReduceMode::Dither => "dither"@,
            ReduceMode::Meld => "meld"@,
        }
    }

    /// The name used in file names and messages.
    pub fn name(&self) -> (name: &'static str)
        ensures
            name@ == self.spec_name(),
    {
        match self {
            ReduceMode::Replace => "replace",
            ReduceMode::Dither => "dither",
            ReduceMode::Meld => "meld",
        }
    }

    /// Whether the mode blends several palette colours, and so needs at
    /// least two of them.
    pub open spec fn spec_mixes(self) -> bool {
        self != ReduceMode::Replace
    }

    /// Whether the mode blends several palette colours.
    pub fn mixes(&self) -> (mixes: bool)
        ensures
            mixes == self.spec_mixes(),
    {
        match self {
            ReduceMode::Replace => false,
            ReduceMode::Dither => true,
            ReduceMode::Meld => true,
        }
    }
}

/// The file types that images are written as.
#[derive(Debug, Clone, Copy, PartialEq, Eq, Structural)]
pub enum Extension {
    Png,
    Jpg,
}

impl Extension {
    /// The extension as it is written behind the dot.
    pub open spec fn spec_name(self) -> Seq<char> {
        match self {
            Extension::Png => "png"@,
            Extension::Jpg => "jpg"@,
        }
    }

    /// The extension that `name` names.
    pub open spec fn named(name: Seq<char>) -> Option<Extension> {
        if name == "png"@ {
            Some(Extension::Png)
        } else if name == "jpg"@ {
            Some(Extension::Jpg)
        } else {
            None
        }
    }

    /// The extension as it is written behind the dot.
    pub fn name(&self) -> (name: &'static str)
        ensures
            name@ == self.spec_name(),
    {
        match self {
            Extension::Png => "png",
            Extension::Jpg => "jpg",
        }
    }

    /// The extension as it is written behind the dot.
    pub fn value(&self) -> (name: &'static str)
        ensures
            name@ == self.spec_name(),
    {
        self.name()
    }

    /// The extension that `s` names.
    pub fn from_str(s: &str) -> (extension: Result<Extension, Error>)
        ensures
            extension == match Self::named(s@) {
                Some(found) => Ok::<Extension, Error>(found),
                None => Err(Error::UnsupportedExtension),
            },
    {
        if str_equals(s, "png") {
            Ok(Extension::Png)
        } else if str_equals(s, "jpg") {
            Ok(Extension::Jpg)
        } else {
            Err(Error::UnsupportedExtension)
        }
    }
}

/// Reading the name of an extension gives that extension back.
pub proof fn extension_name_round_trip(extension: Extension)
    ensures
        Extension::named(extension.spec_name()) == Some(extension),
{
    reveal_strlit("png");
    reveal_strlit("jpg");
    assert("jpg"@[0] != "png"@[0]);
}

} // verus!
