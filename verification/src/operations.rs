//! The operations that callers ask for, as the steps they are made of, and
//! the checks on what callers hand in.

use crate::color::strictly_sorted;
use crate::error::Error;
use crate::lightness::{ascending, colors_of, shade_colors, sort_by_lightness, Shade};
use crate::octree::ColorTree;
use crate::octree_colors::{colors_of_pixels, few_colors_are_kept};
use crate::octree_model::{built, reduction_palette, total, Tally};
use crate::octree_node::PIXEL_CAPACITY;
use crate::options::{Algorithm, ReduceMode};
use vstd::prelude::*;

verus! {

/// A step of an operation. Steps on the device are one kernel each; the
/// others run on the host.
#[derive(Debug, Clone, Copy, PartialEq, Eq, Structural)]
pub enum Step {
    /// Scale the image down if a side is longer than the algorithm takes in.
    Shrink,
    /// Upload caller-given colours as centroids.
    UploadCentroids,
    /// Convert the pixels into the working colour space.
    Convert,
    /// Seed the centroids.
    Seed,
    /// Assign each pixel its nearest centroid.
    Assign,
    /// Move the centroids until they settle.
    Update,
    /// Read the centroids back as colours.
    PullCentroids,
    /// Extract the palette with the octree, on the host.
    Octree,
    /// Order the palette by lightness.
    SortByLightness,
    /// Write to each pixel the colour of its centroid.
    Swap,
    /// Choose among the centroids by an ordered dither.
    Dither,
    /// Blend each centroid with those of its neighbours.
    Meld,
    /// Convert the pixels back into 8-bit RGB.
    Revert,
    /// Read the image back.
    PullImage,
}

/// The step that puts palette colours into the image.
pub open spec fn mixing_step(mode: ReduceMode) -> Step {
    match mode {
        ReduceMode::Replace => Step::Swap,
        ReduceMode::Dither => Step::Dither,
        ReduceMode::Meld => Step::Meld,
    }
}

/// From centroids on the device to the image read back.
pub open spec fn mapping_steps(mode: ReduceMode) -> Seq<Step> {
    seq![Step::Convert, Step::Assign, mixing_step(mode), Step::Revert, Step::PullImage]
}

/// From the image to its centroids on the device.
pub open spec fn extraction_steps(algo: Algorithm) -> Seq<Step> {
    match algo {
        Algorithm::Kmeans => seq![
            Step::Shrink,
            Step::Convert,
            Step::Seed,
            Step::Assign,
            Step::Update,
        ],
        Algorithm::Octree => seq![
            Step::Shrink,
            Step::Octree,
            Step::SortByLightness,
            Step::UploadCentroids,
        ],
    }
}

/// The steps that extract a palette.
pub open spec fn palette_steps_of(algo: Algorithm) -> Seq<Step> {
    match algo {
        Algorithm::Kmeans => extraction_steps(algo) + seq![
            Step::PullCentroids,
            Step::SortByLightness,
        ],
        Algorithm::Octree => seq![Step::Shrink, Step::Octree, Step::SortByLightness],
    }
}

/// The steps that map an image onto a given palette.
pub open spec fn find_steps_of(mode: ReduceMode) -> Seq<Step> {
    seq![Step::UploadCentroids] + mapping_steps(mode)
}

/// The steps that extract a palette and map the image onto it.
pub open spec fn reduce_steps_of(algo: Algorithm, mode: ReduceMode) -> Seq<Step> {
    extraction_steps(algo) + mapping_steps(mode)
}

fn push_mapping(steps: &mut Vec<Step>, mode: &ReduceMode)
    ensures
        final(steps)@ == old(steps)@ + mapping_steps(*mode),
{
    let ghost before = steps@;
    steps.push(Step::Convert);
    steps.push(Step::Assign);
    steps.push(
        match mode {
            ReduceMode::Replace => Step::Swap,
            ReduceMode::Dither => Step::Dither,
            ReduceMode::Meld => Step::Meld,
        },
    );
    steps.push(Step::Revert);
    steps.push(Step::PullImage);
    assert(steps@ =~= before + mapping_steps(*mode));
}

fn push_extraction(steps: &mut Vec<Step>, algo: &Algorithm)
    ensures
        final(steps)@ == old(steps)@ + extraction_steps(*algo),
{
    let ghost before = steps@;
    steps.push(Step::Shrink);
    match algo {
        Algorithm::Kmeans => {
            steps.push(Step::Convert);
            steps.push(Step::Seed);
            steps.push(Step::Assign);
            steps.push(Step::Update);
        },
        Algorithm::Octree => {
            steps.push(Step::Octree);
            steps.push(Step::SortByLightness);
            steps.push(Step::UploadCentroids);
        },
    }
    assert(steps@ =~= before + extraction_steps(*algo));
}

/// The steps of `palette`.
pub fn palette_steps(algo: &Algorithm) -> (steps: Vec<Step>)
    ensures
        steps@ == palette_steps_of(*algo),
{
    let mut steps: Vec<Step> = Vec::new();
    match algo {
        Algorithm::Kmeans => {
            push_extraction(&mut steps, algo);
            steps.push(Step::PullCentroids);
            steps.push(Step::SortByLightness);
        },
        Algorithm::Octree => {
            steps.push(Step::Shrink);
            steps.push(Step::Octree);
            steps.push(Step::SortByLightness);
        },
    }
    assert(steps@ =~= palette_steps_of(*algo));
    steps
}

/// The steps of `find`.
pub fn find_steps(mode: &ReduceMode) -> (steps: Vec<Step>)
    ensures
        steps@ == find_steps_of(*mode),
{
    let mut steps: Vec<Step> = Vec::new();
    steps.push(Step::UploadCentroids);
    push_mapping(&mut steps, mode);
    assert(steps@ =~= find_steps_of(*mode));
    steps
}

/// The steps of `reduce`.
pub fn reduce_steps(algo: &Algorithm, mode: &ReduceMode) -> (steps: Vec<Step>)
    ensures
        steps@ == reduce_steps_of(*algo, *mode),
{
    let mut steps: Vec<Step> = Vec::new();
    push_extraction(&mut steps, algo);
    push_mapping(&mut steps, mode);
    assert(steps@ =~= reduce_steps_of(*algo, *mode));
    steps
}

/// `reduce` goes on from its centroids as `find` does from its own: both
/// end with the same steps.
pub proof fn reduce_ends_as_find(algo: Algorithm, mode: ReduceMode)
    ensures
        reduce_steps_of(algo, mode).subrange(
            extraction_steps(algo).len() as int,
            reduce_steps_of(algo, mode).len() as int,
        ) == find_steps_of(mode).subrange(1, find_steps_of(mode).len() as int),
{
    assert(reduce_steps_of(algo, mode).subrange(
        extraction_steps(algo).len() as int,
        reduce_steps_of(algo, mode).len() as int,
    ) =~= mapping_steps(mode));
    assert(find_steps_of(mode).subrange(1, find_steps_of(mode).len() as int) =~= mapping_steps(
        mode,
    ));
}

// ---------------------------------------------------------------------------
// What callers hand in

/// Whether `color_count` colours can be asked of `reduce` in `mode`: at
/// least one, and at least two where colours are mixed.
pub open spec fn color_count_fits(color_count: u32, mode: ReduceMode) -> bool {
    if mode.spec_mixes() {
        color_count >= 2
    } else {
        color_count >= 1
    }
}

/// Checks the colour count of a `palette` request.
pub fn check_palette_request(color_count: u32) -> (checked: Result<(), Error>)
    ensures
        checked == if color_count >= 1 {
            Ok::<(), Error>(())
        } else {
            Err(Error::InvalidColorCount)
        },
{
    if color_count >= 1 {
        Ok(())
    } else {
        Err(Error::InvalidColorCount)
    }
}

/// Checks the colour count of a `reduce` request.
pub fn check_reduce_request(color_count: u32, mode: &ReduceMode) -> (checked: Result<(), Error>)
    ensures
        checked == if color_count_fits(color_count, *mode) {
            Ok::<(), Error>(())
        } else if mode.spec_mixes() {
            Err(Error::InvalidMixColorCount)
        } else {
            Err(Error::InvalidColorCount)
        },
{
    if mode.mixes() {
        if color_count >= 2 {
            Ok(())
        } else {
            Err(Error::InvalidMixColorCount)
        }
    } else {
        check_palette_request(color_count)
    }
}

/// Checks the palette of a `find` request: it holds a colour, no more
/// colours than a centroid buffer can count, and two where colours are mixed.
pub fn check_find_request(palette: &Vec<[u8; 4]>, mode: &ReduceMode) -> (checked: Result<
    (),
    Error,
>)
    ensures
        checked == if palette@.len() == 0 {
            Err::<(), Error>(Error::EmptyPalette)
        } else if palette@.len() > u32::MAX {
            Err(Error::TooManyPaletteColors)
        } else if !color_count_fits(palette@.len() as u32, *mode) {
            Err(Error::InvalidMixColorCount)
        } else {
            Ok(())
        },
{
    if palette.len() == 0 {
        Err(Error::EmptyPalette)
    } else if palette.len() > u32::MAX as usize {
        Err(Error::TooManyPaletteColors)
    } else {
        check_reduce_request(palette.len() as u32, mode)
    }
}

/// Whether an image of `dimensions` is scaled down before `algo` takes it in.
pub fn needs_shrinking(dimensions: (u32, u32), algo: &Algorithm) -> (needed: bool)
    ensures
        needed == (dimensions.0 > algo.spec_max_dimension() || dimensions.1
            > algo.spec_max_dimension()),
{
    let side = algo.max_dimension();
    dimensions.0 > side || dimensions.1 > side
}

// ---------------------------------------------------------------------------
// Palettes on the host

/// The palette of `pixels` by the octree: the colours are inserted one by
/// one, the tree is folded down to `color_count` colours, and the colours
/// left come back in ascending order of their channels. Where the pixels
/// have no more than `color_count` colours, these are the palette.
pub fn extract_palette_octree(pixels: &[[u8; 4]], color_count: u32) -> (palette: Result<
    Vec<[u8; 4]>,
    Error,
>)
    ensures
        pixels@.len() < PIXEL_CAPACITY ==> (palette matches Ok(colors) && strictly_sorted(colors@)
            && colors@.to_set() == reduction_palette(built(pixels@), color_count as nat)
            && colors@.len() <= color_count),
        pixels@.len() >= PIXEL_CAPACITY ==> palette matches Err(Error::ImageTooLarge),
        pixels@.len() < PIXEL_CAPACITY && 8 * pixels@.len() + 1 <= usize::MAX && color_count >= 1
            && colors_of_pixels(pixels@).len() <= color_count ==> (palette matches Ok(colors)
            && colors@.to_set() == colors_of_pixels(pixels@)),
{
    if pixels.len() as u64 >= PIXEL_CAPACITY {
        return Err(Error::ImageTooLarge);
    }
    proof {
        if 8 * pixels@.len() + 1 <= usize::MAX && color_count >= 1 && colors_of_pixels(
            pixels@,
        ).len() <= color_count {
            few_colors_are_kept(pixels@, color_count as nat);
        }
    }
    let mut tree = ColorTree::new();
    let mut index: usize = 0;
    while index < pixels.len()
        invariant
            index <= pixels@.len(),
            pixels@.len() < PIXEL_CAPACITY,
            tree.wf(),
            tree@ == built(pixels@.take(index as int)),
            total(tree@, Tally::Pixels) == index,
        decreases pixels@.len() - index,
    {
        proof {
            let next = pixels@.take(index + 1);
            assert(next.drop_last() =~= pixels@.take(index as int));
            assert(next.last() == pixels@[index as int]);
        }
        tree.add_color(&pixels[index]);
        index += 1;
    }
    assert(pixels@.take(index as int) =~= pixels@);
    Ok(tree.reduce(color_count as usize))
}

/// The colours of the shades in ascending order of lightness.
pub fn palette_by_lightness(shades: &Vec<Shade>) -> (palette: Vec<[u8; 4]>)
    ensures
        palette@.len() == shades@.len(),
        exists|sorted: Seq<Shade>|
            #![trigger ascending(sorted)]
            ascending(sorted) && sorted.to_multiset() == shades@.to_multiset() && palette@
                == colors_of(sorted),
{
    let sorted = sort_by_lightness(shades);
    shade_colors(&sorted)
}

} // verus!
