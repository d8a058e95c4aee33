//! What goes into and comes out of the RF-DETR network, apart from the floating
//! point values themselves.

use vstd::prelude::*;
use vstd::string::StringExecFns;

use crate::text::{decimal, to_decimal};

verus! {

/// The side of the square images that the network takes.
pub const INPUT_SIZE: usize = 576;

/// The pixels of such an image.
pub const PLANE: usize = 331776;

/// The class of persons. The exported COCO head has the background at index 0.
pub const PERSON_CLASS: usize = 1;

/// The classes that the network tells apart.
pub const NUM_CLASSES: usize = 91;

/// The boxes that the network returns.
pub const QUERIES: usize = 300;

/// Why the output of the network cannot be read.
#[derive(Debug, Clone, Copy, PartialEq, Eq, Structural)]
pub enum DetectError {
    /// There are too few outputs.
    OutputCount(usize),
    /// An output is too short.
    OutputSizes { boxes: usize, labels: usize },
}

impl DetectError {
    /// The text for the user.
    pub open spec fn text(self) -> Seq<char> {
        match self {
            DetectError::OutputCount(n) => "RF-DETR ONNX returned "@ + decimal(n as nat)
                + " outputs, expected dets and labels"@,
            DetectError::OutputSizes { boxes, labels } => "unexpected RF-DETR output sizes: boxes="@
                + decimal(boxes as nat) + ", labels="@ + decimal(labels as nat),
        }
    }

    /// The text for the user.
    pub fn message(&self) -> (s: String)
        ensures
            s@ == self.text(),
    {
        match self {
            DetectError::OutputCount(n) => {
                let mut s: String = "RF-DETR ONNX returned ".to_owned();
                s.append(to_decimal(*n as u64).as_str());
                s.append(" outputs, expected dets and labels");
                s
            },
            DetectError::OutputSizes { boxes, labels } => {
                let mut s: String = "unexpected RF-DETR output sizes: boxes=".to_owned();
                s.append(to_decimal(*boxes as u64).as_str());
                s.append(", labels=");
                s.append(to_decimal(*labels as u64).as_str());
                s
            },
        }
    }
}

/// Whether the network has returned enough outputs: boxes and class logits.
pub fn check_output_count(outputs: usize) -> (r: Result<(), DetectError>)
    ensures
        r == if outputs < 2 {
            Err::<(), DetectError>(DetectError::OutputCount(outputs))
        } else {
            Ok(())
        },
{
    if outputs < 2 {
        Err(DetectError::OutputCount(outputs))
    } else {
        Ok(())
    }
}

/// Whether the outputs hold four numbers for each box and a logit for each of its
/// classes.
pub fn check_output_sizes(boxes: usize, labels: usize) -> (r: Result<(), DetectError>)
    ensures
        r == if boxes < QUERIES * 4 || labels < QUERIES * NUM_CLASSES {
            Err::<(), DetectError>(DetectError::OutputSizes { boxes, labels })
        } else {
            Ok(())
        },
{
    if boxes < QUERIES * 4 || labels < QUERIES * NUM_CLASSES {
        Err(DetectError::OutputSizes { boxes, labels })
    } else {
        Ok(())
    }
}

/// Where the logit of a box for the class of persons is.
pub fn person_logit(query: usize) -> (i: usize)
    requires
        query < QUERIES,
    ensures
        i == query * NUM_CLASSES + PERSON_CLASS,
        i < QUERIES * NUM_CLASSES,
{
    query * NUM_CLASSES + PERSON_CLASS
}

/// Where the four numbers of a box begin: its centre, its width and its height.
pub fn box_start(query: usize) -> (i: usize)
    requires
        query < QUERIES,
    ensures
        i == query * 4,
        i + 4 <= QUERIES * 4,
{
    query * 4
}

/// The three color planes, red first, of an image whose pixels hold blue, green and
/// red one after the other.
pub open spec fn rgb_planes(pixels: Seq<u8>) -> Seq<u8> {
    Seq::new((3 * PLANE) as nat, |i: int| pixels[3 * (i % PLANE as int) + 2 - i / PLANE as int])
}

/// The three color planes of an image in blue, green and red.
pub fn to_rgb_planes(pixels: &[u8]) -> (planes: Vec<u8>)
    requires
        pixels@.len() >= 3 * PLANE,
    ensures
        planes@ == rgb_planes(pixels@),
{
    let mut planes: Vec<u8> = Vec::new();
    let mut channel: usize = 0;
    while channel < 3
        invariant
            channel <= 3,
            pixels@.len() >= 3 * PLANE,
            planes@ == rgb_planes(pixels@).take(channel * PLANE),
        decreases 3 - channel,
    {
        let mut at: usize = 0;
        while at < PLANE
            invariant
                channel < 3,
                at <= PLANE,
                pixels@.len() >= 3 * PLANE,
                planes@ == rgb_planes(pixels@).take(channel * PLANE + at),
            decreases PLANE - at,
        {
            let ghost i = channel * PLANE + at;
            assert(i / PLANE as int == channel && i % PLANE as int == at);
            planes.push(pixels[3 * at + 2 - channel]);
            assert(planes@ =~= rgb_planes(pixels@).take(i + 1));
            at = at + 1;
        }
        channel = channel + 1;
    }
    assert(planes@ =~= rgb_planes(pixels@));
    planes
}

/// Each plane holds one color of every pixel: the first the red, the second the green and the
/// third the blue, which a pixel holds in the opposite order.
pub proof fn law_planes_hold_the_colors(pixels: Seq<u8>, i: int)
    requires
        0 <= i < 576 * 576,
    ensures
        rgb_planes(pixels).len() == 3 * 576 * 576,
        rgb_planes(pixels)[i] == pixels[3 * i + 2],
        rgb_planes(pixels)[576 * 576 + i] == pixels[3 * i + 1],
        rgb_planes(pixels)[2 * 576 * 576 + i] == pixels[3 * i],
{
}

} // verus!
