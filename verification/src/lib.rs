//! Steganographic block embedding: hides a byte payload inside the pixel
//! data of a list of raster images and recovers it again.
//!
//! Each image is tiled into `square_size x square_size` pixel blocks; every
//! full block carries one bit as the parity of the sum of all its samples.
//! The blocks of all images, in list order, form one continuous bit channel.
//! `embed` writes a 64-bit big-endian length header followed by the message
//! bits; `extract` reads them back.

use vstd::prelude::*;

mod block;
mod channel;
mod engine;

pub use block::{anchor_index, block_in_range, block_parity, img_anchor, img_parity};
pub use channel::{
    bit_anchor,
    bit_capacity,
    bit_pos,
    channel_bit,
    images_wf,
    img_blocks,
    read_bit,
    same_shapes,
    write_bit,
};
pub use engine::{
    bit_of,
    bits_value,
    changed_samples,
    embed_ok,
    extract_ok,
    extracted,
    failure_kind,
    header_value,
    lemma_anchors_distinct,
    lemma_bit_mapping_shape_only,
    lemma_embed_round_trip,
    lemma_empty_message_round_trip,
    lemma_perturbation_bound,
    lemma_round_trip,
    msg_bit,
    required_bits,
};

verus! {

/// One raster image: row-major samples with channels interleaved per pixel.
/// A well-formed image holds exactly `width * height * channel` samples.
pub struct Image {
    pub width: u64,
    pub height: u64,
    pub channel: u64,
    pub pixels: Vec<u8>,
}

/// An ordered list of images; the order fixes how the bit channel continues
/// from one image to the next.
pub struct ImageList(pub Vec<Image>);

/// A payload of arbitrary bytes.
pub type Message = Vec<u8>;

/// The five kinds of failure an embed or extract call can report.
#[derive(Clone, Copy, Debug, PartialEq, Eq, Structural)]
pub enum Error {
    OOM,
    InvalidMessage,
    Overflow,
    BadSquareSize,
    InvalidImage,
}

/// A well-formed image declares at least one channel and holds exactly one
/// sample per (pixel, channel) pair.
pub open spec fn image_wf(img: Image) -> bool {
    &&& img.channel >= 1
    &&& img.pixels@.len() == img.width * img.height * img.channel
}

/// The dimensions of one image, without its samples.
#[derive(Clone, Copy, Debug, PartialEq, Eq, Structural)]
pub struct ImageShape {
    pub width: u64,
    pub height: u64,
    pub channel: u64,
}

/// The shape of an image: all that the block/bit mapping depends on.
pub open spec fn shape_of(img: Image) -> ImageShape {
    ImageShape { width: img.width, height: img.height, channel: img.channel }
}

impl Image {
    /// Whether the declared dimensions are consistent with the sample buffer.
    pub fn is_well_formed(&self) -> (b: bool)
        ensures
            b == image_wf(*self),
    {
        if self.channel == 0 {
            return false;
        }
        proof {
            vstd::std_specs::vec::axiom_spec_len(&self.pixels);
            assert(self.width * self.height * self.channel >= self.width * self.height)
                by (nonlinear_arith)
                requires
                    self.channel >= 1,
            ;
        }
        match self.width.checked_mul(self.height) {
            None => false,
            Some(wh) => match wh.checked_mul(self.channel) {
                None => false,
                Some(n) => n == self.pixels.len() as u64,
            },
        }
    }
}

impl ImageList {
    /// Flattens the list into one shape record per image, in list order.
    pub fn to_c(&self) -> (r: Vec<ImageShape>)
        ensures
            r@.len() == self.0@.len(),
            forall|k: int| 0 <= k < r@.len() ==> r@[k] == shape_of(self.0@[k]),
    {
        let mut r: Vec<ImageShape> = Vec::new();
        let mut k: usize = 0;
        while k < self.0.len()
            invariant
                0 <= k <= self.0@.len(),
                r@.len() == k,
                forall|k2: int| 0 <= k2 < k ==> r@[k2] == shape_of(self.0@[k2]),
            decreases self.0@.len() - k,
        {
            let img = &self.0[k];
            r.push(ImageShape { width: img.width, height: img.height, channel: img.channel });
            k = k + 1;
        }
        r
    }
}

} // verus!
