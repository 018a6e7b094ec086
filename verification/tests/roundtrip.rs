use blockstego::{Image, ImageList};

fn patterned_image(width: u64, height: u64, channel: u64) -> Image {
    let n = (width * height * channel) as usize;
    let mut pixels = Vec::with_capacity(n);
    for i in 0..n {
        pixels.push((i * 37 % 251) as u8);
    }
    Image { width, height, channel, pixels }
}

fn zero_image(width: u64, height: u64, channel: u64) -> Image {
    let n = (width * height * channel) as usize;
    Image { width, height, channel, pixels: vec![0u8; n] }
}

#[test]
fn round_trip_single_image() {
    let mut list = ImageList(vec![patterned_image(32, 32, 3)]);
    let message: Vec<u8> = vec![0xDE, 0xAD, 0xBE, 0xEF, 0x00, 0x7F];
    assert!(list.embed(&message, 2).is_ok());
    let back = list.extract(2).unwrap();
    assert_eq!(back, message);
}

#[test]
fn round_trip_multi_image_continuation() {
    // 64 blocks in each image: the header fills the first image exactly and
    // the payload continues into the second.
    let mut list = ImageList(vec![patterned_image(8, 8, 1), patterned_image(8, 8, 1)]);
    let message: Vec<u8> = vec![1, 2, 3, 4, 5, 6, 7, 8];
    assert!(list.embed(&message, 1).is_ok());
    let back = list.extract(1).unwrap();
    assert_eq!(back, message);
}

#[test]
fn round_trip_several_square_sizes() {
    for s in 1..=4u64 {
        let mut list = ImageList(vec![patterned_image(40, 40, 1)]);
        let message: Vec<u8> = vec![0xA5, 0x5A];
        let blocks = (40 / s) * (40 / s);
        assert!(blocks >= 64 + 16);
        assert!(list.embed(&message, s).is_ok(), "square size {}", s);
        assert_eq!(list.extract(s).unwrap(), message);
    }
}

#[test]
fn empty_message_exact_capacity() {
    // One 64x1 image with square size 1 holds exactly the 64 header bits.
    let mut list = ImageList(vec![zero_image(64, 1, 1)]);
    let message: Vec<u8> = vec![];
    assert!(list.embed(&message, 1).is_ok());
    let back = list.extract(1).unwrap();
    assert!(back.is_empty());
}

#[test]
fn empty_message_into_zero_pixels_touches_nothing() {
    // A zero length header over all-even blocks asks for parities the blocks
    // already have, so no sample is flipped at all.
    let mut list = ImageList(vec![zero_image(64, 1, 1)]);
    let message: Vec<u8> = vec![];
    assert!(list.embed(&message, 1).is_ok());
    assert_eq!(list.0[0].pixels, vec![0u8; 64]);
}

#[test]
fn header_and_payload_bit_layout() {
    // With square size 1 and one channel each pixel is one block, so the
    // embedded stream is readable straight off the low bits: 64 header bits
    // of the value 1, then the byte 0x80 most significant bit first.
    let mut list = ImageList(vec![zero_image(16, 8, 1)]);
    let message: Vec<u8> = vec![0x80];
    assert!(list.embed(&message, 1).is_ok());
    let pixels = &list.0[0].pixels;
    for i in 0..63 {
        assert_eq!(pixels[i], 0, "header bit {}", i);
    }
    assert_eq!(pixels[63], 1); // least significant header bit: length 1
    assert_eq!(pixels[64], 1); // 0x80: most significant payload bit first
    for i in 65..72 {
        assert_eq!(pixels[i], 0, "payload bit {}", i);
    }
}

#[test]
fn extract_is_deterministic() {
    let mut list = ImageList(vec![patterned_image(48, 48, 2)]);
    let message: Vec<u8> = vec![9, 8, 7];
    assert!(list.embed(&message, 3).is_ok());
    let first = list.extract(3).unwrap();
    let second = list.extract(3).unwrap();
    assert_eq!(first, second);
    assert_eq!(first, message);
}

#[test]
fn perturbation_bounded_by_bits_written() {
    let mut list = ImageList(vec![patterned_image(32, 32, 1)]);
    let before = list.0[0].pixels.clone();
    let message: Vec<u8> = vec![0xFF, 0x00, 0xAA, 0x55];
    assert!(list.embed(&message, 1).is_ok());
    let after = &list.0[0].pixels;
    let changed = before.iter().zip(after.iter()).filter(|(a, b)| a != b).count();
    assert!(changed <= 64 + 8 * message.len());
    // And every change is a single low-bit flip.
    for (a, b) in before.iter().zip(after.iter()) {
        if a != b {
            assert_eq!(*a ^ 1, *b);
        }
    }
}

#[test]
fn partial_blocks_carry_nothing() {
    // 9x9 with square size 4 tiles to the same 4 blocks as 8x8: the ragged
    // right and bottom edges are inert, so capacity is 4 bits and even an
    // empty message (64 header bits) does not fit.
    let mut list = ImageList(vec![patterned_image(9, 9, 1)]);
    let message: Vec<u8> = vec![];
    assert!(list.embed(&message, 4).is_err());
}

#[test]
fn capacity_counts_full_blocks_only() {
    // (8/4)*(8/4) = 4 blocks, plus (9/4)*(7/4) = 2 blocks: edges are inert.
    let list = ImageList(vec![zero_image(8, 8, 1), zero_image(9, 7, 2)]);
    assert_eq!(list.capacity_bits(4), 6);
    // Channels share their pixel's block: they add samples, not blocks.
    assert_eq!(list.capacity_bits(1), 64 + 63);
}

#[test]
fn bit_channel_write_then_read() {
    let mut list = ImageList(vec![patterned_image(8, 8, 1)]);
    for i in 0..64u128 {
        blockstego::write_bit(&mut list, 1, i, i % 3 == 0);
    }
    for i in 0..64u128 {
        assert_eq!(blockstego::read_bit(&list, 1, i), i % 3 == 0, "bit {}", i);
    }
}

#[test]
fn to_c_reports_shapes_in_order() {
    let list = ImageList(vec![zero_image(5, 7, 3), zero_image(2, 2, 1)]);
    let shapes = list.to_c();
    assert_eq!(shapes.len(), 2);
    assert_eq!(shapes[0].width, 5);
    assert_eq!(shapes[0].height, 7);
    assert_eq!(shapes[0].channel, 3);
    assert_eq!(shapes[1].width, 2);
    assert_eq!(shapes[1].height, 2);
    assert_eq!(shapes[1].channel, 1);
}
