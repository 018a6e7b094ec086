use blockstego::{Error, Image, ImageList};

fn filled_image(width: u64, height: u64, channel: u64, value: u8) -> Image {
    let n = (width * height * channel) as usize;
    Image { width, height, channel, pixels: vec![value; n] }
}

#[test]
fn overflow_on_tiny_image() {
    // One 8x8 image with square size 4 yields 4 blocks: 4 bits of capacity.
    // Any message, even the empty one, needs at least the 64 header bits.
    let mut list = ImageList(vec![filled_image(8, 8, 1, 0)]);
    let long: Vec<u8> = vec![1, 2, 3];
    assert!(matches!(list.embed(&long, 4), Err(Error::Overflow)));
    let empty: Vec<u8> = vec![];
    assert!(matches!(list.embed(&empty, 4), Err(Error::Overflow)));
}

#[test]
fn overflow_leaves_pixels_untouched() {
    let mut list = ImageList(vec![filled_image(8, 8, 1, 0x3C)]);
    let before = list.0[0].pixels.clone();
    let message: Vec<u8> = vec![42; 100];
    assert!(matches!(list.embed(&message, 1), Err(Error::Overflow)));
    assert_eq!(list.0[0].pixels, before);
}

#[test]
fn bad_dimensions_rejected_by_embed() {
    let bad = Image { width: 4, height: 4, channel: 1, pixels: vec![0u8; 15] };
    let mut list = ImageList(vec![bad]);
    let message: Vec<u8> = vec![];
    assert!(matches!(list.embed(&message, 1), Err(Error::InvalidImage)));
    assert_eq!(list.0[0].pixels, vec![0u8; 15]);
}

#[test]
fn bad_dimensions_rejected_by_extract() {
    let bad = Image { width: 4, height: 4, channel: 1, pixels: vec![0u8; 15] };
    let mut list = ImageList(vec![bad]);
    assert!(matches!(list.extract(1), Err(Error::InvalidImage)));
    assert_eq!(list.0[0].pixels, vec![0u8; 15]);
}

#[test]
fn bad_dimensions_anywhere_in_the_list() {
    let good = filled_image(8, 8, 1, 0);
    let bad = Image { width: 3, height: 3, channel: 2, pixels: vec![0u8; 17] };
    let mut list = ImageList(vec![good, bad]);
    let message: Vec<u8> = vec![];
    assert!(matches!(list.embed(&message, 1), Err(Error::InvalidImage)));
}

#[test]
fn zero_channel_rejected() {
    let bad = Image { width: 4, height: 4, channel: 0, pixels: vec![] };
    let mut list = ImageList(vec![bad]);
    let message: Vec<u8> = vec![];
    assert!(matches!(list.embed(&message, 1), Err(Error::InvalidImage)));
    assert!(matches!(list.extract(1), Err(Error::InvalidImage)));
}

#[test]
fn zero_square_size_rejected() {
    let mut list = ImageList(vec![filled_image(8, 8, 1, 0)]);
    let message: Vec<u8> = vec![1];
    assert!(matches!(list.embed(&message, 0), Err(Error::BadSquareSize)));
    assert!(matches!(list.extract(0), Err(Error::BadSquareSize)));
}

#[test]
fn invalid_image_takes_precedence_over_square_size() {
    let bad = Image { width: 2, height: 2, channel: 1, pixels: vec![0u8; 3] };
    let mut list = ImageList(vec![bad]);
    let message: Vec<u8> = vec![];
    assert!(matches!(list.embed(&message, 0), Err(Error::InvalidImage)));
}

#[test]
fn extract_rejects_header_claiming_too_much() {
    // All-0xFF single-pixel blocks read as an all-ones header: a length far
    // beyond what 256 blocks can hold, so the header itself is refused.
    let mut list = ImageList(vec![filled_image(16, 16, 1, 0xFF)]);
    assert!(matches!(list.extract(1), Err(Error::Overflow)));
}

#[test]
fn extract_never_mutates() {
    let mut list = ImageList(vec![filled_image(16, 16, 1, 0xFF)]);
    let before = list.0[0].pixels.clone();
    let _ = list.extract(1);
    assert_eq!(list.0[0].pixels, before);
    let mut ok_list = ImageList(vec![filled_image(16, 16, 1, 2)]);
    let embedded: Vec<u8> = vec![11, 22];
    assert!(ok_list.embed(&embedded, 1).is_ok());
    let mid = ok_list.0[0].pixels.clone();
    let _ = ok_list.extract(1);
    assert_eq!(ok_list.0[0].pixels, mid);
}

#[test]
fn oversized_square_yields_zero_capacity() {
    // A square larger than both dimensions is not an error by itself; it
    // just leaves no blocks, which surfaces as Overflow.
    let mut list = ImageList(vec![filled_image(8, 8, 1, 0)]);
    let message: Vec<u8> = vec![];
    assert!(matches!(list.embed(&message, 9), Err(Error::Overflow)));
    assert!(matches!(list.extract(9), Err(Error::Overflow)));
}

#[test]
fn empty_list_has_no_capacity() {
    let mut list = ImageList(vec![]);
    let message: Vec<u8> = vec![];
    assert!(matches!(list.embed(&message, 1), Err(Error::Overflow)));
    assert!(matches!(list.extract(1), Err(Error::Overflow)));
}
