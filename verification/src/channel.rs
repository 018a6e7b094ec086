//! The bit channel: the blocks of every image in the list, in list order,
//! read as one continuous sequence of bits. A global bit index is resolved to
//! one block of one image by walking the per-image block counts; the mapping
//! depends only on the images' shapes and the square size, never on pixel
//! values, so embed and extract resolve every index the same way.

use vstd::prelude::*;
use vstd::arithmetic::div_mod::{
    lemma_fundamental_div_mod,
    lemma_mod_bound,
    lemma_multiply_divide_lt,
};
use vstd::arithmetic::mul::lemma_mul_inequality;
use crate::Image;
use crate::ImageList;
use crate::image_wf;
use crate::shape_of;
use crate::block::{
    block_in_range,
    block_parity_of,
    img_anchor,
    img_parity,
    lemma_anchor_index_inj,
    set_block_bit,
};

verus! {

/// How many full blocks an image yields: full block columns times full block
/// rows, partial squares dropped.
pub open spec fn img_blocks(img: Image, s: int) -> int {
    (img.width as int / s) * (img.height as int / s)
}

/// Every image of the list is well formed.
pub open spec fn images_wf(imgs: Seq<Image>) -> bool {
    forall|k: int| 0 <= k < imgs.len() ==> image_wf(#[trigger] imgs[k])
}

/// Two lists with the same shapes, image by image.
pub open spec fn same_shapes(a: Seq<Image>, b: Seq<Image>) -> bool {
    &&& a.len() == b.len()
    &&& forall|k: int| 0 <= k < a.len() ==> shape_of(#[trigger] a[k]) == shape_of(b[k])
}

/// Blocks remaining in images `k, k + 1, ...` of the list.
pub open spec fn cap_from(imgs: Seq<Image>, s: int, k: int) -> int
    decreases imgs.len() - k,
{
    if k < 0 || k >= imgs.len() {
        0
    } else {
        img_blocks(imgs[k], s) + cap_from(imgs, s, k + 1)
    }
}

/// Total bit capacity of the whole list: one bit per full block.
pub open spec fn bit_capacity(imgs: Seq<Image>, s: int) -> int {
    cap_from(imgs, s, 0)
}

/// Resolves bit `i`, counted from image `k` on, to a pair
/// (image index, block index inside that image).
pub open spec fn bit_pos_from(imgs: Seq<Image>, s: int, k: int, i: int) -> (int, int)
    decreases imgs.len() - k,
{
    if k < 0 || k >= imgs.len() {
        (k, i)
    } else if i < img_blocks(imgs[k], s) {
        (k, i)
    } else {
        bit_pos_from(imgs, s, k + 1, i - img_blocks(imgs[k], s))
    }
}

/// Resolves a global bit index to (image index, block index).
pub open spec fn bit_pos(imgs: Seq<Image>, s: int, i: int) -> (int, int) {
    bit_pos_from(imgs, s, 0, i)
}

/// Block-grid column of block `b` of an image: blocks are counted row-major,
/// `by` outer, `bx` inner.
pub open spec fn block_x(img: Image, s: int, b: int) -> int {
    b % (img.width as int / s)
}

/// Block-grid row of block `b` of an image.
pub open spec fn block_y(img: Image, s: int, b: int) -> int {
    b / (img.width as int / s)
}

/// The value of global bit `i`: the parity of the block it resolves to.
pub open spec fn channel_bit(imgs: Seq<Image>, s: int, i: int) -> bool {
    let (k, b) = bit_pos(imgs, s, i);
    img_parity(imgs[k], s, block_x(imgs[k], s, b), block_y(imgs[k], s, b))
}

/// The one sample that writing global bit `i` may touch: the anchor of the
/// block the bit resolves to, as a pair (image index, sample index).
pub open spec fn bit_anchor(imgs: Seq<Image>, s: int, i: int) -> (int, int) {
    let (k, b) = bit_pos(imgs, s, i);
    (k, img_anchor(imgs[k], s, block_x(imgs[k], s, b), block_y(imgs[k], s, b)))
}

/// A block count is never negative, so capacities are not either.
pub proof fn lemma_cap_from_nonneg(imgs: Seq<Image>, s: int, k: int)
    requires
        s >= 1,
    ensures
        cap_from(imgs, s, k) >= 0,
    decreases imgs.len() - k,
{
    if 0 <= k < imgs.len() {
        lemma_img_blocks_nonneg(imgs[k], s);
        lemma_cap_from_nonneg(imgs, s, k + 1);
    }
}

/// One image's block count is non-negative and, for a well-formed image, at
/// most its sample count.
pub proof fn lemma_img_blocks_nonneg(img: Image, s: int)
    requires
        s >= 1,
    ensures
        img_blocks(img, s) >= 0,
{
    assert(img_blocks(img, s) >= 0) by (nonlinear_arith)
        requires
            s >= 1,
            img_blocks(img, s) == (img.width as int / s) * (img.height as int / s),
            img.width as int / s >= 0,
            img.height as int / s >= 0,
    ;
}

/// For a well-formed image the block count is bounded by the sample count:
/// every block covers at least one sample and blocks do not overlap.
pub proof fn lemma_img_blocks_bound(img: Image, s: int)
    requires
        s >= 1,
        image_wf(img),
    ensures
        0 <= img_blocks(img, s) <= img.pixels@.len(),
{
    let w = img.width as int;
    let h = img.height as int;
    let c = img.channel as int;
    vstd::arithmetic::div_mod::lemma_div_nonincreasing(w, s);
    vstd::arithmetic::div_mod::lemma_div_nonincreasing(h, s);
    lemma_img_blocks_nonneg(img, s);
    lemma_mul_inequality(w / s, w, h / s);
    lemma_mul_inequality(h / s, h, w);
    assert((w / s) * (h / s) <= w * h && w * h <= w * h * c) by (nonlinear_arith)
        requires
            0 <= w / s <= w,
            0 <= h / s <= h,
            1 <= c,
    ;
}

/// The channel's geometry is a function of shapes alone: two lists with the
/// same shapes have the same capacities and resolve every bit index to the
/// same (image, block) pair.
pub proof fn lemma_pos_shape_only(a: Seq<Image>, b: Seq<Image>, s: int, k: int, i: int)
    requires
        same_shapes(a, b),
    ensures
        cap_from(a, s, k) == cap_from(b, s, k),
        bit_pos_from(a, s, k, i) == bit_pos_from(b, s, k, i),
    decreases a.len() - k,
{
    if 0 <= k < a.len() {
        assert(shape_of(a[k]) == shape_of(b[k]));
        assert(img_blocks(a[k], s) == img_blocks(b[k], s));
        lemma_pos_shape_only(a, b, s, k + 1, i - img_blocks(a[k], s));
        lemma_pos_shape_only(a, b, s, k + 1, i);
    }
}

/// A bit index below the remaining capacity lands on a real block: image
/// index in range, block index within that image's block count.
pub proof fn lemma_bit_pos_in_range(imgs: Seq<Image>, s: int, k: int, i: int)
    requires
        s >= 1,
        0 <= k <= imgs.len(),
        0 <= i < cap_from(imgs, s, k),
    ensures
        k <= bit_pos_from(imgs, s, k, i).0 < imgs.len(),
        0 <= bit_pos_from(imgs, s, k, i).1 < img_blocks(imgs[bit_pos_from(imgs, s, k, i).0], s),
    decreases imgs.len() - k,
{
    if k < imgs.len() {
        if i >= img_blocks(imgs[k], s) {
            lemma_bit_pos_in_range(imgs, s, k + 1, i - img_blocks(imgs[k], s));
        }
    }
}

/// Distinct bit indices resolve to distinct (image, block) pairs.
pub proof fn lemma_bit_pos_inj(imgs: Seq<Image>, s: int, k: int, i1: int, i2: int)
    requires
        s >= 1,
        0 <= k <= imgs.len(),
        0 <= i1 < cap_from(imgs, s, k),
        0 <= i2 < cap_from(imgs, s, k),
        i1 != i2,
    ensures
        bit_pos_from(imgs, s, k, i1) != bit_pos_from(imgs, s, k, i2),
    decreases imgs.len() - k,
{
    if k < imgs.len() {
        let t = img_blocks(imgs[k], s);
        lemma_img_blocks_nonneg(imgs[k], s);
        if i1 < t && i2 < t {
        } else if i1 < t {
            lemma_bit_pos_in_range(imgs, s, k + 1, i2 - t);
        } else if i2 < t {
            lemma_bit_pos_in_range(imgs, s, k + 1, i1 - t);
        } else {
            lemma_bit_pos_inj(imgs, s, k + 1, i1 - t, i2 - t);
        }
    }
}

/// A valid block index decomposes into in-range grid coordinates, and the
/// decomposition is reversible.
pub proof fn lemma_block_coords(img: Image, s: int, b: int)
    requires
        s >= 1,
        0 <= b < img_blocks(img, s),
    ensures
        block_in_range(img.width as int, img.height as int, s, block_x(img, s, b), block_y(
            img,
            s,
            b,
        )),
        block_y(img, s, b) * (img.width as int / s) + block_x(img, s, b) == b,
{
    let bpr = img.width as int / s;
    let rows = img.height as int / s;
    assert(bpr >= 1 && rows >= 1) by (nonlinear_arith)
        requires
            0 <= b < bpr * rows,
            bpr >= 0,
            rows >= 0,
    ;
    lemma_mod_bound(b, bpr);
    lemma_multiply_divide_lt(b, bpr, rows);
    lemma_fundamental_div_mod(b, bpr);
    vstd::arithmetic::mul::lemma_mul_is_commutative(b / bpr, bpr);
}

/// The anchor mapping, too, is a function of shapes alone.
pub proof fn lemma_anchor_shape_only(a: Seq<Image>, b: Seq<Image>, s: int, i: int)
    requires
        same_shapes(a, b),
        s >= 1,
        0 <= i < bit_capacity(a, s),
    ensures
        bit_anchor(a, s, i) == bit_anchor(b, s, i),
{
    lemma_pos_shape_only(a, b, s, 0, i);
    lemma_bit_pos_in_range(a, s, 0, i);
    let (k, bb) = bit_pos(a, s, i);
    assert(shape_of(a[k]) == shape_of(b[k]));
}

/// Distinct bit indices have distinct anchors: each written bit touches its
/// own sample, in its own image.
pub proof fn lemma_bit_anchor_inj(imgs: Seq<Image>, s: int, i1: int, i2: int)
    requires
        s >= 1,
        images_wf(imgs),
        0 <= i1 < bit_capacity(imgs, s),
        0 <= i2 < bit_capacity(imgs, s),
        i1 != i2,
    ensures
        bit_anchor(imgs, s, i1) != bit_anchor(imgs, s, i2),
{
    let (k1, b1) = bit_pos(imgs, s, i1);
    let (k2, b2) = bit_pos(imgs, s, i2);
    lemma_bit_pos_in_range(imgs, s, 0, i1);
    lemma_bit_pos_in_range(imgs, s, 0, i2);
    lemma_bit_pos_inj(imgs, s, 0, i1, i2);
    if k1 == k2 {
        let img = imgs[k1];
        lemma_block_coords(img, s, b1);
        lemma_block_coords(img, s, b2);
        if img_anchor(img, s, block_x(img, s, b1), block_y(img, s, b1)) == img_anchor(
            img,
            s,
            block_x(img, s, b2),
            block_y(img, s, b2),
        ) {
            lemma_anchor_index_inj(
                img.width as int,
                img.height as int,
                img.channel as int,
                s,
                block_x(img, s, b1),
                block_y(img, s, b1),
                block_x(img, s, b2),
                block_y(img, s, b2),
            );
        }
    }
}

/// Full blocks of one image, counted in the executable world.
fn img_block_count(img: &Image, s: u64) -> (t: u64)
    requires
        image_wf(*img),
        s >= 1,
    ensures
        (t as int) == img_blocks(*img, s as int),
{
    proof {
        vstd::std_specs::vec::axiom_spec_len(&img.pixels);
        lemma_img_blocks_bound(*img, s as int);
    }
    (img.width / s) * (img.height / s)
}

impl ImageList {
    /// Whether every image of the list declares dimensions consistent with
    /// its sample buffer.
    pub fn all_well_formed(&self) -> (b: bool)
        ensures
            b == images_wf(self.0@),
    {
        let mut k: usize = 0;
        while k < self.0.len()
            invariant
                0 <= k <= self.0@.len(),
                forall|k2: int| 0 <= k2 < k ==> image_wf(#[trigger] self.0@[k2]),
            decreases self.0@.len() - k,
        {
            if !(&self.0[k]).is_well_formed() {
                return false;
            }
            k = k + 1;
        }
        true
    }

    /// The number of bits the list can carry for a given square size: the
    /// total number of full blocks across all images, in list order.
    pub fn capacity_bits(&self, square_size: u64) -> (c: u128)
        requires
            images_wf(self.0@),
            square_size >= 1,
    ensures
            c as int == bit_capacity(self.0@, square_size as int),
    {
        let ghost imgs = self.0@;
        let ghost s = square_size as int;
        let mut acc: u128 = 0;
        let mut k: usize = 0;
        while k < self.0.len()
            invariant
                imgs == self.0@,
                images_wf(imgs),
                square_size >= 1,
                s == square_size as int,
                0 <= k <= imgs.len(),
                acc + cap_from(imgs, s, k as int) == bit_capacity(imgs, s),
                acc <= k as int * (u64::MAX as int),
            decreases imgs.len() - k,
        {
            let t = img_block_count(&self.0[k], square_size);
            proof {
                assert(acc + t <= (k as int + 1) * (u64::MAX as int)) by (nonlinear_arith)
                    requires
                        acc <= k as int * (u64::MAX as int),
                        t <= u64::MAX as int,
                        0 <= k as int,
                ;
                assert((k as int + 1) * (u64::MAX as int) <= u128::MAX as int) by (nonlinear_arith)
                    requires
                        0 <= k as int + 1 <= 0x10000000000000000,
                ;
            }
            acc = acc + (t as u128);
            k = k + 1;
        }
        acc
    }
}

/// Resolves a global bit index to its image and block, walking the per-image
/// block counts in list order.
fn locate_bit(list: &ImageList, s: u64, i: u128) -> (r: (usize, u64))
    requires
        images_wf(list.0@),
        s >= 1,
        0 <= (i as int) < bit_capacity(list.0@, s as int),
    ensures
        (r.0 as int, r.1 as int) == bit_pos(list.0@, s as int, i as int),
        r.0 < list.0@.len(),
        (r.1 as int) < img_blocks(list.0@[r.0 as int], s as int),
{
    let ghost imgs = list.0@;
    let ghost gs = s as int;
    let mut k: usize = 0;
    let mut rem: u128 = i;
    proof {
        lemma_cap_from_nonneg(imgs, gs, 1);
        vstd::std_specs::vec::axiom_spec_len(&list.0);
    }
    let mut t = img_block_count(&list.0[0], s);
    while rem >= t as u128
        invariant
            imgs == list.0@,
            images_wf(imgs),
            s >= 1,
            gs == s as int,
            imgs.len() <= usize::MAX,
            0 <= k < imgs.len(),
            (t as int) == img_blocks(imgs[k as int], gs),
            0 <= (rem as int) < cap_from(imgs, gs, k as int),
            bit_pos_from(imgs, gs, k as int, rem as int) == bit_pos(imgs, gs, i as int),
        decreases imgs.len() - k,
    {
        proof {
            lemma_cap_from_nonneg(imgs, gs, k as int + 1);
            if k as int + 1 >= imgs.len() {
                assert(cap_from(imgs, gs, k as int + 1) == 0);
            }
        }
        rem = rem - (t as u128);
        k = k + 1;
        t = img_block_count(&list.0[k], s);
    }
    proof {
        assert(bit_pos_from(imgs, gs, k as int, rem as int) == (k as int, rem as int));
    }
    (k, rem as u64)
}

/// Reads one bit of the channel: the parity of the block that the index
/// resolves to.
pub fn read_bit(list: &ImageList, s: u64, i: u128) -> (b: bool)
    requires
        images_wf(list.0@),
        s >= 1,
        0 <= (i as int) < bit_capacity(list.0@, s as int),
    ensures
        b == channel_bit(list.0@, s as int, i as int),
{
    let (k, b) = locate_bit(list, s, i);
    let img = &list.0[k];
    proof {
        lemma_block_coords(list.0@[k as int], s as int, b as int);
    }
    let bpr = img.width / s;
    let bx = b % bpr;
    let by = b / bpr;
    block_parity_of(img, s, bx, by)
}

/// A mutable view of one image of the list.
fn image_at(v: &mut Vec<Image>, i: usize) -> (r: &mut Image)
    requires
        i < old(v).len(),
    ensures
        *r == old(v)@[i as int],
        final(v)@ == old(v)@.update(i as int, *final(r)),
{
    &mut v[i]
}

/// Writes one bit of the channel: makes the parity of the block that the
/// index resolves to equal `bit`, touching at most that block's anchor
/// sample and no other bit of the channel.
pub fn write_bit(list: &mut ImageList, s: u64, i: u128, bit: bool)
    requires
        images_wf(old(list).0@),
        s >= 1,
        0 <= (i as int) < bit_capacity(old(list).0@, s as int),
    ensures
        same_shapes(final(list).0@, old(list).0@),
        images_wf(final(list).0@),
        forall|k2: int|
            0 <= k2 < old(list).0@.len()
                ==> final(list).0@[k2].pixels@.len() == old(list).0@[k2].pixels@.len(),
        channel_bit(final(list).0@, s as int, i as int) == bit,
        forall|i2: int|
            0 <= i2 < bit_capacity(old(list).0@, s as int) && i2 != i as int ==> channel_bit(
                final(list).0@,
                s as int,
                i2,
            ) == channel_bit(old(list).0@, s as int, i2),
        forall|k2: int, j: int|
            0 <= k2 < old(list).0@.len() && 0 <= j < old(list).0@[k2].pixels@.len()
                && final(list).0@[k2].pixels@[j] != old(list).0@[k2].pixels@[j]
                ==> (k2, j) == bit_anchor(old(list).0@, s as int, i as int),
{
    let ghost imgs = old(list).0@;
    let ghost gs = s as int;
    let (k, b) = locate_bit(list, s, i);
    proof {
        lemma_block_coords(imgs[k as int], gs, b as int);
    }
    let img = &list.0[k];
    let bpr = img.width / s;
    let bx = b % bpr;
    let by = b / bpr;
    let img_ref = image_at(&mut list.0, k);
    set_block_bit(img_ref, s, bx, by, bit);
    proof {
        let news = list.0@;
        assert(news == imgs.update(k as int, news[k as int]));
        assert forall|k2: int| 0 <= k2 < imgs.len() implies shape_of(#[trigger] news[k2])
            == shape_of(imgs[k2]) && news[k2].pixels@.len() == imgs[k2].pixels@.len()
            && image_wf(news[k2]) by {}
        lemma_pos_shape_only(news, imgs, gs, 0, i as int);
        assert(channel_bit(news, gs, i as int) == bit);
        assert forall|i2: int|
            0 <= i2 < bit_capacity(imgs, gs) && i2 != i as int implies channel_bit(news, gs, i2)
            == channel_bit(imgs, gs, i2) by {
            lemma_pos_shape_only(news, imgs, gs, 0, i2);
            lemma_bit_pos_in_range(imgs, gs, 0, i2);
            let (k2, b2) = bit_pos(imgs, gs, i2);
            lemma_block_coords(imgs[k2], gs, b2);
            if k2 == k as int {
                lemma_bit_pos_inj(imgs, gs, 0, i as int, i2);
                lemma_block_coords(imgs[k2], gs, b as int);
            }
        }
    }
}

} // verus!
