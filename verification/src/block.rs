//! Block-level arithmetic: tiling an image into square blocks, the parity
//! statistic each block carries, and how flipping one sample's low bit moves
//! exactly one block's parity.
//!
//! An image of `w x h` pixels with `c` interleaved channels is tiled by
//! squares of edge `s`; block `(bx, by)` covers pixels `[bx*s, bx*s + s) x
//! [by*s, by*s + s)` and all their channels. Partial squares at the right and
//! bottom edges carry nothing.

use vstd::prelude::*;
use vstd::arithmetic::div_mod::{lemma_fundamental_div_mod, lemma_mod_bound};
use vstd::arithmetic::mul::lemma_mul_inequality;
use crate::Image;
use crate::image_wf;

verus! {

/// Sum of the `n` samples `p[start], ..., p[start + n - 1]`.
pub open spec fn seg_sum(p: Seq<u8>, start: int, n: int) -> int
    decreases n,
{
    if n <= 0 {
        0
    } else {
        p[start] + seg_sum(p, start + 1, n - 1)
    }
}

/// Index of the first sample of row `t` (counted inside the block) of block
/// `(bx, by)`: pixel `(bx*s, by*s + t)`, channel 0.
pub open spec fn row_start(w: int, c: int, s: int, bx: int, by: int, t: int) -> int {
    ((by * s + t) * w + bx * s) * c
}

/// Sum of the first `r` pixel rows of block `(bx, by)`; each row is one
/// contiguous run of `s * c` samples.
pub open spec fn block_rows_sum(p: Seq<u8>, w: int, c: int, s: int, bx: int, by: int, r: int) -> int
    decreases r,
{
    if r <= 0 {
        0
    } else {
        block_rows_sum(p, w, c, s, bx, by, r - 1) + seg_sum(
            p,
            row_start(w, c, s, bx, by, r - 1),
            s * c,
        )
    }
}

/// The one bit block `(bx, by)` carries: the parity of the sum of all its
/// samples.
pub open spec fn block_parity(p: Seq<u8>, w: int, c: int, s: int, bx: int, by: int) -> bool {
    block_rows_sum(p, w, c, s, bx, by, s) % 2 == 1
}

/// The sample whose low bit is flipped when the block's parity must change:
/// the block's first sample in row-major, channel-0-first order.
pub open spec fn anchor_index(w: int, c: int, s: int, bx: int, by: int) -> int {
    row_start(w, c, s, bx, by, 0)
}

/// Whether `(bx, by)` names a full block of a `w x h` image: partial squares
/// past `(w / s) * s` or `(h / s) * s` do not count.
pub open spec fn block_in_range(w: int, h: int, s: int, bx: int, by: int) -> bool {
    &&& 0 <= bx < w / s
    &&& 0 <= by < h / s
}

/// A sum of samples never goes negative.
pub proof fn lemma_seg_sum_nonneg(p: Seq<u8>, start: int, n: int)
    ensures
        seg_sum(p, start, n) >= 0,
    decreases n,
{
    if n > 0 {
        lemma_seg_sum_nonneg(p, start + 1, n - 1);
    }
}

/// Extending a segment by one sample on the right adds that sample.
pub proof fn lemma_seg_sum_snoc(p: Seq<u8>, start: int, n: int)
    requires
        n >= 0,
    ensures
        seg_sum(p, start, n + 1) == seg_sum(p, start, n) + p[start + n],
    decreases n,
{
    if n == 0 {
        assert(seg_sum(p, start, 0) == 0);
        assert(seg_sum(p, start + 1, 0) == 0);
    } else {
        lemma_seg_sum_snoc(p, start + 1, n - 1);
    }
}

/// Replacing the sample at `j` moves a segment's sum by the difference at
/// `j` when `j` lies inside the segment, and not at all otherwise.
pub proof fn lemma_seg_sum_update(p: Seq<u8>, j: int, v: u8, start: int, n: int)
    requires
        0 <= j < p.len(),
        0 <= start,
        start + n <= p.len(),
    ensures
        seg_sum(p.update(j, v), start, n) == seg_sum(p, start, n) + if start <= j < start + n {
            v - p[j]
        } else {
            0
        },
    decreases n,
{
    if n > 0 {
        lemma_seg_sum_update(p, j, v, start + 1, n - 1);
    }
}

/// `(q + 1) * d <= x` whenever `q < x / d`: a block index below the quotient
/// leaves room for one more full stride.
pub proof fn lemma_lt_div_imp_mul_le(q: int, x: int, d: int)
    requires
        0 <= q,
        0 <= x,
        1 <= d,
        q < x / d,
    ensures
        (q + 1) * d <= x,
        q * d <= x - d,
{
    lemma_fundamental_div_mod(x, d);
    lemma_mod_bound(x, d);
    lemma_mul_inequality(q + 1, x / d, d);
    assert((q + 1) * d == q * d + d) by (nonlinear_arith);
}

/// Bounds of one row segment of a full block: it lies inside the sample
/// buffer of a well-formed `w x h x c` image.
pub proof fn lemma_row_seg_bounds(w: int, h: int, c: int, s: int, bx: int, by: int, t: int)
    requires
        0 <= w,
        0 <= h,
        1 <= s,
        1 <= c,
        block_in_range(w, h, s, bx, by),
        0 <= t < s,
    ensures
        0 <= row_start(w, c, s, bx, by, t),
        row_start(w, c, s, bx, by, t) + s * c <= w * h * c,
        bx * s + s <= w,
        by * s + t < h,
        0 <= (by * s + t) * w + bx * s,
        (by * s + t) * w + bx * s + s <= w * h,
        w * h <= w * h * c,
{
    assert(w * h <= w * h * c) by (nonlinear_arith)
        requires
            0 <= w,
            0 <= h,
            1 <= c,
    ;
    lemma_lt_div_imp_mul_le(bx, w, s);
    lemma_lt_div_imp_mul_le(by, h, s);
    let y = by * s + t;
    let x = bx * s;
    assert(y < h) by (nonlinear_arith)
        requires
            (by + 1) * s <= h,
            0 <= t < s,
            y == by * s + t,
    ;
    assert(0 <= y * w + x && (y * w + x + s) <= w * h) by (nonlinear_arith)
        requires
            0 <= y,
            y < h,
            0 <= x,
            x + s <= w,
            1 <= s,
    ;
    assert(0 <= (y * w + x) * c && (y * w + x) * c + s * c <= w * h * c) by (nonlinear_arith)
        requires
            0 <= y * w + x,
            y * w + x + s <= w * h,
            1 <= c,
    ;
}

/// The anchor of block `(bx0, by0)` lies in row `t` of block `(bx, by)`
/// exactly when the two blocks coincide and `t` is the first row.
pub proof fn lemma_anchor_in_row_iff(
    w: int,
    h: int,
    c: int,
    s: int,
    bx0: int,
    by0: int,
    bx: int,
    by: int,
    t: int,
)
    requires
        0 <= w,
        0 <= h,
        1 <= s,
        1 <= c,
        block_in_range(w, h, s, bx0, by0),
        block_in_range(w, h, s, bx, by),
        0 <= t < s,
    ensures
        (row_start(w, c, s, bx, by, t) <= anchor_index(w, c, s, bx0, by0) < row_start(
            w,
            c,
            s,
            bx,
            by,
            t,
        ) + s * c) <==> (bx == bx0 && by == by0 && t == 0),
{
    lemma_lt_div_imp_mul_le(bx, w, s);
    lemma_lt_div_imp_mul_le(bx0, w, s);
    lemma_lt_div_imp_mul_le(by, h, s);
    lemma_lt_div_imp_mul_le(by0, h, s);
    let yy = by * s + t;
    let x = bx * s;
    let y0 = by0 * s;
    let x0 = bx0 * s;
    let ll = yy * w + x;
    let aa = y0 * w + x0;
    // Pixel-level window: `aa` in `[ll, ll + s)` iff same row band and column band.
    assert((ll + s) * c == ll * c + s * c) by (nonlinear_arith);
    assert((ll * c <= aa * c < (ll + s) * c) <==> (ll <= aa < ll + s)) by (nonlinear_arith)
        requires
            1 <= c,
    ;
    assert((ll <= aa < ll + s) <==> (yy == y0 && x <= x0 < x + s)) by (nonlinear_arith)
        requires
            ll == yy * w + x,
            aa == y0 * w + x0,
            0 <= x,
            x + s <= w,
            0 <= x0,
            x0 + s <= w,
            0 <= yy,
            0 <= y0,
            1 <= s,
    ;
    assert((yy == y0) <==> (by == by0 && t == 0)) by (nonlinear_arith)
        requires
            yy == by * s + t,
            y0 == by0 * s,
            0 <= t < s,
            1 <= s,
    ;
    assert((x <= x0 < x + s) <==> (bx == bx0)) by (nonlinear_arith)
        requires
            x == bx * s,
            x0 == bx0 * s,
            1 <= s,
    ;
}

/// Distinct full blocks have distinct anchors.
pub proof fn lemma_anchor_index_inj(
    w: int,
    h: int,
    c: int,
    s: int,
    bx0: int,
    by0: int,
    bx1: int,
    by1: int,
)
    requires
        0 <= w,
        0 <= h,
        1 <= s,
        1 <= c,
        block_in_range(w, h, s, bx0, by0),
        block_in_range(w, h, s, bx1, by1),
        anchor_index(w, c, s, bx0, by0) == anchor_index(w, c, s, bx1, by1),
    ensures
        bx0 == bx1 && by0 == by1,
{
    lemma_anchor_in_row_iff(w, h, c, s, bx0, by0, bx1, by1, 0);
    assert(s * c >= 1) by (nonlinear_arith)
        requires
            1 <= s,
            1 <= c,
    ;
}

/// Replacing the sample at the anchor of block `(bx0, by0)` moves the row
/// sums of block `(bx, by)` by the difference there when the blocks
/// coincide, and not at all otherwise.
proof fn lemma_block_rows_sum_update_anchor(
    p: Seq<u8>,
    w: int,
    h: int,
    c: int,
    s: int,
    bx0: int,
    by0: int,
    v: u8,
    bx: int,
    by: int,
    r: int,
)
    requires
        0 <= w,
        0 <= h,
        1 <= s,
        1 <= c,
        p.len() == w * h * c,
        block_in_range(w, h, s, bx0, by0),
        block_in_range(w, h, s, bx, by),
        0 <= r <= s,
    ensures
        block_rows_sum(p.update(anchor_index(w, c, s, bx0, by0), v), w, c, s, bx, by, r)
            == block_rows_sum(p, w, c, s, bx, by, r) + if bx == bx0 && by == by0 && r >= 1 {
            v - p[anchor_index(w, c, s, bx0, by0)]
        } else {
            0
        },
    decreases r,
{
    let a = anchor_index(w, c, s, bx0, by0);
    lemma_row_seg_bounds(w, h, c, s, bx0, by0, 0);
    assert(0 <= a < p.len()) by {
        assert(s * c >= 1) by (nonlinear_arith)
            requires
                1 <= s,
                1 <= c,
        ;
    }
    if r > 0 {
        lemma_block_rows_sum_update_anchor(p, w, h, c, s, bx0, by0, v, bx, by, r - 1);
        lemma_row_seg_bounds(w, h, c, s, bx, by, r - 1);
        lemma_seg_sum_update(p, a, v, row_start(w, c, s, bx, by, r - 1), s * c);
        lemma_anchor_in_row_iff(w, h, c, s, bx0, by0, bx, by, r - 1);
    }
}

/// Public face of the update lemma, stated of whole-block parity sums.
pub proof fn lemma_block_sum_update_anchor(
    p: Seq<u8>,
    w: int,
    h: int,
    c: int,
    s: int,
    bx0: int,
    by0: int,
    v: u8,
    bx: int,
    by: int,
)
    requires
        0 <= w,
        0 <= h,
        1 <= s,
        1 <= c,
        p.len() == w * h * c,
        block_in_range(w, h, s, bx0, by0),
        block_in_range(w, h, s, bx, by),
    ensures
        block_rows_sum(p.update(anchor_index(w, c, s, bx0, by0), v), w, c, s, bx, by, s)
            == block_rows_sum(p, w, c, s, bx, by, s) + if bx == bx0 && by == by0 {
            v - p[anchor_index(w, c, s, bx0, by0)]
        } else {
            0
        },
{
    lemma_block_rows_sum_update_anchor(p, w, h, c, s, bx0, by0, v, bx, by, s);
}

/// The parity of block `(bx, by)` of one image, over the image's own
/// dimensions.
pub open spec fn img_parity(img: Image, s: int, bx: int, by: int) -> bool {
    block_parity(img.pixels@, img.width as int, img.channel as int, s, bx, by)
}

/// The anchor sample of block `(bx, by)` of one image.
pub open spec fn img_anchor(img: Image, s: int, bx: int, by: int) -> int {
    anchor_index(img.width as int, img.channel as int, s, bx, by)
}

/// Parity of a sum of two non-negative parts: it is odd exactly when the
/// parts' parities differ.
pub proof fn lemma_parity_add(a: int, b: int)
    requires
        a >= 0,
        b >= 0,
    ensures
        ((a + b) % 2 == 1) == ((a % 2 == 1) != (b % 2 == 1)),
{
    vstd::arithmetic::div_mod::lemma_add_mod_noop(a, b, 2);
    lemma_mod_bound(a, 2);
    lemma_mod_bound(b, 2);
}

/// Row sums of samples never go negative.
pub proof fn lemma_block_rows_sum_nonneg(
    p: Seq<u8>,
    w: int,
    c: int,
    s: int,
    bx: int,
    by: int,
    r: int,
)
    ensures
        block_rows_sum(p, w, c, s, bx, by, r) >= 0,
    decreases r,
{
    if r > 0 {
        lemma_block_rows_sum_nonneg(p, w, c, s, bx, by, r - 1);
        lemma_seg_sum_nonneg(p, row_start(w, c, s, bx, by, r - 1), s * c);
    }
}

/// Flipping a byte's lowest bit moves it by exactly one.
proof fn lemma_flip_low_bit(x: u8)
    ensures
        x % 2 == 0 ==> x ^ 1 == x + 1,
        x % 2 == 1 ==> (x ^ 1) as int == x - 1,
{
    assert(x % 2 == 0 ==> x ^ 1 == x + 1) by (bit_vector);
    assert(x % 2 == 1 ==> (x ^ 1) as int == x - 1) by (bit_vector);
}

/// Replaces the sample at `i`.
fn set_sample(v: &mut Vec<u8>, i: usize, x: u8)
    requires
        i < old(v).len(),
    ensures
        final(v)@ == old(v)@.update(i as int, x),
{
    let r = &mut v[i];
    *r = x;
}

/// Reads the parity of one full block: the sum of all its samples modulo 2,
/// folded up row by row.
pub fn block_parity_of(img: &Image, s: u64, bx: u64, by: u64) -> (b: bool)
    requires
        image_wf(*img),
        s >= 1,
        block_in_range(img.width as int, img.height as int, s as int, bx as int, by as int),
    ensures
        b == img_parity(*img, s as int, bx as int, by as int),
{
    let w = img.width;
    let h = img.height;
    let c = img.channel;
    let ghost pw = img.pixels@;
    proof {
        vstd::std_specs::vec::axiom_spec_len(&img.pixels);
        assert(pw.len() <= usize::MAX);
        lemma_row_seg_bounds(w as int, h as int, c as int, s as int, bx as int, by as int, 0);
        assert(s * c <= w * h * c) by (nonlinear_arith)
            requires
                s <= w,
                1 <= h,
                0 <= c,
                0 <= w,
        ;
    }
    let rowlen = s * c;
    let mut acc: bool = false;
    let mut t: u64 = 0;
    while t < s
        invariant
            image_wf(*img),
            pw == img.pixels@,
            w == img.width,
            h == img.height,
            c == img.channel,
            s >= 1,
            block_in_range(w as int, h as int, s as int, bx as int, by as int),
            rowlen == s * c,
            pw.len() <= usize::MAX,
            0 <= t <= s,
            acc == (block_rows_sum(pw, w as int, c as int, s as int, bx as int, by as int, t as int)
                % 2 == 1),
        decreases s - t,
    {
        proof {
            lemma_row_seg_bounds(
                w as int,
                h as int,
                c as int,
                s as int,
                bx as int,
                by as int,
                t as int,
            );
        }
        let base = ((by * s + t) * w + bx * s) * c;
        let mut racc: bool = false;
        let mut k: u64 = 0;
        while k < rowlen
            invariant
                image_wf(*img),
                pw == img.pixels@,
                w == img.width,
                h == img.height,
                c == img.channel,
                rowlen == s * c,
                0 <= base,
                base + rowlen <= pw.len(),
                pw.len() <= usize::MAX,
                0 <= k <= rowlen,
                racc == (seg_sum(pw, base as int, k as int) % 2 == 1),
            decreases rowlen - k,
        {
            let sample = img.pixels[(base + k) as usize];
            proof {
                lemma_seg_sum_snoc(pw, base as int, k as int);
                lemma_seg_sum_nonneg(pw, base as int, k as int);
                lemma_parity_add(seg_sum(pw, base as int, k as int), sample as int);
            }
            racc = racc ^ ((sample & 1) == 1);
            proof {
                assert((sample & 1) == (sample % 2)) by (bit_vector);
            }
            k = k + 1;
        }
        proof {
            lemma_block_rows_sum_nonneg(
                pw,
                w as int,
                c as int,
                s as int,
                bx as int,
                by as int,
                t as int,
            );
            lemma_seg_sum_nonneg(pw, base as int, rowlen as int);
            lemma_parity_add(
                block_rows_sum(pw, w as int, c as int, s as int, bx as int, by as int, t as int),
                seg_sum(pw, base as int, rowlen as int),
            );
        }
        acc = acc ^ racc;
        t = t + 1;
    }
    acc
}

/// Makes block `(bx, by)` carry the bit `bit`: if the block's parity already
/// matches, nothing is touched; otherwise the low bit of the block's anchor
/// sample is flipped, which flips the parity of this block and of no other.
pub fn set_block_bit(img: &mut Image, s: u64, bx: u64, by: u64, bit: bool)
    requires
        image_wf(*old(img)),
        s >= 1,
        block_in_range(
            old(img).width as int,
            old(img).height as int,
            s as int,
            bx as int,
            by as int,
        ),
    ensures
        final(img).width == old(img).width,
        final(img).height == old(img).height,
        final(img).channel == old(img).channel,
        final(img).pixels@.len() == old(img).pixels@.len(),
        image_wf(*final(img)),
        img_parity(*final(img), s as int, bx as int, by as int) == bit,
        forall|bx2: int, by2: int|
            block_in_range(old(img).width as int, old(img).height as int, s as int, bx2, by2) && !(
            bx2 == bx as int && by2 == by as int) ==> img_parity(*final(img), s as int, bx2, by2)
                == img_parity(*old(img), s as int, bx2, by2),
        forall|j: int|
            0 <= j < old(img).pixels@.len() && final(img).pixels@[j] != old(img).pixels@[j] ==> j
                == img_anchor(*old(img), s as int, bx as int, by as int),
        img_parity(*old(img), s as int, bx as int, by as int) == bit ==> *final(img) == *old(img),
{
    let cur = block_parity_of(img, s, bx, by);
    if cur != bit {
        let w = img.width;
        let h = img.height;
        let c = img.channel;
        let ghost pw = img.pixels@;
        proof {
            vstd::std_specs::vec::axiom_spec_len(&img.pixels);
            lemma_row_seg_bounds(w as int, h as int, c as int, s as int, bx as int, by as int, 0);
            assert(s * c >= 1) by (nonlinear_arith)
                requires
                    s >= 1,
                    c >= 1,
            ;
        }
        let a = ((by * s) * w + bx * s) * c;
        let old_v = img.pixels[a as usize];
        let new_v = old_v ^ 1;
        set_sample(&mut img.pixels, a as usize, new_v);
        proof {
            lemma_flip_low_bit(old_v);
            assert forall|bx2: int, by2: int|
                block_in_range(w as int, h as int, s as int, bx2, by2) implies (img_parity(
                *img,
                s as int,
                bx2,
                by2,
            ) == if bx2 == bx as int && by2 == by as int {
                !img_parity(*old(img), s as int, bx2, by2)
            } else {
                img_parity(*old(img), s as int, bx2, by2)
            }) by {
                lemma_block_sum_update_anchor(
                    pw,
                    w as int,
                    h as int,
                    c as int,
                    s as int,
                    bx as int,
                    by as int,
                    new_v,
                    bx2,
                    by2,
                );
                let old_sum = block_rows_sum(
                    pw,
                    w as int,
                    c as int,
                    s as int,
                    bx2,
                    by2,
                    s as int,
                );
                lemma_block_rows_sum_nonneg(pw, w as int, c as int, s as int, bx2, by2, s as int);
                if bx2 == bx as int && by2 == by as int {
                    if old_v % 2 == 0 {
                        lemma_parity_add(old_sum, 1);
                    } else {
                        lemma_block_rows_sum_nonneg(
                            img.pixels@,
                            w as int,
                            c as int,
                            s as int,
                            bx2,
                            by2,
                            s as int,
                        );
                        lemma_parity_add(old_sum - 1, 1);
                    }
                }
            }
        }
    }
}

} // verus!
