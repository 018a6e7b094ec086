//! The embedding and extraction engine. `embed` validates its inputs, then
//! writes a 64-bit big-endian length header followed by the message bytes,
//! most significant bit first, into the bit channel; `extract` reads the
//! header back, checks it against the capacity, and regroups the payload
//! bits into bytes. All validation happens before any pixel is touched, so a
//! failed embed leaves every image unchanged.

use vstd::prelude::*;
use vstd::arithmetic::div_mod::{
    lemma_basic_div,
    lemma_div_denominator,
    lemma_fundamental_div_mod,
    lemma_fundamental_div_mod_converse,
    lemma_mod_bound,
};
use vstd::arithmetic::power2::{lemma2_to64, lemma_pow2_adds, lemma_pow2_pos, pow2};
use vstd::bits::{lemma_u64_shr_is_div, lemma_u8_shr_is_div};
use crate::Error;
use crate::Image;
use crate::ImageList;
use crate::Message;
use crate::channel::{
    bit_anchor,
    bit_capacity,
    bit_pos,
    channel_bit,
    images_wf,
    lemma_anchor_shape_only,
    lemma_bit_anchor_inj,
    lemma_pos_shape_only,
    read_bit,
    same_shapes,
    write_bit,
};

verus! {

/// Bit `t` of a non-negative value, counted from the least significant end.
pub open spec fn bit_of(v: int, t: nat) -> bool {
    (v / pow2(t) as int) % 2 == 1
}

/// How many channel bits a message needs: a 64-bit length header plus eight
/// bits per byte.
pub open spec fn required_bits(msg: Seq<u8>) -> int {
    64 + 8 * msg.len() as int
}

/// Bit `i` of the embedded stream: the big-endian bits of the length first,
/// then each message byte, most significant bit first.
pub open spec fn msg_bit(msg: Seq<u8>, i: int) -> bool {
    if i < 64 {
        bit_of(msg.len() as int, (63 - i) as nat)
    } else {
        bit_of(msg[(i - 64) / 8] as int, (7 - ((i - 64) % 8)) as nat)
    }
}

/// The value of `count` consecutive channel bits starting at `start`, read
/// most significant bit first.
pub open spec fn bits_value(imgs: Seq<Image>, s: int, start: int, count: int) -> int
    decreases count,
{
    if count <= 0 {
        0
    } else {
        2 * bits_value(imgs, s, start, count - 1) + if channel_bit(imgs, s, start + count - 1) {
            1int
        } else {
            0int
        }
    }
}

/// The length header an extract call reads: channel bits 0 to 63 as a
/// big-endian unsigned value.
pub open spec fn header_value(imgs: Seq<Image>, s: int) -> int {
    bits_value(imgs, s, 0, 64)
}

/// The message an extract call reassembles: `header_value` bytes, byte `j`
/// built from channel bits `64 + 8j` to `64 + 8j + 7`.
pub open spec fn extracted(imgs: Seq<Image>, s: int) -> Seq<u8> {
    Seq::new(
        header_value(imgs, s) as nat,
        |j: int| (bits_value(imgs, s, 64 + 8 * j, 8)) as u8,
    )
}

/// When an embed call succeeds: valid images, a positive square size, and
/// room for the header and every message bit.
pub open spec fn embed_ok(imgs: Seq<Image>, s: int, msg: Seq<u8>) -> bool {
    &&& images_wf(imgs)
    &&& s >= 1
    &&& required_bits(msg) <= bit_capacity(imgs, s)
}

/// When an extract call succeeds: valid images, a positive square size, room
/// for a header, and a header that does not claim more bits than the carrier
/// holds.
pub open spec fn extract_ok(imgs: Seq<Image>, s: int) -> bool {
    &&& images_wf(imgs)
    &&& s >= 1
    &&& bit_capacity(imgs, s) >= 64
    &&& 64 + 8 * header_value(imgs, s) <= bit_capacity(imgs, s)
}

/// Which error a failed call reports: inconsistent images first, then a zero
/// square size, then exhausted capacity.
pub open spec fn failure_kind(imgs: Seq<Image>, s: int) -> Error {
    if !images_wf(imgs) {
        Error::InvalidImage
    } else if s < 1 {
        Error::BadSquareSize
    } else {
        Error::Overflow
    }
}

/// A run of `count` bits reads as a value below `pow2(count)`.
pub proof fn lemma_bits_value_bound(imgs: Seq<Image>, s: int, start: int, count: int)
    requires
        count >= 0,
    ensures
        0 <= bits_value(imgs, s, start, count) < pow2(count as nat),
    decreases count,
{
    if count == 0 {
        lemma2_to64();
    } else {
        lemma_bits_value_bound(imgs, s, start, count - 1);
        vstd::arithmetic::power2::lemma_pow2_unfold(count as nat);
    }
}

/// Reading back `count` of the `w` big-endian bits of `v` reproduces the top
/// `count` bits of `v`: the reconstructed value is `v` shifted down by the
/// bits not yet read.
pub proof fn lemma_bits_value_reconstruct(
    imgs: Seq<Image>,
    s: int,
    start: int,
    w: nat,
    count: int,
    v: int,
)
    requires
        0 <= count <= w,
        0 <= v < pow2(w),
        forall|t: int|
            0 <= t < count ==> #[trigger] channel_bit(imgs, s, start + t) == bit_of(
                v,
                (w - 1 - t) as nat,
            ),
    ensures
        bits_value(imgs, s, start, count) == v / pow2((w - count) as nat) as int,
    decreases count,
{
    if count == 0 {
        lemma_pow2_pos(w);
        lemma_basic_div(v, pow2(w) as int);
    } else {
        lemma_bits_value_reconstruct(imgs, s, start, w, count - 1, v);
        let e = (w - count) as nat;
        let d = pow2(e) as int;
        lemma_pow2_pos(e);
        lemma_pow2_adds(e, 1);
        lemma2_to64();
        lemma_div_denominator(v, d, 2);
        let x = v / d;
        lemma_fundamental_div_mod(x, 2);
        lemma_mod_bound(x, 2);
        assert(channel_bit(imgs, s, start + count - 1) == bit_of(v, e));
        assert(v / pow2((w - (count - 1)) as nat) as int == x / 2) by {
            assert(pow2(e + 1) == pow2(e) * 2);
        }
    }
}

/// Splits a payload bit index into its byte and its bit inside the byte.
proof fn lemma_payload_index(j: int, t: int)
    requires
        0 <= j,
        0 <= t < 8,
    ensures
        (8 * j + t) / 8 == j,
        (8 * j + t) % 8 == t,
{
    lemma_fundamental_div_mod_converse(8 * j + t, 8, j, t);
}

/// The low bit of a shifted value, as the spec `bit_of` sees it.
proof fn lemma_u64_bit(x: u64, sh: u64)
    requires
        sh < 64,
    ensures
        (((x >> sh) & 1) == 1) == bit_of(x as int, sh as nat),
{
    lemma_u64_shr_is_div(x, sh);
    let y = x >> sh;
    assert((y & 1) == y % 2) by (bit_vector);
}

/// The low bit of a shifted byte, as the spec `bit_of` sees it.
proof fn lemma_u8_bit(x: u8, sh: u8)
    requires
        sh < 8,
    ensures
        (((x >> sh) & 1) == 1) == bit_of(x as int, sh as nat),
{
    lemma_u8_shr_is_div(x, sh);
    let y = x >> sh;
    assert((y & 1) == y % 2) by (bit_vector);
}

impl ImageList {
    /// Hides `message` in the images: writes the 64-bit big-endian length
    /// header and then every message byte, most significant bit first, one
    /// bit per block, flipping at most one sample per written bit. All
    /// validation happens first: a failed call returns its error kind and
    /// leaves every image byte-for-byte unchanged.
    pub fn embed(&mut self, message: &Message, square_size: u64) -> (r: Result<(), Error>)
        ensures
            r is Ok <==> embed_ok(old(self).0@, square_size as int, message@),
            r matches Err(e) ==> e == failure_kind(old(self).0@, square_size as int) && final(self).0@ == old(self).0@,
            r is Ok ==> same_shapes(final(self).0@, old(self).0@) && images_wf(final(self).0@)
                && bit_capacity(final(self).0@, square_size as int) == bit_capacity(
                old(self).0@,
                square_size as int,
            ) && (forall|i: int|
                0 <= i < required_bits(message@) ==> #[trigger] channel_bit(
                    final(self).0@,
                    square_size as int,
                    i,
                ) == msg_bit(message@, i)) && (forall|i: int|
                required_bits(message@) <= i < bit_capacity(old(self).0@, square_size as int)
                    ==> #[trigger] channel_bit(final(self).0@, square_size as int, i)
                    == channel_bit(old(self).0@, square_size as int, i)) && (forall|k: int, j: int|
                0 <= k < old(self).0@.len() && 0 <= j < old(self).0@[k].pixels@.len()
                    && final(self).0@[k].pixels@[j] != old(self).0@[k].pixels@[j] ==> exists|i: int|
                    0 <= i < required_bits(message@) && (k, j) == #[trigger] bit_anchor(
                        old(self).0@,
                        square_size as int,
                        i,
                    )),
    {
        let ghost imgs0 = self.0@;
        let ghost gs = square_size as int;
        let ghost msg = message@;
        if !self.all_well_formed() {
            return Err(Error::InvalidImage);
        }
        if square_size == 0 {
            return Err(Error::BadSquareSize);
        }
        let cap = self.capacity_bits(square_size);
        let needed: u128 = 64 + 8 * (message.len() as u128);
        if cap < needed {
            return Err(Error::Overflow);
        }
        let len64: u64 = message.len() as u64;
        let mut i: u64 = 0;
        while i < 64
            invariant
                images_wf(self.0@),
                same_shapes(self.0@, imgs0),
                square_size >= 1,
                gs == square_size as int,
                msg == message@,
                len64 as int == msg.len(),
                bit_capacity(self.0@, gs) == bit_capacity(imgs0, gs),
                required_bits(msg) <= bit_capacity(imgs0, gs),
                0 <= i <= 64,
                forall|i2: int|
                    0 <= i2 < i ==> #[trigger] channel_bit(self.0@, gs, i2) == msg_bit(msg, i2),
                forall|i2: int|
                    i <= i2 < bit_capacity(imgs0, gs) ==> #[trigger] channel_bit(self.0@, gs, i2)
                        == channel_bit(imgs0, gs, i2),
                forall|k2: int|
                    0 <= k2 < imgs0.len() ==> self.0@[k2].pixels@.len()
                        == imgs0[k2].pixels@.len(),
                forall|k2: int, j2: int|
                    0 <= k2 < imgs0.len() && 0 <= j2 < imgs0[k2].pixels@.len()
                        && self.0@[k2].pixels@[j2] != imgs0[k2].pixels@[j2] ==> exists|i2: int|
                        0 <= i2 < i && (k2, j2) == #[trigger] bit_anchor(imgs0, gs, i2),
            decreases 64 - i,
        {
            let sh: u64 = 63 - i;
            let bit = ((len64 >> sh) & 1) == 1;
            let ghost prev = self.0@;
            proof {
                lemma_u64_bit(len64, sh);
            }
            write_bit(self, square_size, i as u128, bit);
            proof {
                let cur = self.0@;
                lemma_pos_shape_only(cur, imgs0, gs, 0, 0);
                assert forall|k2: int, j2: int|
                    0 <= k2 < imgs0.len() && 0 <= j2 < imgs0[k2].pixels@.len()
                        && cur[k2].pixels@[j2] != imgs0[k2].pixels@[j2] implies exists|i2: int|
                    0 <= i2 < i + 1 && (k2, j2) == #[trigger] bit_anchor(imgs0, gs, i2) by {
                    if cur[k2].pixels@[j2] != prev[k2].pixels@[j2] {
                        lemma_anchor_shape_only(prev, imgs0, gs, i as int);
                        assert((k2, j2) == bit_anchor(imgs0, gs, i as int));
                    }
                }
            }
            i = i + 1;
        }
        let mut j: usize = 0;
        while j < message.len()
            invariant
                images_wf(self.0@),
                same_shapes(self.0@, imgs0),
                square_size >= 1,
                gs == square_size as int,
                msg == message@,
                bit_capacity(self.0@, gs) == bit_capacity(imgs0, gs),
                required_bits(msg) <= bit_capacity(imgs0, gs),
                0 <= j <= msg.len(),
                forall|i2: int|
                    0 <= i2 < 64 + 8 * (j as int) ==> #[trigger] channel_bit(self.0@, gs, i2)
                        == msg_bit(msg, i2),
                forall|i2: int|
                    64 + 8 * (j as int) <= i2 < bit_capacity(imgs0, gs) ==> #[trigger] channel_bit(
                        self.0@,
                        gs,
                        i2,
                    ) == channel_bit(imgs0, gs, i2),
                forall|k2: int|
                    0 <= k2 < imgs0.len() ==> self.0@[k2].pixels@.len()
                        == imgs0[k2].pixels@.len(),
                forall|k2: int, j2: int|
                    0 <= k2 < imgs0.len() && 0 <= j2 < imgs0[k2].pixels@.len()
                        && self.0@[k2].pixels@[j2] != imgs0[k2].pixels@[j2] ==> exists|i2: int|
                        0 <= i2 < 64 + 8 * (j as int) && (k2, j2) == #[trigger] bit_anchor(
                            imgs0,
                            gs,
                            i2,
                        ),
            decreases msg.len() - j,
        {
            let byte = message[j];
            let mut t: u8 = 0;
            while t < 8
                invariant
                    images_wf(self.0@),
                    same_shapes(self.0@, imgs0),
                    square_size >= 1,
                    gs == square_size as int,
                    msg == message@,
                    byte == msg[j as int],
                    bit_capacity(self.0@, gs) == bit_capacity(imgs0, gs),
                    required_bits(msg) <= bit_capacity(imgs0, gs),
                    0 <= j < msg.len(),
                    0 <= t <= 8,
                    forall|i2: int|
                        0 <= i2 < 64 + 8 * (j as int) + t as int ==> #[trigger] channel_bit(
                            self.0@,
                            gs,
                            i2,
                        ) == msg_bit(msg, i2),
                    forall|i2: int|
                        64 + 8 * (j as int) + t as int <= i2 < bit_capacity(imgs0, gs)
                            ==> #[trigger] channel_bit(self.0@, gs, i2) == channel_bit(
                            imgs0,
                            gs,
                            i2,
                        ),
                    forall|k2: int|
                        0 <= k2 < imgs0.len() ==> self.0@[k2].pixels@.len()
                            == imgs0[k2].pixels@.len(),
                    forall|k2: int, j2: int|
                        0 <= k2 < imgs0.len() && 0 <= j2 < imgs0[k2].pixels@.len()
                            && self.0@[k2].pixels@[j2] != imgs0[k2].pixels@[j2] ==> exists|
                            i2: int,
                        |
                            0 <= i2 < 64 + 8 * (j as int) + t as int && (k2, j2)
                                == #[trigger] bit_anchor(imgs0, gs, i2),
                decreases 8 - t,
            {
                let sh: u8 = 7 - t;
                let bit = ((byte >> sh) & 1) == 1;
                let ghost prev = self.0@;
                let ghost gi = 64 + 8 * (j as int) + t as int;
                proof {
                    lemma_u8_bit(byte, sh);
                    lemma_payload_index(j as int, t as int);
                    assert(gi < required_bits(msg));
                    assert(msg_bit(msg, gi) == bit_of(byte as int, (7 - t as int) as nat));
                }
                let pos: u128 = 64 + 8 * (j as u128) + (t as u128);
                write_bit(self, square_size, pos, bit);
                proof {
                    let cur = self.0@;
                    lemma_pos_shape_only(cur, imgs0, gs, 0, 0);
                    assert forall|k2: int, j2: int|
                        0 <= k2 < imgs0.len() && 0 <= j2 < imgs0[k2].pixels@.len()
                            && cur[k2].pixels@[j2] != imgs0[k2].pixels@[j2] implies exists|i2: int|
                        0 <= i2 < gi + 1 && (k2, j2) == #[trigger] bit_anchor(imgs0, gs, i2) by {
                        if cur[k2].pixels@[j2] != prev[k2].pixels@[j2] {
                            lemma_anchor_shape_only(prev, imgs0, gs, gi);
                            assert((k2, j2) == bit_anchor(imgs0, gs, gi));
                        }
                    }
                }
                t = t + 1;
            }
            j = j + 1;
        }
        Ok(())
    }

    /// Recovers the message hidden in the images: reads the 64-bit length
    /// header, checks it against the capacity, and regroups the payload bits
    /// into bytes. Extraction never changes a pixel.
    pub fn extract(&mut self, square_size: u64) -> (r: Result<Message, Error>)
        ensures
            final(self).0@ == old(self).0@,
            r is Ok <==> extract_ok(old(self).0@, square_size as int),
            r matches Err(e) ==> e == failure_kind(old(self).0@, square_size as int),
            r matches Ok(m) ==> m@ == extracted(old(self).0@, square_size as int),
    {
        let ghost imgs = self.0@;
        let ghost gs = square_size as int;
        if !self.all_well_formed() {
            return Err(Error::InvalidImage);
        }
        if square_size == 0 {
            return Err(Error::BadSquareSize);
        }
        let cap = self.capacity_bits(square_size);
        if cap < 64 {
            return Err(Error::Overflow);
        }
        let mut hdr: u64 = 0;
        let mut i: u64 = 0;
        while i < 64
            invariant
                self.0@ == imgs,
                images_wf(imgs),
                square_size >= 1,
                gs == square_size as int,
                cap as int == bit_capacity(imgs, gs),
                cap >= 64,
                0 <= i <= 64,
                hdr as int == bits_value(imgs, gs, 0, i as int),
            decreases 64 - i,
        {
            proof {
                lemma_bits_value_bound(imgs, gs, 0, i as int);
                lemma2_to64();
                vstd::arithmetic::power2::lemma2_to64_rest();
                if (i as nat) < 63 {
                    vstd::arithmetic::power2::lemma_pow2_strictly_increases(i as nat, 63);
                }
            }
            let b = read_bit(self, square_size, i as u128);
            hdr = 2 * hdr + if b {
                1
            } else {
                0
            };
            i = i + 1;
        }
        let needed: u128 = 64 + 8 * (hdr as u128);
        if cap < needed {
            return Err(Error::Overflow);
        }
        let mut out: Vec<u8> = Vec::new();
        let mut j: u64 = 0;
        while j < hdr
            invariant
                self.0@ == imgs,
                images_wf(imgs),
                square_size >= 1,
                gs == square_size as int,
                cap as int == bit_capacity(imgs, gs),
                hdr as int == header_value(imgs, gs),
                64 + 8 * (hdr as int) <= cap as int,
                0 <= j <= hdr,
                out@.len() == j as int,
                forall|j2: int|
                    0 <= j2 < j ==> #[trigger] out@[j2] as int == bits_value(
                        imgs,
                        gs,
                        64 + 8 * j2,
                        8,
                    ),
            decreases hdr - j,
        {
            let mut byte: u8 = 0;
            let mut t: u8 = 0;
            while t < 8
                invariant
                    self.0@ == imgs,
                    images_wf(imgs),
                    square_size >= 1,
                    gs == square_size as int,
                    cap as int == bit_capacity(imgs, gs),
                    hdr as int == header_value(imgs, gs),
                    64 + 8 * (hdr as int) <= cap as int,
                    0 <= j < hdr,
                    0 <= t <= 8,
                    byte as int == bits_value(imgs, gs, 64 + 8 * (j as int), t as int),
                decreases 8 - t,
            {
                proof {
                    lemma_bits_value_bound(imgs, gs, 64 + 8 * (j as int), t as int);
                    lemma2_to64();
                }
                let b = read_bit(self, square_size, 64 + 8 * (j as u128) + (t as u128));
                byte = 2 * byte + if b {
                    1
                } else {
                    0
                };
                t = t + 1;
            }
            out.push(byte);
            j = j + 1;
        }
        proof {
            assert(out@ =~= extracted(imgs, gs));
        }
        Ok(out)
    }
}

/// LAW (round trip): after the channel holds the header and payload bits of
/// a message that fits the capacity, extraction succeeds, the header reads
/// back as the message's length, and the extracted bytes are the message.
pub proof fn lemma_round_trip(imgs: Seq<Image>, s: int, msg: Seq<u8>)
    requires
        images_wf(imgs),
        s >= 1,
        msg.len() < pow2(64),
        required_bits(msg) <= bit_capacity(imgs, s),
        forall|i: int|
            0 <= i < required_bits(msg) ==> #[trigger] channel_bit(imgs, s, i) == msg_bit(msg, i),
    ensures
        extract_ok(imgs, s),
        header_value(imgs, s) == msg.len(),
        extracted(imgs, s) == msg,
{
    lemma2_to64();
    assert forall|t: int| 0 <= t < 64 implies #[trigger] channel_bit(imgs, s, 0 + t) == bit_of(
        msg.len() as int,
        (64 - 1 - t) as nat,
    ) by {
        assert(channel_bit(imgs, s, t) == msg_bit(msg, t));
    }
    lemma_bits_value_reconstruct(imgs, s, 0, 64, 64, msg.len() as int);
    assert(pow2(0) == 1);
    assert(bits_value(imgs, s, 0, 64) == msg.len() as int / pow2(0) as int);
    assert(msg.len() as int / 1 == msg.len() as int);
    assert(header_value(imgs, s) == msg.len());
    assert forall|jj: int| 0 <= jj < msg.len() implies extracted(imgs, s)[jj] == msg[jj] by {
        assert forall|t: int| 0 <= t < 8 implies #[trigger] channel_bit(imgs, s, (64 + 8 * jj) + t)
            == bit_of(msg[jj] as int, (8 - 1 - t) as nat) by {
            lemma_payload_index(jj, t);
            assert(64 + 8 * jj + t < required_bits(msg));
            assert(channel_bit(imgs, s, 64 + 8 * jj + t) == msg_bit(msg, 64 + 8 * jj + t));
            assert(msg_bit(msg, 64 + 8 * jj + t) == bit_of(msg[jj] as int, (7 - t) as nat));
        }
        lemma_bits_value_reconstruct(imgs, s, 64 + 8 * jj, 8, 8, msg[jj] as int);
        assert(bits_value(imgs, s, 64 + 8 * jj, 8) == msg[jj] as int / pow2(0) as int);
        assert(msg[jj] as int / 1 == msg[jj] as int);
        assert(extracted(imgs, s)[jj] == (bits_value(imgs, s, 64 + 8 * jj, 8)) as u8);
    }
    assert(extracted(imgs, s) =~= msg);
}

/// LAW (empty message): a channel that holds the header bits of an empty
/// message extracts to an empty message; the zero-length header is enough.
pub proof fn lemma_empty_message_round_trip(imgs: Seq<Image>, s: int)
    requires
        images_wf(imgs),
        s >= 1,
        bit_capacity(imgs, s) >= 64,
        forall|i: int|
            0 <= i < 64 ==> #[trigger] channel_bit(imgs, s, i) == msg_bit(Seq::<u8>::empty(), i),
    ensures
        extract_ok(imgs, s),
        header_value(imgs, s) == 0,
        extracted(imgs, s) == Seq::<u8>::empty(),
{
    lemma2_to64();
    lemma_round_trip(imgs, s, Seq::<u8>::empty());
}

/// LAW (determinism): the bit/block mapping is a pure function of the
/// images' shapes and the square size; two lists with the same shapes have
/// the same capacity and resolve every bit index to the same block and the
/// same anchor sample, on embed and extract passes alike.
pub proof fn lemma_bit_mapping_shape_only(a: Seq<Image>, b: Seq<Image>, s: int)
    requires
        same_shapes(a, b),
        s >= 1,
    ensures
        bit_capacity(a, s) == bit_capacity(b, s),
        forall|i: int| #[trigger] bit_pos(a, s, i) == bit_pos(b, s, i),
        forall|i: int|
            0 <= i < bit_capacity(a, s) ==> #[trigger] bit_anchor(a, s, i) == bit_anchor(b, s, i),
{
    assert forall|i: int| #[trigger] bit_pos(a, s, i) == bit_pos(b, s, i) by {
        lemma_pos_shape_only(a, b, s, 0, i);
    }
    lemma_pos_shape_only(a, b, s, 0, 0);
    assert forall|i: int| 0 <= i < bit_capacity(a, s) implies #[trigger] bit_anchor(a, s, i)
        == bit_anchor(b, s, i) by {
        lemma_anchor_shape_only(a, b, s, i);
    }
}

/// LAW (round trip, from an embed call's view): the state a successful
/// embed leaves behind -- same shapes, same capacity, and the channel
/// holding the message's header and payload bits -- extracts back to the
/// very message.
pub proof fn lemma_embed_round_trip(a: Seq<Image>, b: Seq<Image>, s: int, msg: Seq<u8>)
    requires
        embed_ok(a, s, msg),
        msg.len() < pow2(64),
        same_shapes(b, a),
        images_wf(b),
        bit_capacity(b, s) == bit_capacity(a, s),
        forall|i: int|
            0 <= i < required_bits(msg) ==> #[trigger] channel_bit(b, s, i) == msg_bit(msg, i),
    ensures
        extract_ok(b, s),
        extracted(b, s) == msg,
{
    lemma_round_trip(b, s, msg);
}

/// The samples at which two image lists differ, as (image index, sample
/// index) pairs.
pub open spec fn changed_samples(a: Seq<Image>, b: Seq<Image>) -> Set<(int, int)> {
    Set::new(
        |p: (int, int)|
            0 <= p.0 < a.len() && 0 <= p.1 < a[p.0].pixels@.len() && b[p.0].pixels@[p.1]
                != a[p.0].pixels@[p.1],
    )
}

/// LAW (perturbation bound): when every changed sample is the anchor of one
/// of the first `n` channel bits -- which is what `embed` guarantees of the
/// bits it writes -- at most `n` samples changed across the whole list.
pub proof fn lemma_perturbation_bound(a: Seq<Image>, b: Seq<Image>, s: int, n: int)
    requires
        0 <= n,
        forall|k: int, j: int|
            0 <= k < a.len() && 0 <= j < a[k].pixels@.len() && b[k].pixels@[j] != a[k].pixels@[j]
                ==> exists|i: int| 0 <= i < n && (k, j) == #[trigger] bit_anchor(a, s, i),
    ensures
        changed_samples(a, b).finite(),
        changed_samples(a, b).len() <= n,
{
    let idx = vstd::set_lib::set_int_range(0, n);
    let f = |i: int| bit_anchor(a, s, i);
    vstd::set_lib::lemma_int_range(0, n);
    assert forall|p: (int, int)| changed_samples(a, b).contains(p) implies idx.map(f).contains(
        p,
    ) by {
        let k = p.0;
        let j = p.1;
        assert(p == (k, j));
        let i = choose|i: int| 0 <= i < n && (k, j) == bit_anchor(a, s, i);
        assert(idx.contains(i));
        assert(f(i) == p);
    }
    vstd::set_lib::lemma_map_size_bound(idx, idx.map(f), f);
    vstd::set_lib::lemma_len_subset(changed_samples(a, b), idx.map(f));
}

/// LAW (distinct anchors): distinct written bits touch distinct samples, so
/// an embed call changes at most one sample per written bit.
pub proof fn lemma_anchors_distinct(imgs: Seq<Image>, s: int, i1: int, i2: int)
    requires
        s >= 1,
        images_wf(imgs),
        0 <= i1 < bit_capacity(imgs, s),
        0 <= i2 < bit_capacity(imgs, s),
        i1 != i2,
    ensures
        bit_anchor(imgs, s, i1) != bit_anchor(imgs, s, i2),
{
    lemma_bit_anchor_inj(imgs, s, i1, i2);
}

} // verus!
