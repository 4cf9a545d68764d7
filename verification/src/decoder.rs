//! Framebuffer decoder: turns the device's page-packed, column-major,
//! bit-packed memory dump into a row-major, MSB-first bitmap.
//!
//! The raw block is `height / 8` pages of `width` bytes; the byte at
//! column `x` of page `p` stacks 8 pixels vertically, bit 0 topmost, so
//! bit `b` is pixel `(x, p * 8 + b)`. The destination holds pixel
//! `(x, y)` in byte `(y * width + x) / 8` at bit `7 - x % 8`, most
//! significant bit leftmost: the two bit orders are intentionally
//! different. Input shorter than a full framebuffer leaves the pixels
//! it does not cover at their prior values.

use vstd::prelude::*;

verus! {

/// Whether bit `k` (counting from the least significant end) of `b` is
/// set.
pub open spec fn bit_of(b: u8, k: u8) -> bool {
    b & (1u8 << k) != 0
}

/// Index of the source byte holding pixel `(x, y)`: one byte per column
/// within page `y / 8`.
pub open spec fn src_index(width: int, x: int, y: int) -> int {
    (y / 8) * width + x
}

/// The source layout's value of pixel `(x, y)`: bit `y % 8` of its page
/// byte, least significant bit topmost.
pub open spec fn src_bit(raw: Seq<u8>, width: int, x: int, y: int) -> bool {
    bit_of(raw[src_index(width, x, y)], (y % 8) as u8)
}

/// Index of the destination byte holding pixel `(x, y)` in the
/// row-major layout.
pub open spec fn dst_index(width: int, x: int, y: int) -> int {
    (y * width + x) / 8
}

/// The destination layout's bit position for column `x`: most
/// significant bit leftmost.
pub open spec fn dst_bit_pos(x: int) -> u8 {
    (7 - x % 8) as u8
}

/// The destination layout's value of pixel `(x, y)`.
pub open spec fn dst_bit(data: Seq<u8>, width: int, x: int, y: int) -> bool {
    bit_of(data[dst_index(width, x, y)], dst_bit_pos(x))
}

/// What decoding `raw` over a bitmap holding `prior` leaves behind:
/// every pixel the input covers carries the source layout's value, and
/// every pixel beyond the input keeps its prior value.
pub open spec fn decodes_to(
    raw: Seq<u8>,
    width: int,
    height: int,
    prior: Seq<u8>,
    out: Seq<u8>,
) -> bool {
    &&& out.len() == prior.len()
    &&& forall|x: int, y: int|
        0 <= x < width && 0 <= y < height ==> #[trigger] dst_bit(out, width, x, y) == (if src_index(
            width,
            x,
            y,
        ) < raw.len() {
            src_bit(raw, width, x, y)
        } else {
            dst_bit(prior, width, x, y)
        })
}

/// Fixed-size, row-major, one-bit-per-pixel bitmap consumed by the
/// display sink. Allocated once, mutated in place on every tick.
pub struct DisplayBuffer {
    pub data: Vec<u8>,
    pub width: usize,
    pub height: usize,
}

impl DisplayBuffer {
    /// Well-formed: dimensions in whole bytes and whole pages, and one
    /// bit per pixel in `data`.
    pub open spec fn wf(self) -> bool {
        &&& self.width % 8 == 0
        &&& self.height % 8 == 0
        &&& self.width * self.height <= usize::MAX
        &&& self.data@.len() == self.width * self.height / 8
    }

    /// Allocates an all-clear bitmap of the given dimensions.
    pub fn new(width: usize, height: usize) -> (r: DisplayBuffer)
        requires
            width % 8 == 0,
            height % 8 == 0,
            width * height <= usize::MAX,
        ensures
            r.wf(),
            r.width == width,
            r.height == height,
            forall|i: int| 0 <= i < r.data@.len() ==> r.data@[i] == 0,
    {
        let n = width * height / 8;
        let mut data: Vec<u8> = Vec::new();
        let mut i: usize = 0;
        while i < n
            invariant
                0 <= i <= n,
                data@.len() == i,
                forall|j: int| 0 <= j < i ==> data@[j] == 0,
            decreases n - i,
        {
            data.push(0);
            i = i + 1;
        }
        DisplayBuffer { data, width, height }
    }

    /// Decodes a raw page-packed block into the bitmap in place. A
    /// block shorter than the full framebuffer updates only the pixels
    /// it covers; a longer block's excess bytes are ignored.
    #[verifier::loop_isolation(false)]
    pub fn decode_into(&mut self, raw: &Vec<u8>)
        requires
            old(self).wf(),
        ensures
            final(self).wf(),
            final(self).width == old(self).width,
            final(self).height == old(self).height,
            decodes_to(
                raw@,
                old(self).width as int,
                old(self).height as int,
                old(self).data@,
                final(self).data@,
            ),
    {
        let width = self.width;
        let height = self.height;
        let fb_len = self.data.len();
        let ghost wi = width as int;
        let ghost hi = height as int;
        let ghost q = hi / 8;
        proof {
            lemma_fb_layout(wi, hi);
            assert(fb_len == wi * q);
            assert(wi * hi == 8 * fb_len);
            assert(wi > 0 || fb_len == 0) by (nonlinear_arith)
                requires
                    fb_len == wi * q,
                    wi >= 0,
                    q >= 0,
            ;
        }
        let n = if raw.len() < fb_len {
            raw.len()
        } else {
            fb_len
        };
        let mut i: usize = 0;
        let mut page: usize = 0;
        let mut x: usize = 0;
        while i < n
            invariant
                self.width == width,
                self.height == height,
                self.data@.len() == fb_len,
                0 <= i <= n,
                i == page * width + x,
                0 <= x,
                x < width || n == 0,
                forall|xx: int, yy: int|
                    0 <= xx < wi && 0 <= yy < hi ==> #[trigger] dst_bit(self.data@, wi, xx, yy)
                        == (if src_index(wi, xx, yy) < i {
                        src_bit(raw@, wi, xx, yy)
                    } else {
                        dst_bit(old(self).data@, wi, xx, yy)
                    }),
            decreases n - i,
        {
            let col = raw[i];
            proof {
                assert(page < q) by (nonlinear_arith)
                    requires
                        page * wi + x < wi * q,
                        0 <= x,
                        0 <= page,
                        wi > 0,
                ;
            }
            let mut bit: usize = 0;
            while bit < 8
                invariant
                    0 <= bit <= 8,
                    self.width == width,
                    self.height == height,
                    self.data@.len() == fb_len,
                    forall|xx: int, yy: int|
                        0 <= xx < wi && 0 <= yy < hi ==> #[trigger] dst_bit(self.data@, wi, xx, yy)
                            == (if src_index(wi, xx, yy) < i {
                            src_bit(raw@, wi, xx, yy)
                        } else if xx == x && yy / 8 == page && yy % 8 < bit {
                            src_bit(raw@, wi, xx, yy)
                        } else {
                            dst_bit(old(self).data@, wi, xx, yy)
                        }),
                decreases 8 - bit,
            {
                let y = page * 8 + bit;
                proof {
                    assert(y * wi + x < wi * hi) by (nonlinear_arith)
                        requires
                            0 <= x < wi,
                            0 <= y < hi,
                    ;
                }
                let idx = (y * width + x) / 8;
                let shift: u8 = 7 - (x % 8) as u8;
                let mask: u8 = 1u8 << shift;
                let cur = self.data[idx];
                let on = (col >> (bit as u8)) & 1 == 1;
                let next = if on {
                    cur | mask
                } else {
                    cur & !mask
                };
                let ghost pre = self.data@;
                self.data[idx] = next;
                proof {
                    let yi = y as int;
                    let xi = x as int;
                    lemma_row_mod8(wi, xi, yi);
                    assert(src_index(wi, xi, yi) == i);
                    assert(dst_index(wi, xi, yi) == idx);
                    assert(dst_bit_pos(xi) == shift);
                    lemma_shift_test(col, bit as u8);
                    assert forall|xx: int, yy: int| 0 <= xx < wi && 0 <= yy < hi implies #[trigger] dst_bit(
                        self.data@,
                        wi,
                        xx,
                        yy,
                    ) == (if src_index(wi, xx, yy) < i {
                        src_bit(raw@, wi, xx, yy)
                    } else if xx == xi && yy / 8 == page && yy % 8 < bit + 1 {
                        src_bit(raw@, wi, xx, yy)
                    } else {
                        dst_bit(old(self).data@, wi, xx, yy)
                    }) by {
                        let dj = dst_index(wi, xx, yy);
                        let dk = dst_bit_pos(xx);
                        lemma_row_mod8(wi, xx, yy);
                        assert(0 <= yy * wi + xx < wi * hi) by (nonlinear_arith)
                            requires
                                0 <= xx < wi,
                                0 <= yy < hi,
                        ;
                        assert(0 <= dj < fb_len);
                        if dj == idx && dk == shift {
                            lemma_dst_unique(wi, xx, yy, xi, yi);
                            lemma_bit_set(cur, shift, shift);
                        } else if dj == idx {
                            lemma_bit_set(cur, shift, dk);
                            assert(dst_bit(self.data@, wi, xx, yy) == dst_bit(pre, wi, xx, yy));
                        } else {
                            assert(dst_bit(self.data@, wi, xx, yy) == dst_bit(pre, wi, xx, yy));
                        }
                    }
                }
                bit = bit + 1;
            }
            proof {
                assert forall|xx: int, yy: int| 0 <= xx < wi && 0 <= yy < hi implies #[trigger] dst_bit(
                    self.data@,
                    wi,
                    xx,
                    yy,
                ) == (if src_index(wi, xx, yy) < i + 1 {
                    src_bit(raw@, wi, xx, yy)
                } else {
                    dst_bit(old(self).data@, wi, xx, yy)
                }) by {
                    if src_index(wi, xx, yy) == i {
                        lemma_div_mod_unique(wi, yy / 8, xx, page as int, x as int);
                    }
                }
            }
            proof {
                assert((page + 1) * wi == page * wi + wi) by (nonlinear_arith);
            }
            i = i + 1;
            x = x + 1;
            if x == width {
                x = 0;
                page = page + 1;
            }
        }
        proof {
            assert forall|xx: int, yy: int| 0 <= xx < wi && 0 <= yy < hi implies src_index(
                wi,
                xx,
                yy,
            ) < fb_len by {
                assert((yy / 8) * wi + xx < q * wi) by (nonlinear_arith)
                    requires
                        0 <= yy / 8 < q,
                        0 <= xx < wi,
                ;
            }
        }
    }
}

/// With `w % 8 == 0`, a whole row of `w` pixels spans whole bytes, so
/// position `y * w + x` sits at bit offset `x % 8` within its byte.
proof fn lemma_row_mod8(w: int, x: int, y: int)
    requires
        w % 8 == 0,
        0 <= x,
        0 <= y,
    ensures
        (y * w + x) % 8 == x % 8,
        (y * w + x) / 8 == y * (w / 8) + x / 8,
{
    let m = w / 8;
    assert(y * w == 8 * (y * m)) by (nonlinear_arith)
        requires
            w == 8 * m,
    ;
    assert((8 * (y * m) + x) % 8 == x % 8);
    assert((8 * (y * m) + x) / 8 == y * m + x / 8);
}

/// Quotients and remainders by `w` are unique.
proof fn lemma_div_mod_unique(w: int, q1: int, r1: int, q2: int, r2: int)
    requires
        w > 0,
        0 <= r1 < w,
        0 <= r2 < w,
        q1 * w + r1 == q2 * w + r2,
    ensures
        q1 == q2,
        r1 == r2,
{
    assert(q1 == q2 && r1 == r2) by (nonlinear_arith)
        requires
            w > 0,
            0 <= r1 < w,
            0 <= r2 < w,
            q1 * w + r1 == q2 * w + r2,
    ;
}

/// Two distinct pixels never share both their destination byte and
/// their destination bit position.
proof fn lemma_dst_unique(w: int, x1: int, y1: int, x2: int, y2: int)
    requires
        w % 8 == 0,
        w > 0,
        0 <= x1 < w,
        0 <= x2 < w,
        0 <= y1,
        0 <= y2,
        dst_index(w, x1, y1) == dst_index(w, x2, y2),
        dst_bit_pos(x1) == dst_bit_pos(x2),
    ensures
        x1 == x2,
        y1 == y2,
{
    lemma_row_mod8(w, x1, y1);
    lemma_row_mod8(w, x2, y2);
    let p1 = y1 * w + x1;
    let p2 = y2 * w + x2;
    assert(p1 % 8 == p2 % 8);
    assert(p1 == p2);
    lemma_div_mod_unique(w, y1, x1, y2, x2);
}

/// Whole-page, whole-byte dimensions: the framebuffer length in bytes
/// is the page count times the width.
proof fn lemma_fb_layout(w: int, h: int)
    requires
        w % 8 == 0,
        h % 8 == 0,
        0 <= w,
        0 <= h,
    ensures
        w * h / 8 == w * (h / 8),
        w * h == 8 * (w * (h / 8)),
        w * h % 8 == 0,
{
    let q = h / 8;
    assert(w * h == 8 * (w * q)) by (nonlinear_arith)
        requires
            h == 8 * q,
    ;
    assert((8 * (w * q)) / 8 == w * q);
    assert((8 * (w * q)) % 8 == 0);
}

/// Setting or clearing one bit of a byte changes that bit alone.
proof fn lemma_bit_set(b: u8, m: u8, k: u8)
    requires
        m < 8,
        k < 8,
    ensures
        bit_of(b | (1u8 << m), k) == (k == m || bit_of(b, k)),
        bit_of(b & !(1u8 << m), k) == (k != m && bit_of(b, k)),
{
    assert(((b | (1u8 << m)) & (1u8 << k) != 0) == (k == m || b & (1u8 << k) != 0)) by (bit_vector)
        requires
            m < 8 && k < 8,
    ;
    assert(((b & !(1u8 << m)) & (1u8 << k) != 0) == (k != m && b & (1u8 << k) != 0)) by (bit_vector)
        requires
            m < 8 && k < 8,
    ;
}

/// Testing a bit by shifting agrees with testing it by masking.
proof fn lemma_shift_test(col: u8, k: u8)
    requires
        k < 8,
    ensures
        ((col >> k) & 1 == 1) == bit_of(col, k),
{
    assert(((col >> k) & 1 == 1) == (col & (1u8 << k) != 0)) by (bit_vector)
        requires
            k < 8,
    ;
}

/// Bytes whose eight bits agree are equal.
proof fn lemma_u8_eq_by_bits(a: u8, b: u8)
    requires
        forall|k: u8| k < 8 ==> #[trigger] bit_of(a, k) == bit_of(b, k),
    ensures
        a == b,
{
    assert(bit_of(a, 0) == bit_of(b, 0));
    assert(bit_of(a, 1) == bit_of(b, 1));
    assert(bit_of(a, 2) == bit_of(b, 2));
    assert(bit_of(a, 3) == bit_of(b, 3));
    assert(bit_of(a, 4) == bit_of(b, 4));
    assert(bit_of(a, 5) == bit_of(b, 5));
    assert(bit_of(a, 6) == bit_of(b, 6));
    assert(bit_of(a, 7) == bit_of(b, 7));
    assert(a == b) by (bit_vector)
        requires
            (a & (1u8 << 0u8) != 0) == (b & (1u8 << 0u8) != 0),
            (a & (1u8 << 1u8) != 0) == (b & (1u8 << 1u8) != 0),
            (a & (1u8 << 2u8) != 0) == (b & (1u8 << 2u8) != 0),
            (a & (1u8 << 3u8) != 0) == (b & (1u8 << 3u8) != 0),
            (a & (1u8 << 4u8) != 0) == (b & (1u8 << 4u8) != 0),
            (a & (1u8 << 5u8) != 0) == (b & (1u8 << 5u8) != 0),
            (a & (1u8 << 6u8) != 0) == (b & (1u8 << 6u8) != 0),
            (a & (1u8 << 7u8) != 0) == (b & (1u8 << 7u8) != 0),
    ;
}

/// Bit `k` of destination byte `j` is the destination bit of exactly
/// one pixel, and that pixel's source byte lies within a full-length
/// block.
proof fn lemma_byte_bit_pixel(w: int, h: int, j: int, k: u8)
    requires
        w % 8 == 0,
        h % 8 == 0,
        w > 0,
        h >= 0,
        0 <= j < w * h / 8,
        k < 8,
    ensures
        ({
            let pos = 8 * j + 7 - k;
            let x = pos % w;
            let y = pos / w;
            &&& 0 <= x < w
            &&& 0 <= y < h
            &&& dst_index(w, x, y) == j
            &&& dst_bit_pos(x) == k
            &&& src_index(w, x, y) < w * h / 8
        }),
{
    lemma_fb_layout(w, h);
    let q = h / 8;
    let len = w * h / 8;
    let pos = 8 * j + 7 - k;
    assert(0 <= pos < w * h);
    vstd::arithmetic::div_mod::lemma_fundamental_div_mod(pos, w);
    vstd::arithmetic::mul::lemma_mul_is_commutative(w, pos / w);
    let x = pos % w;
    let y = pos / w;
    assert(0 <= x < w) by {
        vstd::arithmetic::div_mod::lemma_mod_division_less_than_divisor(pos, w);
    }
    assert(y * w + x == pos);
    assert(0 <= y < h) by (nonlinear_arith)
        requires
            y * w + x == pos,
            0 <= pos < w * h,
            0 <= x < w,
            w > 0,
    ;
    lemma_row_mod8(w, x, y);
    assert(dst_index(w, x, y) == j);
    assert(x % 8 == pos % 8);
    assert(dst_bit_pos(x) == k);
    assert(y / 8 < q);
    assert((y / 8) * w + x < w * q) by (nonlinear_arith)
        requires
            0 <= y / 8 < q,
            0 <= x < w,
            w > 0,
    ;
}

/// Law: decoding a full-length raw block is a function of the block
/// alone. Whatever the bitmap held before, the same full block leaves
/// the same contents, so decoding it twice changes nothing further.
pub proof fn lemma_full_decode_deterministic(
    raw: Seq<u8>,
    width: int,
    height: int,
    prior1: Seq<u8>,
    out1: Seq<u8>,
    prior2: Seq<u8>,
    out2: Seq<u8>,
)
    requires
        width % 8 == 0,
        height % 8 == 0,
        width >= 0,
        height >= 0,
        prior1.len() == width * height / 8,
        prior2.len() == width * height / 8,
        raw.len() >= width * height / 8,
        decodes_to(raw, width, height, prior1, out1),
        decodes_to(raw, width, height, prior2, out2),
    ensures
        out1 == out2,
{
    let len = width * height / 8;
    if width == 0 {
        assert(width * height == 0) by (nonlinear_arith)
            requires
                width == 0,
        ;
        assert(out1 =~= out2);
    } else {
        assert forall|j: int| 0 <= j < len implies out1[j] == out2[j] by {
            assert forall|k: u8| k < 8 implies #[trigger] bit_of(out1[j], k) == bit_of(
                out2[j],
                k,
            ) by {
                lemma_byte_bit_pixel(width, height, j, k);
                let pos = 8 * j + 7 - k;
                let x = pos % width;
                let y = pos / width;
                assert(dst_bit(out1, width, x, y) == src_bit(raw, width, x, y));
                assert(dst_bit(out2, width, x, y) == src_bit(raw, width, x, y));
            }
            lemma_u8_eq_by_bits(out1[j], out2[j]);
        }
        assert(out1 =~= out2);
    }
}

/// Law: partial-input tolerance, stated per byte. A destination byte
/// none of whose pixels the raw block covers keeps its prior value.
pub proof fn lemma_uncovered_byte_unchanged(
    raw: Seq<u8>,
    width: int,
    height: int,
    prior: Seq<u8>,
    out: Seq<u8>,
    j: int,
)
    requires
        width % 8 == 0,
        height % 8 == 0,
        width > 0,
        height >= 0,
        prior.len() == width * height / 8,
        decodes_to(raw, width, height, prior, out),
        0 <= j < prior.len(),
        forall|x: int, y: int|
            0 <= x < width && 0 <= y < height && #[trigger] dst_index(width, x, y) == j
                ==> src_index(width, x, y) >= raw.len(),
    ensures
        out[j] == prior[j],
{
    assert forall|k: u8| k < 8 implies #[trigger] bit_of(out[j], k) == bit_of(prior[j], k) by {
        lemma_byte_bit_pixel(width, height, j, k);
        let pos = 8 * j + 7 - k;
        let x = pos % width;
        let y = pos / width;
        assert(dst_bit(out, width, x, y) == dst_bit(prior, width, x, y));
    }
    lemma_u8_eq_by_bits(out[j], prior[j]);
}

} // verus!
