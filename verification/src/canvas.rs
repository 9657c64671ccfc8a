use vstd::prelude::*;
use vstd::pervasive::VecAdditionalExecFns;
use vstd::arithmetic::div_mod::{
    lemma_fundamental_div_mod, lemma_fundamental_div_mod_converse, lemma_mod_bound,
};
use crate::rgba::Rgba;

verus! {

/// Surface column that source pixel `i` (row-major) lands on when the source
/// is `src_width` wide and drawn with its top-left corner at column `x`.
/// A non-positive source width never wraps, so pixels run right in one row.
pub open spec fn src_col(x: int, src_width: int, i: int) -> int {
    if src_width >= 1 {
        x + i % src_width
    } else {
        x + i
    }
}

/// Surface row that source pixel `i` lands on (see `src_col`).
pub open spec fn src_row(y: int, src_width: int, i: int) -> int {
    if src_width >= 1 {
        y + i / src_width
    } else {
        y
    }
}

/// The cell `(cx, cy)` lies on a surface of `w` columns and `h` rows.
pub open spec fn on_surface(cx: int, cy: int, w: int, h: int) -> bool {
    0 <= cx < w && 0 <= cy < h
}

/// Linear buffer offset of the cell `(cx, cy)` on a surface `w` wide.
pub open spec fn cell_index(cx: int, cy: int, w: int) -> int {
    cy * w + cx
}

/// Source pixel `i` lands on the surface and writes the buffer offset `k`.
pub open spec fn hits(x: int, y: int, sw: int, i: int, w: int, h: int, k: int) -> bool {
    on_surface(src_col(x, sw, i), src_row(y, sw, i), w, h) && cell_index(
        src_col(x, sw, i),
        src_row(y, sw, i),
        w,
    ) == k
}

/// Some source pixel among the first `n` writes the buffer offset `k`.
pub open spec fn covers(x: int, y: int, sw: int, n: int, w: int, h: int, k: int) -> bool {
    exists|i: int| 0 <= i < n && #[trigger] hits(x, y, sw, i, w, h, k)
}

/// All of the first `n` source pixels land on the surface (none is clipped).
pub open spec fn all_on_surface(x: int, y: int, sw: int, n: int, w: int, h: int) -> bool {
    forall|i: int|
        0 <= i < n ==> on_surface(#[trigger] src_col(x, sw, i), src_row(y, sw, i), w, h)
}

/// Number of cells a `rw` by `rh` rectangle pass visits: the product when it
/// is positive, none otherwise.
pub open spec fn rect_count(rw: int, rh: int) -> int {
    if rw * rh > 0 {
        rw * rh
    } else {
        0
    }
}

/// An on-surface cell has its offset inside the buffer.
proof fn lemma_cell_in_range(cx: int, cy: int, w: int, h: int)
    requires
        on_surface(cx, cy, w, h),
    ensures
        0 <= cell_index(cx, cy, w) < w * h,
{
    assert(0 <= cy * w + cx < w * h) by (nonlinear_arith)
        requires
            0 <= cx < w,
            0 <= cy < h,
    ;
}

/// Two on-surface cells with the same buffer offset are the same cell.
proof fn lemma_cell_injective(cx1: int, cy1: int, cx2: int, cy2: int, w: int)
    requires
        0 <= cx1 < w,
        0 <= cx2 < w,
        cell_index(cx1, cy1, w) == cell_index(cx2, cy2, w),
    ensures
        cx1 == cx2,
        cy1 == cy2,
{
    lemma_fundamental_div_mod_converse(cy1 * w + cx1, w, cy1, cx1);
    lemma_fundamental_div_mod_converse(cy2 * w + cx2, w, cy2, cx2);
}

/// Distinct source pixels land on distinct surface cells.
proof fn lemma_src_injective(x: int, y: int, sw: int, i: int, j: int)
    requires
        0 <= i,
        0 <= j,
        i != j,
    ensures
        src_col(x, sw, i) != src_col(x, sw, j) || src_row(y, sw, i) != src_row(y, sw, j),
{
    if sw >= 1 {
        if src_col(x, sw, i) == src_col(x, sw, j) && src_row(y, sw, i) == src_row(y, sw, j) {
            lemma_fundamental_div_mod(i, sw);
            lemma_fundamental_div_mod(j, sw);
            assert(false);
        }
    }
}

/// Clipping, characterised: for a rectangle with positive dimensions drawn
/// at `(x, y)`, an on-surface cell is written exactly when it lies in the
/// rectangle `[x, x + rw) x [y, y + rh)`; every other cell is untouched.
pub proof fn lemma_rect_covers_iff(
    x: int,
    y: int,
    rw: int,
    rh: int,
    w: int,
    h: int,
    cx: int,
    cy: int,
)
    requires
        rw >= 1,
        rh >= 1,
        on_surface(cx, cy, w, h),
    ensures
        covers(x, y, rw, rect_count(rw, rh), w, h, cell_index(cx, cy, w)) <==> (x <= cx < x + rw
            && y <= cy < y + rh),
{
    assert(rw * rh > 0) by (nonlinear_arith)
        requires
            rw >= 1,
            rh >= 1,
    ;
    let n = rect_count(rw, rh);
    if x <= cx < x + rw && y <= cy < y + rh {
        let i = (cy - y) * rw + (cx - x);
        assert(0 <= i < rw * rh) by (nonlinear_arith)
            requires
                i == (cy - y) * rw + (cx - x),
                0 <= cx - x < rw,
                0 <= cy - y < rh,
        ;
        lemma_fundamental_div_mod_converse(i, rw, cy - y, cx - x);
        assert(src_col(x, rw, i) == cx);
        assert(src_row(y, rw, i) == cy);
        assert(hits(x, y, rw, i, w, h, cell_index(cx, cy, w)));
    }
    if covers(x, y, rw, n, w, h, cell_index(cx, cy, w)) {
        let i = choose|i: int|
            0 <= i < n && #[trigger] hits(x, y, rw, i, w, h, cell_index(cx, cy, w));
        lemma_mod_bound(i, rw);
        lemma_cell_injective(src_col(x, rw, i), src_row(y, rw, i), cx, cy, w);
        assert(0 <= i / rw < rh) by (nonlinear_arith)
            requires
                rw >= 1,
                0 <= i,
                i < rw * rh,
        ;
    }
}

/// Whether a monochrome blit covered every source pixel, was clipped, or was
/// rejected outright.
#[derive(PartialEq, Eq, Copy, Clone, Debug, Structural)]
pub enum ImageCompletion {
    /// The requested origin already lay beyond the surface's right or bottom
    /// edge and no pixel work was attempted.
    Rejected,
    /// At least one source pixel fell outside the surface and was clipped.
    Partial,
    /// Every source pixel was drawn on the surface.
    Complete,
}

/// A mutable rectangular pixel surface over a caller-supplied linear buffer
/// of packed 32-bit colors, addressed row-major from the top-left corner.
pub struct Canvas {
    buffer: Vec<u32>,
    width: u32,
    height: u32,
}

impl Canvas {
    /// Number of columns; positive and fixed after construction.
    pub closed spec fn spec_width(&self) -> u32 {
        self.width
    }

    /// Number of rows; positive and fixed after construction.
    pub closed spec fn spec_height(&self) -> u32 {
        self.height
    }

    /// The packed 32-bit contents of the pixel buffer, row-major.
    pub closed spec fn pixels(&self) -> Seq<u32> {
        self.buffer@
    }

    /// Buffer length invariant: positive dimensions and a buffer of exactly
    /// `width * height` cells.
    pub open spec fn wf(&self) -> bool {
        self.spec_width() >= 1 && self.spec_height() >= 1 && self.pixels().len()
            == self.spec_width() * self.spec_height()
    }

    /// Builds a surface over an already-allocated buffer. Construction is
    /// refused, and the buffer handed back unchanged, for a zero dimension or
    /// a buffer whose length is not exactly `width * height`.
    pub fn new(buffer: Vec<u32>, width: u32, height: u32) -> (r: Result<Canvas, Vec<u32>>)
        ensures
            width >= 1 && height >= 1 && buffer@.len() == width * height ==> (r matches Ok(c)
                && c.wf() && c.spec_width() == width && c.spec_height() == height && c.pixels()
                == buffer@),
            !(width >= 1 && height >= 1 && buffer@.len() == width * height) ==> (r matches Err(v)
                && v@ == buffer@),
    {
        if width == 0 || height == 0 {
            return Err(buffer);
        }
        assert((width as u64) * (height as u64) <= 0xFFFF_FFFF_FFFF_FFFF) by (nonlinear_arith)
            requires
                width <= 0xFFFF_FFFFu64,
                height <= 0xFFFF_FFFFu64,
        ;
        let need: u64 = (width as u64) * (height as u64);
        if (buffer.len() as u64) != need {
            return Err(buffer);
        }
        Ok(Canvas { buffer, width, height })
    }

    /// Consumes the surface and hands the pixel buffer back unchanged.
    pub fn destroy(self) -> (buffer: Vec<u32>)
        ensures
            buffer@ == self.pixels(),
    {
        self.buffer
    }

    pub fn width(&self) -> (w: u32)
        ensures
            w == self.spec_width(),
    {
        self.width
    }

    pub fn height(&self) -> (h: u32)
        ensures
            h == self.spec_height(),
    {
        self.height
    }

    /// Read-only view of the pixel buffer.
    pub fn buffer(&self) -> (b: &Vec<u32>)
        ensures
            b@ == self.pixels(),
    {
        &self.buffer
    }

    /// Overwrites every cell of the buffer with `color`.
    pub fn fill(&mut self, color: Rgba)
        requires
            old(self).wf(),
        ensures
            final(self).wf(),
            final(self).spec_width() == old(self).spec_width(),
            final(self).spec_height() == old(self).spec_height(),
            final(self).pixels().len() == old(self).pixels().len(),
            forall|k: int|
                0 <= k < final(self).pixels().len() ==> final(self).pixels()[k] == color.packed(),
    {
        let p = color.to_u32();
        let n = self.buffer.len();
        let mut idx: usize = 0;
        while idx < n
            invariant
                idx <= n,
                n == self.buffer.len(),
                self.width == old(self).width,
                self.height == old(self).height,
                p == color.packed(),
                forall|k: int| 0 <= k < idx ==> self.buffer@[k] == p,
            decreases n - idx,
        {
            self.buffer.set(idx, p);
            idx += 1;
        }
    }

    /// Fills an axis-aligned `rect_width` by `rect_height` rectangle of cells
    /// with `color`, its top-left corner at `(x, y)`. Cells falling outside
    /// the surface are silently skipped; every other cell is left unchanged.
    pub fn draw_rectangle(&mut self, x: i64, y: i64, rect_width: i64, rect_height: i64, color: Rgba)
        requires
            old(self).wf(),
        ensures
            final(self).wf(),
            final(self).spec_width() == old(self).spec_width(),
            final(self).spec_height() == old(self).spec_height(),
            final(self).pixels().len() == old(self).pixels().len(),
            forall|k: int|
                0 <= k < final(self).pixels().len() ==> final(self).pixels()[k] == (if covers(
                    x as int,
                    y as int,
                    rect_width as int,
                    rect_count(rect_width as int, rect_height as int),
                    old(self).spec_width() as int,
                    old(self).spec_height() as int,
                    k,
                ) {
                    color.packed()
                } else {
                    old(self).pixels()[k]
                }),
    {
        let p = color.to_u32();
        let rw128: i128 = rect_width as i128;
        let rh128: i128 = rect_height as i128;
        assert(rw128 * rh128 <= 0x4000_0000_0000_0000_0000_0000_0000_0000
            && rw128 * rh128 >= -0x4000_0000_0000_0000_0000_0000_0000_0000) by (nonlinear_arith)
            requires
                -0x8000_0000_0000_0000 <= rw128 <= 0x7FFF_FFFF_FFFF_FFFF,
                -0x8000_0000_0000_0000 <= rh128 <= 0x7FFF_FFFF_FFFF_FFFF,
        ;
        let total_i: i128 = rw128 * rh128;
        let total: u128 = if total_i > 0 {
            total_i as u128
        } else {
            0
        };
        let w: i128 = self.width as i128;
        let h: i128 = self.height as i128;
        let mut i: u128 = 0;
        while i < total
            invariant
                i <= total,
                total as int == rect_count(rect_width as int, rect_height as int),
                total <= 0x4000_0000_0000_0000_0000_0000_0000_0000,
                old(self).wf(),
                self.width == old(self).width,
                self.height == old(self).height,
                self.buffer@.len() == old(self).buffer@.len(),
                w == self.width as i128,
                h == self.height as i128,
                p == color.packed(),
                forall|k: int|
                    0 <= k < self.buffer@.len() ==> self.buffer@[k] == (if covers(
                        x as int,
                        y as int,
                        rect_width as int,
                        i as int,
                        self.width as int,
                        self.height as int,
                        k,
                    ) {
                        p
                    } else {
                        old(self).buffer@[k]
                    }),
            decreases total - i,
        {
            let ghost prev = self.buffer@;
            let (cx, cy): (i128, i128) = if rect_width >= 1 {
                let rwu: u128 = rect_width as u128;
                let q: u128 = i / rwu;
                let r: u128 = i % rwu;
                ((x as i128) + (r as i128), (y as i128) + (q as i128))
            } else {
                ((x as i128) + (i as i128), y as i128)
            };
            proof {
                assert(cx == src_col(x as int, rect_width as int, i as int));
                assert(cy == src_row(y as int, rect_width as int, i as int));
            }
            if 0 <= cx && cx < w && 0 <= cy && cy < h {
                let buf_len: usize = self.buffer.len();
                proof {
                    lemma_cell_in_range(cx as int, cy as int, w as int, h as int);
                    assert((w as int) * (h as int) == buf_len as int);
                    assert(0 <= (cy as int) * (w as int) + (cx as int) < buf_len as int);
                }
                let k = (cy * w + cx) as usize;
                self.buffer.set(k, p);
                proof {
                    assert(hits(
                        x as int,
                        y as int,
                        rect_width as int,
                        i as int,
                        self.width as int,
                        self.height as int,
                        k as int,
                    ));
                    assert forall|kk: int| 0 <= kk < self.buffer@.len() implies self.buffer@[kk]
                        == (if covers(
                        x as int,
                        y as int,
                        rect_width as int,
                        i as int + 1,
                        self.width as int,
                        self.height as int,
                        kk,
                    ) {
                        p
                    } else {
                        old(self).buffer@[kk]
                    }) by {
                        if kk == k as int {
                            assert(covers(
                                x as int,
                                y as int,
                                rect_width as int,
                                i as int + 1,
                                self.width as int,
                                self.height as int,
                                kk,
                            ));
                        } else {
                            assert(self.buffer@[kk] == prev[kk]);
                            if covers(
                                x as int,
                                y as int,
                                rect_width as int,
                                i as int + 1,
                                self.width as int,
                                self.height as int,
                                kk,
                            ) {
                                let j = choose|j: int|
                                    0 <= j < i as int + 1 && #[trigger] hits(
                                        x as int,
                                        y as int,
                                        rect_width as int,
                                        j,
                                        self.width as int,
                                        self.height as int,
                                        kk,
                                    );
                                assert(j < i as int);
                            }
                        }
                    }
                }
            } else {
                proof {
                    assert forall|kk: int| 0 <= kk < self.buffer@.len() implies self.buffer@[kk]
                        == (if covers(
                        x as int,
                        y as int,
                        rect_width as int,
                        i as int + 1,
                        self.width as int,
                        self.height as int,
                        kk,
                    ) {
                        p
                    } else {
                        old(self).buffer@[kk]
                    }) by {
                        if covers(
                            x as int,
                            y as int,
                            rect_width as int,
                            i as int + 1,
                            self.width as int,
                            self.height as int,
                            kk,
                        ) {
                            let j = choose|j: int|
                                0 <= j < i as int + 1 && #[trigger] hits(
                                    x as int,
                                    y as int,
                                    rect_width as int,
                                    j,
                                    self.width as int,
                                    self.height as int,
                                    kk,
                                );
                            assert(j < i as int);
                            assert(covers(
                                x as int,
                                y as int,
                                rect_width as int,
                                i as int,
                                self.width as int,
                                self.height as int,
                                kk,
                            ));
                        }
                    }
                }
            }
            i = i + 1;
        }
    }

    /// Blits a full-color image with its top-left corner at `(x, y)`. Every
    /// source pixel that lands on the surface overwrites its cell; pixels
    /// falling outside are silently skipped, and every cell no source pixel
    /// lands on keeps its previous contents.
    pub fn draw_image<R: ColorRect<Rgba>>(&mut self, x: isize, y: isize, image: &R)
        requires
            old(self).wf(),
        ensures
            final(self).wf(),
            final(self).spec_width() == old(self).spec_width(),
            final(self).spec_height() == old(self).spec_height(),
            final(self).pixels().len() == old(self).pixels().len(),
            forall|j: int|
                0 <= j < image.pixel_seq().len() && on_surface(
                    #[trigger] src_col(x as int, image.width_spec() as int, j),
                    src_row(y as int, image.width_spec() as int, j),
                    old(self).spec_width() as int,
                    old(self).spec_height() as int,
                ) ==> final(self).pixels()[cell_index(
                    src_col(x as int, image.width_spec() as int, j),
                    src_row(y as int, image.width_spec() as int, j),
                    old(self).spec_width() as int,
                )] == image.pixel_seq()[j].packed(),
            forall|k: int|
                0 <= k < final(self).pixels().len() && !(#[trigger] covers(
                    x as int,
                    y as int,
                    image.width_spec() as int,
                    image.pixel_seq().len() as int,
                    old(self).spec_width() as int,
                    old(self).spec_height() as int,
                    k,
                )) ==> final(self).pixels()[k] == old(self).pixels()[k],
    {
        let bytes = image.get_bytes();
        let n = bytes.len();
        let iw = image.get_width();
        let w: i128 = self.width as i128;
        let h: i128 = self.height as i128;
        let mut i: usize = 0;
        while i < n
            invariant
                i <= n,
                n == bytes@.len(),
                bytes@ == image.pixel_seq(),
                iw == image.width_spec(),
                old(self).wf(),
                self.width == old(self).width,
                self.height == old(self).height,
                self.buffer@.len() == old(self).buffer@.len(),
                w == self.width as i128,
                h == self.height as i128,
                forall|j: int|
                    0 <= j < i && on_surface(
                        #[trigger] src_col(x as int, iw as int, j),
                        src_row(y as int, iw as int, j),
                        self.width as int,
                        self.height as int,
                    ) ==> self.buffer@[cell_index(
                        src_col(x as int, iw as int, j),
                        src_row(y as int, iw as int, j),
                        self.width as int,
                    )] == bytes@[j].packed(),
                forall|k: int|
                    0 <= k < self.buffer@.len() && !(#[trigger] covers(
                        x as int,
                        y as int,
                        iw as int,
                        i as int,
                        self.width as int,
                        self.height as int,
                        k,
                    )) ==> self.buffer@[k] == old(self).buffer@[k],
            decreases n - i,
        {
            let ghost xi = x as int;
            let ghost yi = y as int;
            let ghost iwi = iw as int;
            let ghost wi = self.width as int;
            let ghost hi = self.height as int;
            let (cx, cy): (i128, i128) = if iw >= 1 {
                let q: usize = i / (iw as usize);
                let r: usize = i % (iw as usize);
                ((x as i128) + (r as i128), (y as i128) + (q as i128))
            } else {
                ((x as i128) + (i as i128), y as i128)
            };
            proof {
                assert(cx == src_col(xi, iwi, i as int));
                assert(cy == src_row(yi, iwi, i as int));
            }
            let ghost prev = self.buffer@;
            if 0 <= cx && cx < w && 0 <= cy && cy < h {
                let buf_len: usize = self.buffer.len();
                proof {
                    lemma_cell_in_range(cx as int, cy as int, w as int, h as int);
                    assert((w as int) * (h as int) == buf_len as int);
                    assert(0 <= (cy as int) * (w as int) + (cx as int) < buf_len as int);
                }
                let k = (cy * w + cx) as usize;
                let px = bytes[i];
                let pv = px.to_u32();
                self.buffer.set(k, pv);
                proof {
                    assert(hits(xi, yi, iwi, i as int, wi, hi, k as int));
                    assert(self.buffer@ == prev.update(k as int, pv));
                    assert forall|j: int|
                        0 <= j < i as int + 1 && on_surface(
                            #[trigger] src_col(xi, iwi, j),
                            src_row(yi, iwi, j),
                            wi,
                            hi,
                        ) implies self.buffer@[cell_index(
                        src_col(xi, iwi, j),
                        src_row(yi, iwi, j),
                        wi,
                    )] == bytes@[j].packed() by {
                        if j == i as int {
                            assert(cell_index(src_col(xi, iwi, j), src_row(yi, iwi, j), wi)
                                == k as int);
                            assert(self.buffer@[k as int] == pv);
                        } else {
                            if cell_index(src_col(xi, iwi, j), src_row(yi, iwi, j), wi) == k as int {
                                lemma_cell_injective(
                                    src_col(xi, iwi, j),
                                    src_row(yi, iwi, j),
                                    cx as int,
                                    cy as int,
                                    wi,
                                );
                                lemma_src_injective(xi, yi, iwi, i as int, j);
                                assert(false);
                            }
                            lemma_cell_in_range(src_col(xi, iwi, j), src_row(yi, iwi, j), wi, hi);
                            assert(wi * hi == prev.len() as int);
                            assert(self.buffer@[cell_index(src_col(xi, iwi, j), src_row(yi, iwi, j), wi)]
                                == prev[cell_index(src_col(xi, iwi, j), src_row(yi, iwi, j), wi)]);
                            assert(prev[cell_index(src_col(xi, iwi, j), src_row(yi, iwi, j), wi)]
                                == bytes@[j].packed());
                        }
                    }
                    assert forall|kk: int|
                        0 <= kk < self.buffer@.len() && !(#[trigger] covers(
                            xi,
                            yi,
                            iwi,
                            i as int + 1,
                            wi,
                            hi,
                            kk,
                        )) implies self.buffer@[kk] == old(self).buffer@[kk] by {
                        if covers(xi, yi, iwi, i as int, wi, hi, kk) {
                            lemma_covers_monotone(xi, yi, iwi, i as int, i as int + 1, wi, hi, kk);
                        }
                        if kk == k as int {
                            assert(covers(xi, yi, iwi, i as int + 1, wi, hi, kk));
                        }
                        assert(self.buffer@[kk] == prev[kk]);
                    }
                }
            } else {
                proof {
                    assert forall|kk: int|
                        0 <= kk < self.buffer@.len() && !(#[trigger] covers(
                            xi,
                            yi,
                            iwi,
                            i as int + 1,
                            wi,
                            hi,
                            kk,
                        )) implies self.buffer@[kk] == old(self).buffer@[kk] by {
                        if covers(xi, yi, iwi, i as int, wi, hi, kk) {
                            lemma_covers_monotone(xi, yi, iwi, i as int, i as int + 1, wi, hi, kk);
                        }
                    }
                }
            }
            i = i + 1;
        }
    }

    /// Blits a single-channel (grayscale byte) image, mapping each byte to a
    /// color: 0 draws `black` exactly, 255 draws `white` exactly, any other
    /// byte the linear blend of the two. Returns `Rejected` without touching
    /// a pixel when the origin already lies past the right or bottom edge,
    /// `Partial` when at least one source pixel was clipped, `Complete` when
    /// every source pixel was drawn.
    pub fn draw_monochrome_image<R: ColorRect<u8>>(
        &mut self,
        x: isize,
        y: isize,
        image: &R,
        black: Rgba,
        white: Rgba,
    ) -> (r: ImageCompletion)
        requires
            old(self).wf(),
        ensures
            final(self).wf(),
            final(self).spec_width() == old(self).spec_width(),
            final(self).spec_height() == old(self).spec_height(),
            final(self).pixels().len() == old(self).pixels().len(),
            old(self).spec_width() < x || old(self).spec_height() < y ==> (r
                == ImageCompletion::Rejected && final(self).pixels() == old(self).pixels()),
            !(old(self).spec_width() < x || old(self).spec_height() < y) ==> ({
                let n = image.pixel_seq().len() as int;
                let iw = image.width_spec() as int;
                let w = old(self).spec_width() as int;
                let h = old(self).spec_height() as int;
                &&& forall|j: int|
                    0 <= j < n && on_surface(
                        #[trigger] src_col(x as int, iw, j),
                        src_row(y as int, iw, j),
                        w,
                        h,
                    ) ==> final(self).pixels()[cell_index(
                        src_col(x as int, iw, j),
                        src_row(y as int, iw, j),
                        w,
                    )] == mono_color(black, white, image.pixel_seq()[j]).packed()
                &&& forall|k: int|
                    0 <= k < final(self).pixels().len() && !(#[trigger] covers(
                        x as int,
                        y as int,
                        iw,
                        n,
                        w,
                        h,
                        k,
                    )) ==> final(self).pixels()[k] == old(self).pixels()[k]
                &&& (r == ImageCompletion::Complete <==> all_on_surface(x as int, y as int, iw, n, w, h))
                &&& (r == ImageCompletion::Partial <==> !all_on_surface(x as int, y as int, iw, n, w, h))
            }),
    {
        if (self.width as i64) < (x as i64) || (self.height as i64) < (y as i64) {
            return ImageCompletion::Rejected;
        }
        let bytes = image.get_bytes();
        let n = bytes.len();
        let iw = image.get_width();
        let w: i128 = self.width as i128;
        let h: i128 = self.height as i128;
        let mut complete: bool = true;
        let mut i: usize = 0;
        while i < n
            invariant
                i <= n,
                n == bytes@.len(),
                bytes@ == image.pixel_seq(),
                iw == image.width_spec(),
                old(self).wf(),
                self.width == old(self).width,
                self.height == old(self).height,
                self.buffer@.len() == old(self).buffer@.len(),
                w == self.width as i128,
                h == self.height as i128,
                complete == all_on_surface(
                    x as int,
                    y as int,
                    iw as int,
                    i as int,
                    self.width as int,
                    self.height as int,
                ),
                forall|j: int|
                    0 <= j < i && on_surface(
                        #[trigger] src_col(x as int, iw as int, j),
                        src_row(y as int, iw as int, j),
                        self.width as int,
                        self.height as int,
                    ) ==> self.buffer@[cell_index(
                        src_col(x as int, iw as int, j),
                        src_row(y as int, iw as int, j),
                        self.width as int,
                    )] == mono_color(black, white, bytes@[j]).packed(),
                forall|k: int|
                    0 <= k < self.buffer@.len() && !(#[trigger] covers(
                        x as int,
                        y as int,
                        iw as int,
                        i as int,
                        self.width as int,
                        self.height as int,
                        k,
                    )) ==> self.buffer@[k] == old(self).buffer@[k],
            decreases n - i,
        {
            let ghost xi = x as int;
            let ghost yi = y as int;
            let ghost iwi = iw as int;
            let ghost wi = self.width as int;
            let ghost hi = self.height as int;
            let (cx, cy): (i128, i128) = if iw >= 1 {
                let q: usize = i / (iw as usize);
                let r: usize = i % (iw as usize);
                ((x as i128) + (r as i128), (y as i128) + (q as i128))
            } else {
                ((x as i128) + (i as i128), y as i128)
            };
            proof {
                assert(cx == src_col(xi, iwi, i as int));
                assert(cy == src_row(yi, iwi, i as int));
            }
            let ghost prev = self.buffer@;
            let ghost was_complete = complete;
            if 0 <= cx && cx < w && 0 <= cy && cy < h {
                let buf_len: usize = self.buffer.len();
                proof {
                    lemma_cell_in_range(cx as int, cy as int, w as int, h as int);
                    assert((w as int) * (h as int) == buf_len as int);
                    assert(0 <= (cy as int) * (w as int) + (cx as int) < buf_len as int);
                }
                let k = (cy * w + cx) as usize;
                let b = bytes[i];
                let color = if b == 0 {
                    black
                } else if b == 255 {
                    white
                } else {
                    black.blend(white, b)
                };
                proof {
                    assert(color == mono_color(black, white, bytes@[i as int]));
                }
                let pv = color.to_u32();
                self.buffer.set(k, pv);
                proof {
                    assert(hits(xi, yi, iwi, i as int, wi, hi, k as int));
                    assert(self.buffer@ == prev.update(k as int, pv));
                    assert forall|j: int|
                        0 <= j < i as int + 1 && on_surface(
                            #[trigger] src_col(xi, iwi, j),
                            src_row(yi, iwi, j),
                            wi,
                            hi,
                        ) implies self.buffer@[cell_index(
                        src_col(xi, iwi, j),
                        src_row(yi, iwi, j),
                        wi,
                    )] == mono_color(black, white, bytes@[j]).packed() by {
                        if j == i as int {
                            assert(cell_index(src_col(xi, iwi, j), src_row(yi, iwi, j), wi)
                                == k as int);
                            assert(self.buffer@[k as int] == pv);
                        } else {
                            if cell_index(src_col(xi, iwi, j), src_row(yi, iwi, j), wi) == k as int {
                                lemma_cell_injective(
                                    src_col(xi, iwi, j),
                                    src_row(yi, iwi, j),
                                    cx as int,
                                    cy as int,
                                    wi,
                                );
                                lemma_src_injective(xi, yi, iwi, i as int, j);
                                assert(false);
                            }
                            lemma_cell_in_range(src_col(xi, iwi, j), src_row(yi, iwi, j), wi, hi);
                            assert(wi * hi == prev.len() as int);
                            assert(self.buffer@[cell_index(src_col(xi, iwi, j), src_row(yi, iwi, j), wi)]
                                == prev[cell_index(src_col(xi, iwi, j), src_row(yi, iwi, j), wi)]);
                            assert(prev[cell_index(src_col(xi, iwi, j), src_row(yi, iwi, j), wi)]
                                == mono_color(black, white, bytes@[j]).packed());
                        }
                    }
                    assert forall|kk: int|
                        0 <= kk < self.buffer@.len() && !(#[trigger] covers(
                            xi,
                            yi,
                            iwi,
                            i as int + 1,
                            wi,
                            hi,
                            kk,
                        )) implies self.buffer@[kk] == old(self).buffer@[kk] by {
                        if covers(xi, yi, iwi, i as int, wi, hi, kk) {
                            lemma_covers_monotone(xi, yi, iwi, i as int, i as int + 1, wi, hi, kk);
                        }
                        if kk == k as int {
                            assert(covers(xi, yi, iwi, i as int + 1, wi, hi, kk));
                        }
                        assert(self.buffer@[kk] == prev[kk]);
                    }
                    if was_complete {
                        assert forall|j: int| 0 <= j < i as int + 1 implies on_surface(
                            #[trigger] src_col(xi, iwi, j),
                            src_row(yi, iwi, j),
                            wi,
                            hi,
                        ) by {}
                    } else {
                        assert(!all_on_surface(xi, yi, iwi, i as int, wi, hi));
                        if all_on_surface(xi, yi, iwi, i as int + 1, wi, hi) {
                            assert forall|j: int| 0 <= j < i as int implies on_surface(
                                #[trigger] src_col(xi, iwi, j),
                                src_row(yi, iwi, j),
                                wi,
                                hi,
                            ) by {}
                            assert(false);
                        }
                    }
                }
            } else {
                complete = false;
                proof {
                    assert(!on_surface(src_col(xi, iwi, i as int), src_row(yi, iwi, i as int), wi, hi));
                    assert(!all_on_surface(xi, yi, iwi, i as int + 1, wi, hi));
                    assert forall|kk: int|
                        0 <= kk < self.buffer@.len() && !(#[trigger] covers(
                            xi,
                            yi,
                            iwi,
                            i as int + 1,
                            wi,
                            hi,
                            kk,
                        )) implies self.buffer@[kk] == old(self).buffer@[kk] by {
                        if covers(xi, yi, iwi, i as int, wi, hi, kk) {
                            lemma_covers_monotone(xi, yi, iwi, i as int, i as int + 1, wi, hi, kk);
                        }
                    }
                }
            }
            i = i + 1;
        }
        if complete {
            ImageCompletion::Complete
        } else {
            ImageCompletion::Partial
        }
    }
}

/// The color a monochrome source byte maps to: 0 is `black` exactly, 255 is
/// `white` exactly, any other byte the linear blend of the two.
pub open spec fn mono_color(black: Rgba, white: Rgba, b: u8) -> Rgba {
    if b == 0 {
        black
    } else if b == 255 {
        white
    } else {
        black.spec_blend(white, b)
    }
}

/// A buffer offset covered among the first `n1` source pixels is still
/// covered among a longer prefix `n2`.
proof fn lemma_covers_monotone(x: int, y: int, sw: int, n1: int, n2: int, w: int, h: int, k: int)
    requires
        n1 <= n2,
        covers(x, y, sw, n1, w, h, k),
    ensures
        covers(x, y, sw, n2, w, h, k),
{
    let j = choose|j: int| 0 <= j < n1 && #[trigger] hits(x, y, sw, j, w, h, k);
    assert(hits(x, y, sw, j, w, h, k));
}

/// Read-only capability of an image-like source: a flat row-major pixel
/// array together with its declared width and height.
pub trait ColorRect<C> {
    /// The pixel contents, row-major.
    spec fn pixel_seq(&self) -> Seq<C>;

    /// The declared width in pixels.
    spec fn width_spec(&self) -> u32;

    /// The declared height in pixels.
    spec fn height_spec(&self) -> u32;

    fn get_bytes(&self) -> (r: &Vec<C>)
        ensures
            r@ == self.pixel_seq(),
    ;

    fn get_width(&self) -> (r: u32)
        ensures
            r == self.width_spec(),
    ;

    fn get_height(&self) -> (r: u32)
        ensures
            r == self.height_spec(),
    ;
}

/// A full-color image: a flat array of colors plus its declared dimensions.
/// The declared width and height need not match the array length; drawing is
/// driven by the array with rows `width` pixels wide.
pub struct Image {
    pub bytes: Vec<Rgba>,
    pub width: u32,
    pub height: u32,
}

impl Image {
    /// A borrowed read-only view of this image.
    pub fn get_ref<'a>(&'a self) -> (r: ImageRef<'a>)
        ensures
            r.bytes@ == self.bytes@,
            r.width == self.width,
            r.height == self.height,
    {
        ImageRef { bytes: &self.bytes, width: self.width, height: self.height }
    }
}

impl ColorRect<Rgba> for Image {
    open spec fn pixel_seq(&self) -> Seq<Rgba> {
        self.bytes@
    }

    open spec fn width_spec(&self) -> u32 {
        self.width
    }

    open spec fn height_spec(&self) -> u32 {
        self.height
    }

    fn get_bytes(&self) -> (r: &Vec<Rgba>) {
        &self.bytes
    }

    fn get_width(&self) -> (r: u32) {
        self.width
    }

    fn get_height(&self) -> (r: u32) {
        self.height
    }
}

/// A single-channel image: one grayscale byte per pixel.
pub struct MonoImage {
    pub bytes: Vec<u8>,
    pub width: u32,
    pub height: u32,
}

impl ColorRect<u8> for MonoImage {
    open spec fn pixel_seq(&self) -> Seq<u8> {
        self.bytes@
    }

    open spec fn width_spec(&self) -> u32 {
        self.width
    }

    open spec fn height_spec(&self) -> u32 {
        self.height
    }

    fn get_bytes(&self) -> (r: &Vec<u8>) {
        &self.bytes
    }

    fn get_width(&self) -> (r: u32) {
        self.width
    }

    fn get_height(&self) -> (r: u32) {
        self.height
    }
}

/// A borrowed read-only view of a full-color image.
pub struct ImageRef<'a> {
    pub bytes: &'a Vec<Rgba>,
    pub width: u32,
    pub height: u32,
}

#[verifier::external_type_specification]
#[verifier::external_body]
pub struct ExImageError(image::ImageError);

/// What decoding a PNG byte stream yields: the raw pixel bytes and the
/// declared dimensions, a function of the input bytes alone; nothing when
/// the stream is not a PNG the decoder accepts.
pub uninterp spec fn png_decode(data: Seq<u8>) -> Option<(Seq<u8>, u32, u32)>;

/// Relies on image's PngDecoder (new, dimensions, total_bytes, read_image):
/// decoding a PNG byte stream is deterministic in those bytes, yielding the
/// raw pixel bytes and dimensions, or the decoder's error. Two caveats are
/// compile-time properties of the target, so no two calls in one program can
/// disagree: 16-bit-per-channel samples are reordered to native endianness,
/// and a pixel buffer too large for usize is refused with a limits error.
#[verifier::external_body]
fn decode_png(data: &Vec<u8>) -> (r: Result<(Vec<u8>, u32, u32), image::ImageError>)
    ensures
        match r {
            Ok(out) => png_decode(data@) matches Some(d) && d.0 == out.0@ && d.1 == out.1 && d.2
                == out.2,
            Err(_) => png_decode(data@) is None,
        },
{
    let cursor = std::io::Cursor::new(data.as_slice());
    let decoder = image::codecs::png::PngDecoder::new(cursor)?;
    let (width, height) = image::ImageDecoder::dimensions(&decoder);
    let Ok(total) = usize::try_from(image::ImageDecoder::total_bytes(&decoder)) else {
        return Err(image::ImageError::Limits(image::error::LimitError::from_kind(
            image::error::LimitErrorKind::InsufficientMemory,
        )));
    };
    let mut buf: Vec<u8> = vec![0u8; total];
    image::ImageDecoder::read_image(decoder, &mut buf)?;
    Ok((buf, width, height))
}

/// Why loading an image asset failed: the decoder's error, propagated
/// unchanged to the caller.
#[derive(Debug)]
pub enum ImageLoadError {
    Decode(image::ImageError),
}

/// The color stored for pixel `j` of a decoded byte stream, whose four
/// bytes per pixel arrive in red, green, blue, alpha order.
pub open spec fn rgba_of_bytes(bytes: Seq<u8>, j: int) -> Rgba {
    Rgba {
        red: bytes[4 * j],
        green: bytes[4 * j + 1],
        blue: bytes[4 * j + 2],
        alpha: bytes[4 * j + 3],
    }
}

/// Groups a decoded byte stream into packed colors, four bytes per pixel
/// in red, green, blue, alpha order; a trailing remainder shorter than four
/// bytes is dropped.
pub fn rgba_pixels_from_bytes(bytes: &Vec<u8>) -> (v: Vec<Rgba>)
    ensures
        v@.len() == bytes@.len() / 4,
        forall|j: int| 0 <= j < v@.len() ==> v@[j] == rgba_of_bytes(bytes@, j),
{
    let len_b = bytes.len();
    let n = len_b / 4;
    let mut v: Vec<Rgba> = Vec::new();
    let mut p: usize = 0;
    while p < n
        invariant
            p <= n,
            n == bytes@.len() / 4,
            len_b == bytes@.len(),
            v@.len() == p,
            forall|j: int| 0 <= j < p ==> v@[j] == rgba_of_bytes(bytes@, j),
        decreases n - p,
    {
        proof {
            lemma_fundamental_div_mod(len_b as int, 4);
            lemma_mod_bound(len_b as int, 4);
            assert(4 * p + 4 <= len_b);
        }
        let color = Rgba::new(
            bytes[4 * p],
            bytes[4 * p + 1],
            bytes[4 * p + 2],
            bytes[4 * p + 3],
        );
        proof {
            assert(color == rgba_of_bytes(bytes@, p as int));
        }
        v.push(color);
        p += 1;
    }
    v
}

/// A lazily-loaded image asset: either just a file path, or the decoded
/// pixels kept together with the path they came from.
pub enum ImageHandle {
    Handle { path: &'static str },
    Image { path: &'static str, vector: Vec<Rgba>, width: u32, height: u32 },
}

impl ImageHandle {
    /// The stored file path, in either state.
    pub open spec fn spec_path(&self) -> &'static str {
        match self {
            ImageHandle::Handle { path } => path,
            ImageHandle::Image { path, .. } => path,
        }
    }

    pub fn path(&self) -> (p: &'static str)
        ensures
            p == self.spec_path(),
    {
        match self {
            ImageHandle::Handle { path } => path,
            ImageHandle::Image { path, .. } => path,
        }
    }

    /// Decodes `data` (the bytes of a PNG file read for this asset's path)
    /// and becomes `Image`; a no-op success when already loaded. On a decode
    /// failure the decoder's error is handed back unchanged and the handle
    /// stays unloaded, so the caller may retry later.
    pub fn load(&mut self, data: &Vec<u8>) -> (r: Result<(), ImageLoadError>)
        ensures
            old(self) matches ImageHandle::Image { .. } ==> (r is Ok && *final(self) == *old(
                self,
            )),
            old(self) matches ImageHandle::Handle { .. } ==> match r {
                Ok(_) => png_decode(data@) matches Some(d) && (*final(self) matches
                    ImageHandle::Image { path: p2, vector, width, height } && p2 == old(
                    self,
                ).spec_path() && width
                    == d.1 && height == d.2 && vector@.len() == d.0.len() / 4 && (forall|j: int|
                    0 <= j < vector@.len() ==> vector@[j] == rgba_of_bytes(d.0, j))),
                Err(_) => png_decode(data@) is None && *final(self) == *old(self),
            },
    {
        match self {
            ImageHandle::Image { .. } => Ok(()),
            ImageHandle::Handle { path } => {
                let path0: &'static str = path;
                match decode_png(data) {
                    Err(e) => Err(ImageLoadError::Decode(e)),
                    Ok((buf, width, height)) => {
                        let vector = rgba_pixels_from_bytes(&buf);
                        *self = ImageHandle::Image { path: path0, vector, width, height };
                        Ok(())
                    },
                }
            },
        }
    }

    /// Discards any decoded pixels, keeping only the path for a later
    /// reload; always succeeds.
    pub fn unload(&mut self)
        ensures
            *final(self) == (ImageHandle::Handle { path: old(self).spec_path() }),
    {
        match self {
            ImageHandle::Handle { path } => {
                let p: &'static str = path;
                *self = ImageHandle::Handle { path: p };
            },
            ImageHandle::Image { path, vector: _, width: _, height: _ } => {
                let p: &'static str = path;
                *self = ImageHandle::Handle { path: p };
            },
        }
    }

    /// Consumes the handle, yielding an owned color image only when loaded.
    pub fn to_image(self) -> (r: Option<Image>)
        ensures
            self matches ImageHandle::Image { path, vector, width, height } ==> (r matches Some(
                img,
            ) && img.bytes == vector && img.width == width && img.height == height),
            self matches ImageHandle::Handle { .. } ==> r is None,
    {
        match self {
            ImageHandle::Image { path: _, vector, width, height } => Some(
                Image { bytes: vector, width, height },
            ),
            ImageHandle::Handle { .. } => None,
        }
    }

    /// A borrowed read-only view of the decoded image, only when loaded.
    pub fn image_ref<'a>(&'a self) -> (r: Option<ImageRef<'a>>)
        ensures
            self matches ImageHandle::Image { vector, width, height, .. } ==> (r matches Some(ir)
                && ir.bytes@ == vector@ && ir.width == width && ir.height == height),
            self matches ImageHandle::Handle { .. } ==> r is None,
    {
        match self {
            ImageHandle::Image { path: _, vector, width, height } => Some(
                ImageRef { bytes: vector, width: *width, height: *height },
            ),
            ImageHandle::Handle { .. } => None,
        }
    }
}

} // verus!
