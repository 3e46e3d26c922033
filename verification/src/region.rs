//! Rectangles of row-major arrays.

use vstd::prelude::*;

verus! {

/// A rectangle.
#[derive(Clone, Copy, Debug, PartialEq, Eq, Structural)]
pub struct Rect {
    pub x: usize,
    pub y: usize,
    pub width: usize,
    pub height: usize,
}

impl Rect {
    /// The rectangle lies in an array of `len` cells with `stride` to a row.
    pub open spec fn fits(&self, stride: int, len: int) -> bool {
        &&& self.x + self.width <= stride
        &&& self.height > 0 && self.width > 0 ==> (self.y + self.height) * stride <= len
    }

    /// Place `i` of the array is a cell of the rectangle.
    pub open spec fn holds(&self, stride: int, i: int) -> bool {
        &&& self.y <= i / stride < self.y + self.height
        &&& self.x <= i % stride < self.x + self.width
    }

    /// The place in the array of row `r`, column `c` of the rectangle.
    pub open spec fn place(&self, stride: int, r: int, c: int) -> int {
        (self.y + r) * stride + self.x + c
    }

    /// The place in a copy of the rectangle of place `i` of the array.
    pub open spec fn copy_place(&self, stride: int, i: int) -> int {
        (i / stride - self.y) * self.width + (i % stride - self.x)
    }
}

/// A copy of a rectangle, row by row.
pub open spec fn rect_copy<T>(data: Seq<T>, stride: int, rect: Rect) -> Seq<T> {
    Seq::new(
        (rect.width * rect.height) as nat,
        |k: int| data[rect.place(stride, k / rect.width as int, k % rect.width as int)],
    )
}

/// An array with a rectangle replaced by a copy.
pub open spec fn rect_pasted<T>(data: Seq<T>, stride: int, rect: Rect, saved: Seq<T>) -> Seq<T> {
    Seq::new(
        data.len(),
        |i: int|
            if rect.holds(stride, i) {
                saved[rect.copy_place(stride, i)]
            } else {
                data[i]
            },
    )
}

/// The cells of a rectangle in an array: bounds and row and column of their places.
pub proof fn lemma_place(rect: Rect, stride: int, len: int, r: int, c: int)
    requires
        rect.fits(stride, len),
        0 <= r < rect.height,
        0 <= c < rect.width,
    ensures
        stride > 0,
        0 <= rect.place(stride, r, c) < len,
        rect.place(stride, r, c) / stride == rect.y + r,
        rect.place(stride, r, c) % stride == rect.x + c,
        rect.holds(stride, rect.place(stride, r, c)),
        rect.copy_place(stride, rect.place(stride, r, c)) == r * rect.width + c,
{
    let row = rect.y + r;
    let col = rect.x + c;
    let i = rect.place(stride, r, c);
    assert(i == row * stride + col);
    vstd::arithmetic::div_mod::lemma_fundamental_div_mod_converse(i, stride, row, col);
    assert(row * stride + stride <= (rect.y + rect.height) * stride) by (nonlinear_arith)
        requires
            row + 1 <= rect.y + rect.height,
            stride > 0,
    ;
    assert(row * stride >= 0) by (nonlinear_arith)
        requires
            row >= 0,
            stride > 0,
    ;
    assert((i / stride - rect.y) == r);
}

/// Copies a rectangle out of an array, into a buffer that is emptied first.
pub fn copy_rect_into<T: Copy>(data: &[T], stride: usize, rect: Rect, out: &mut Vec<T>)
    requires
        rect.fits(stride as int, data@.len() as int),
    ensures
        final(out)@ == rect_copy(data@, stride as int, rect),
{
    out.clear();
    let len: usize = data.len();
    let ghost st = stride as int;
    let (w, h) = (rect.width, rect.height);
    let mut row: usize = 0;
    assert(0 * w == 0);
    proof {
        if w > 0 && h > 0 {
            let (wi, hi, y) = (w as int, h as int, rect.y as int);
            assert(wi * hi <= (y + hi) * st) by (nonlinear_arith)
                requires
                    0 <= wi <= st,
                    0 <= hi,
                    0 <= y,
            ;
        } else {
            assert(w * h == 0) by (nonlinear_arith)
                requires
                    w == 0 || h == 0,
            ;
        }
    }
    while row < h
        invariant
            len == data@.len(),
            rect.fits(st, data@.len() as int),
            st == stride,
            w == rect.width,
            h == rect.height,
            row <= h,
            out@.len() == row * w,
            out@.len() <= w * h,
            forall|k: int|
                0 <= k < out@.len() ==> #[trigger] out@[k] == rect_copy(data@, st, rect)[k],
        decreases h - row,
    {
        let ghost base = out@.len() as int;
        assert(base == row * w);
        let mut col: usize = 0;
        assert(row * w + w <= w * h) by (nonlinear_arith)
            requires
                row + 1 <= h,
        ;
        while col < w
            invariant
                len == data@.len(),
                rect.fits(st, data@.len() as int),
                st == stride,
                w == rect.width,
                h == rect.height,
                row < h,
                col <= w,
                base == row * w,
                base + w <= w * h,
                out@.len() == base + col,
                forall|k: int|
                    0 <= k < out@.len() ==> #[trigger] out@[k] == rect_copy(data@, st, rect)[k],
            decreases w - col,
        {
            proof {
                lemma_place(rect, st, data@.len() as int, row as int, col as int);
                let k = base + col;
                vstd::arithmetic::div_mod::lemma_fundamental_div_mod_converse(
                    k,
                    w as int,
                    row as int,
                    col as int,
                );
                assert((rect.y + row) * st >= 0) by (nonlinear_arith)
                    requires
                        st > 0,
                ;
                assert((rect.y + row) * st == rect.place(st, row as int, col as int) - rect.x - col);
                assert(rect.y + row <= (rect.y + row) * st) by (nonlinear_arith)
                    requires
                        st > 0,
                ;
            }
            let v: T = data[(rect.y + row) * stride + rect.x + col];
            out.push(v);
            col = col + 1;
        }
        row = row + 1;
        assert(row * w == base + w) by (nonlinear_arith)
            requires
                base == (row - 1) * w,
        ;
    }
    assert(h * w == w * h) by (nonlinear_arith);
    assert(out@ =~= rect_copy(data@, st, rect));
}

/// Copies a rectangle out of an array.
pub fn copy_rect<T: Copy>(data: &[T], stride: usize, rect: Rect) -> (copy: Vec<T>)
    requires
        rect.fits(stride as int, data@.len() as int),
    ensures
        copy@ == rect_copy(data@, stride as int, rect),
{
    let mut copy: Vec<T> = Vec::new();
    copy_rect_into(data, stride, rect, &mut copy);
    copy
}

/// Puts a copy of a rectangle back.
pub fn paste_rect<T: Copy>(data: &mut Vec<T>, stride: usize, rect: Rect, saved: &[T])
    requires
        rect.fits(stride as int, old(data)@.len() as int),
        saved@.len() == rect.width * rect.height,
    ensures
        final(data)@ == rect_pasted(old(data)@, stride as int, rect, saved@),
{
    let ghost before = data@;
    let (len, saved_len) = (data.len(), saved.len());
    let ghost st = stride as int;
    let ghost goal = rect_pasted(before, st, rect, saved@);
    let (w, h) = (rect.width, rect.height);
    let mut row: usize = 0;
    while row < h
        invariant
            rect.fits(st, before.len() as int),
            st == stride,
            w == rect.width,
            h == rect.height,
            row <= h,
            saved_len == w * h,
            saved@.len() == saved_len,
            data@.len() == len,
            before.len() == len,
            goal == rect_pasted(before, st, rect, saved@),
            forall|i: int|
                0 <= i < before.len() ==> #[trigger] data@[i] == if rect.holds(st, i) && i / st
                    < rect.y + row {
                    goal[i]
                } else {
                    before[i]
                },
        decreases h - row,
    {
        let mut col: usize = 0;
        while col < w
            invariant
                rect.fits(st, before.len() as int),
                st == stride,
                w == rect.width,
                h == rect.height,
                row < h,
                col <= w,
                saved_len == w * h,
                saved@.len() == saved_len,
                data@.len() == len,
                before.len() == len,
                goal == rect_pasted(before, st, rect, saved@),
                forall|i: int|
                    0 <= i < before.len() ==> #[trigger] data@[i] == if rect.holds(st, i) && (i / st
                        < rect.y + row || (i / st == rect.y + row && i % st < rect.x + col)) {
                        goal[i]
                    } else {
                        before[i]
                    },
            decreases w - col,
        {
            let ghost i0 = rect.place(st, row as int, col as int);
            proof {
                lemma_place(rect, st, before.len() as int, row as int, col as int);
                assert(row * w + col < w * h) by (nonlinear_arith)
                    requires
                        row + 1 <= h,
                        col < w,
                ;
                assert((rect.y + row) * st == i0 - rect.x - col);
                assert(rect.y + row <= (rect.y + row) * st) by (nonlinear_arith)
                    requires
                        st > 0,
                ;
                assert(row * w >= 0);
            }
            let v: T = saved[row * w + col];
            data.set((rect.y + row) * stride + rect.x + col, v);
            proof {
                assert forall|i: int| 0 <= i < before.len() implies #[trigger] data@[i]
                    == if rect.holds(st, i) && (i / st < rect.y + row || (i / st == rect.y + row
                    && i % st < rect.x + col + 1)) {
                    goal[i]
                } else {
                    before[i]
                } by {
                    if i != i0 {
                        if i / st == rect.y + row && i % st == rect.x + col {
                            vstd::arithmetic::div_mod::lemma_fundamental_div_mod(i, st);
                            vstd::arithmetic::div_mod::lemma_fundamental_div_mod(i0, st);
                            assert(false);
                        }
                    }
                }
            }
            col = col + 1;
        }
        proof {
            assert forall|i: int| 0 <= i < before.len() implies #[trigger] data@[i]
                == if rect.holds(st, i) && i / st < rect.y + row + 1 {
                goal[i]
            } else {
                before[i]
            } by {}
        }
        row = row + 1;
    }
    assert(data@ =~= goal);
}

/// A pasted copy undoes every change within the rectangle.
pub proof fn law_paste_undoes<T>(before: Seq<T>, changed: Seq<T>, stride: int, rect: Rect)
    requires
        rect.fits(stride, before.len() as int),
        stride > 0,
        changed.len() == before.len(),
        forall|i: int|
            0 <= i < before.len() && !rect.holds(stride, i) ==> #[trigger] changed[i] == before[i],
    ensures
        rect_pasted(changed, stride, rect, rect_copy(before, stride, rect)) == before,
{
    let restored = rect_pasted(changed, stride, rect, rect_copy(before, stride, rect));
    assert forall|i: int| 0 <= i < before.len() implies restored[i] == before[i] by {
        if rect.holds(stride, i) {
            let (r, c) = (i / stride - rect.y, i % stride - rect.x);
            let (w, h) = (rect.width as int, rect.height as int);
            vstd::arithmetic::div_mod::lemma_fundamental_div_mod(i, stride);
            let k = rect.copy_place(stride, i);
            assert(k == r * w + c);
            vstd::arithmetic::div_mod::lemma_fundamental_div_mod_converse(k, w, r, c);
            assert(0 <= k < w * h) by (nonlinear_arith)
                requires
                    k == r * w + c,
                    0 <= r < h,
                    0 <= c < w,
            ;
            assert(rect.place(stride, r, c) == i) by (nonlinear_arith)
                requires
                    i == stride * (i / stride) + i % stride,
                    rect.place(stride, r, c) == (rect.y + r) * stride + rect.x + c,
                    rect.y + r == i / stride,
                    rect.x + c == i % stride,
            ;
        }
    }
    assert(restored =~= before);
}

} // verus!
