//! Dense 2-D image planes (row-major, no padding, stride == width).

use vstd::prelude::*;

pub mod gray;
pub mod resize;
pub mod decode;

verus! {

/// `y * w + x < w * h` for a pixel inside a `w x h` plane.
pub proof fn lemma_pixel_index(x: int, y: int, w: int, h: int)
    requires
        0 <= x < w,
        0 <= y < h,
    ensures
        0 <= y * w + x < w * h,
        y * w + x + 1 <= w * h,
        (y + 1) * w <= w * h,
        0 <= y * w,
{
    assert(y * w + x < w * h) by (nonlinear_arith)
        requires 0 <= x < w, 0 <= y < h;
    assert((y + 1) * w <= w * h) by (nonlinear_arith)
        requires 0 <= x < w, 0 <= y < h;
    assert(0 <= y * w) by (nonlinear_arith)
        requires 0 <= x < w, 0 <= y < h;
}

/// Row `y` of a `w x h` plane lies inside its `w * h` elements.
pub proof fn lemma_row_bounds(y: int, w: int, h: int)
    requires
        0 <= y < h,
        0 <= w,
    ensures
        0 <= y * w,
        (y + 1) * w == y * w + w,
        y * w + w <= w * h,
{
    assert((y + 1) * w == y * w + w) by (nonlinear_arith);
    assert(y * w + w <= w * h) by (nonlinear_arith)
        requires 0 <= y < h, 0 <= w;
    assert(0 <= y * w) by (nonlinear_arith)
        requires 0 <= y < h, 0 <= w;
}

/// A dense 2-D plane with `w * h` elements, row-major, stride == width.
#[derive(Clone, Debug, PartialEq, Eq, Default)]
pub struct Plane<T> {
    pub w: usize,
    pub h: usize,
    pub data: Vec<T>,
}

/// The sequence of `n` copies of `v`.
pub open spec fn repeat<T>(v: T, n: nat) -> Seq<T> {
    Seq::new(n, |i: int| v)
}

impl<T> Plane<T> {
    /// The plane holds exactly `w * h` elements.
    pub open spec fn wf(&self) -> bool {
        self.data.len() == self.w * self.h
    }

    /// Index of pixel `(x, y)` in `data`.
    pub open spec fn idx(&self, x: int, y: int) -> int {
        y * self.w + x
    }

    /// Pixel `(x, y)`.
    pub open spec fn pix(&self, x: int, y: int) -> T {
        self.data@[y * self.w + x]
    }

    /// Row `y` as a sequence.
    pub open spec fn row_seq(&self, y: int) -> Seq<T> {
        self.data@.subrange(y * self.w, (y + 1) * self.w)
    }
}

/// A vector of `n` copies of `v`.
pub fn vec_filled<T: Copy>(n: usize, v: T) -> (out: Vec<T>)
    ensures
        out@ == repeat(v, n as nat),
{
    let mut out: Vec<T> = Vec::with_capacity(n);
    let mut i: usize = 0;
    while i < n
        invariant
            i <= n,
            out@ == repeat(v, i as nat),
        decreases n - i,
    {
        out.push(v);
        i = i + 1;
        assert(out@ =~= repeat(v, i as nat));
    }
    out
}

impl<T: Copy + Default> Plane<T> {
    /// A `w x h` plane filled with `T::default()`.
    pub fn new(w: usize, h: usize) -> (p: Self)
        requires
            w * h <= usize::MAX,
        ensures
            p.w == w,
            p.h == h,
            p.wf(),
            forall|i: int| 0 <= i < w * h ==> call_ensures(T::default, (), #[trigger] p.data@[i]),
            forall|i: int| 0 <= i < w * h ==> #[trigger] p.data@[i] == p.data@[0],
    {
        let d = T::default();
        Plane { w, h, data: vec_filled(w * h, d) }
    }

    /// A `w x h` plane filled with `v`.
    pub fn filled(w: usize, h: usize, v: T) -> (p: Self)
        requires
            w * h <= usize::MAX,
        ensures
            p.w == w,
            p.h == h,
            p.data@ == repeat(v, (w * h) as nat),
    {
        Plane { w, h, data: vec_filled(w * h, v) }
    }

    /// A plane over existing row-major data of length `w * h`.
    pub fn from_vec(w: usize, h: usize, data: Vec<T>) -> (p: Self)
        requires
            data@.len() == w * h,
        ensures
            p.w == w,
            p.h == h,
            p.data@ == data@,
    {
        Plane { w, h, data }
    }

    /// Set every element to `v`, keeping the dimensions.
    pub fn fill(&mut self, v: T)
        ensures
            final(self).w == old(self).w,
            final(self).h == old(self).h,
            final(self).data@ == repeat(v, old(self).data@.len()),
    {
        let n = self.data.len();
        let mut i: usize = 0;
        while i < n
            invariant
                i <= n,
                n == self.data@.len(),
                self.w == old(self).w,
                self.h == old(self).h,
                forall|k: int| 0 <= k < i ==> self.data@[k] == v,
            decreases n - i,
        {
            self.data.set(i, v);
            i = i + 1;
        }
        assert(self.data@ =~= repeat(v, old(self).data@.len()));
    }

    /// Re-dimension to `w x h`, every element `v`.
    pub fn reset(&mut self, w: usize, h: usize, v: T)
        requires
            w * h <= usize::MAX,
        ensures
            final(self).w == w,
            final(self).h == h,
            final(self).data@ == repeat(v, (w * h) as nat),
    {
        self.w = w;
        self.h = h;
        self.data.clear();
        let n = w * h;
        let mut i: usize = 0;
        while i < n
            invariant
                i <= n,
                self.w == w,
                self.h == h,
                self.data@ == repeat(v, i as nat),
            decreases n - i,
        {
            self.data.push(v);
            i = i + 1;
            assert(self.data@ =~= repeat(v, i as nat));
        }
    }

    /// Pixel `(x, y)`.
    pub fn at(&self, x: usize, y: usize) -> (v: T)
        requires
            self.wf(),
            x < self.w,
            y < self.h,
        ensures
            v == self.pix(x as int, y as int),
    {
        proof {
            lemma_pixel_index(x as int, y as int, self.w as int, self.h as int);
        }
        self.data[y * self.w + x]
    }

    /// Write pixel `(x, y)`.
    pub fn set(&mut self, x: usize, y: usize, v: T)
        requires
            old(self).wf(),
            x < old(self).w,
            y < old(self).h,
        ensures
            final(self).w == old(self).w,
            final(self).h == old(self).h,
            final(self).data@ == old(self).data@.update(old(self).idx(x as int, y as int), v),
    {
        proof {
            lemma_pixel_index(x as int, y as int, self.w as int, self.h as int);
        }
        let i = y * self.w + x;
        self.data.set(i, v);
    }

    /// Row `y`.
    pub fn row(&self, y: usize) -> (r: &[T])
        requires
            self.wf(),
            y < self.h,
        ensures
            r@ == self.row_seq(y as int),
    {
        proof {
            lemma_row_bounds(y as int, self.w as int, self.h as int);
        }
        let a = y * self.w;
        let b = a + self.w;
        &self.data.as_slice()[a..b]
    }

    /// Row `y`, writable.
    pub fn row_mut(&mut self, y: usize) -> (r: &mut [T])
        requires
            old(self).wf(),
            y < old(self).h,
        ensures
            r@ == old(self).row_seq(y as int),
            final(self).w == old(self).w,
            final(self).h == old(self).h,
            final(self).data@ == old(self).data@.subrange(0, y * old(self).w) + final(r)@
                + old(self).data@.subrange((y + 1) * old(self).w, old(self).data@.len() as int),
    {
        proof {
            lemma_row_bounds(y as int, self.w as int, self.h as int);
        }
        let a = y * self.w;
        let w = self.w;
        let (_head, rest) = self.data.as_mut_slice().split_at_mut(a);
        let (mid, _tail) = rest.split_at_mut(w);
        proof {
            assert(mid@ =~= old(self).row_seq(y as int));
        }
        mid
    }
}

/// Gray image.
pub type GrayImage = Plane<u8>;

/// Plane of signed 16-bit derivatives.
pub type I16Plane = Plane<i16>;

} // verus!
