//! Dense two- and three-dimensional boolean tables, used as scratch state by
//! the search: the path-state table of the approximate filter (`Vec3`) and
//! the visited mask of the exact search (`Vec2`).
//!
//! Storage is a `smallvec::SmallVec`, so boards of ordinary size live on the
//! stack; the index arithmetic around it is verified.

use vstd::prelude::*;

verus! {

/// Flat storage of a path-state table: a `smallvec::SmallVec` whose inline
/// capacity covers a 20-letter word on an 8×8 board. Opaque to the
/// verifier; its contents are only reached through the wrappers below.
#[verifier::external_body]
#[derive(Debug)]
pub struct TableBuf {
    data: smallvec::SmallVec<[bool; 2048]>,
}

/// Flat storage of a visited mask: a `smallvec::SmallVec` whose inline
/// capacity covers an 8×8 board. Opaque to the verifier; its contents are
/// only reached through the wrappers below.
#[verifier::external_body]
#[derive(Debug)]
pub struct MaskBuf {
    data: smallvec::SmallVec<[bool; 64]>,
}

/// The elements a path-state buffer holds, in order.
pub uninterp spec fn table_data(v: TableBuf) -> Seq<bool>;

/// The elements a visited-mask buffer holds, in order.
pub uninterp spec fn mask_data(v: MaskBuf) -> Seq<bool>;

/// Relies on smallvec::SmallVec::from_elem: `n` copies of `elem`.
/// A length in bytes above isize::MAX would make the allocation panic.
#[verifier::external_body]
fn table_fill(n: usize, value: bool) -> (r: TableBuf)
    requires
        n <= isize::MAX,
    ensures
        table_data(r).len() == n,
        forall|i: int| 0 <= i < n ==> table_data(r)[i] == value,
{
    TableBuf { data: smallvec::SmallVec::from_elem(value, n) }
}

/// Relies on smallvec's Index impl, which indexes the elements as a slice.
#[verifier::external_body]
fn table_get(v: &TableBuf, i: usize) -> (r: bool)
    requires
        i < table_data(*v).len(),
    ensures
        r == table_data(*v)[i as int],
{
    v.data[i]
}

/// Relies on smallvec's IndexMut impl, which indexes the elements as a slice.
#[verifier::external_body]
fn table_set(v: &mut TableBuf, i: usize, value: bool)
    requires
        i < table_data(*old(v)).len(),
    ensures
        table_data(*final(v)) == table_data(*old(v)).update(i as int, value),
{
    v.data[i] = value;
}

/// Relies on smallvec::SmallVec::from_elem: `n` copies of `elem`.
/// A length in bytes above isize::MAX would make the allocation panic.
#[verifier::external_body]
fn mask_fill(n: usize, value: bool) -> (r: MaskBuf)
    requires
        n <= isize::MAX,
    ensures
        mask_data(r).len() == n,
        forall|i: int| 0 <= i < n ==> mask_data(r)[i] == value,
{
    MaskBuf { data: smallvec::SmallVec::from_elem(value, n) }
}

/// Relies on smallvec's Index impl, which indexes the elements as a slice.
#[verifier::external_body]
fn mask_get(v: &MaskBuf, i: usize) -> (r: bool)
    requires
        i < mask_data(*v).len(),
    ensures
        r == mask_data(*v)[i as int],
{
    v.data[i]
}

/// Relies on smallvec's IndexMut impl, which indexes the elements as a slice.
#[verifier::external_body]
fn mask_set(v: &mut MaskBuf, i: usize, value: bool)
    requires
        i < mask_data(*old(v)).len(),
    ensures
        mask_data(*final(v)) == mask_data(*old(v)).update(i as int, value),
{
    v.data[i] = value;
}

/// A three-dimensional boolean table, indexed by `(x, y, z)` with
/// `x < width`, `y < height`, `z < depth`, stored flat.
#[derive(Debug)]
pub struct Vec3 {
    height: usize,
    depth: usize,
    width: usize,
    data: TableBuf,
}

/// If two flat indices `a * w + x` agree and both `x` offsets are below `w`,
/// the quotients and remainders agree.
proof fn lemma_flat_split(a1: int, x1: int, a2: int, x2: int, w: int)
    requires
        0 <= x1 < w,
        0 <= x2 < w,
        a1 * w + x1 == a2 * w + x2,
        0 <= a1,
        0 <= a2,
    ensures
        a1 == a2,
        x1 == x2,
{
    assert(a1 == a2 && x1 == x2) by (nonlinear_arith)
        requires
            0 <= x1 < w,
            0 <= x2 < w,
            a1 * w + x1 == a2 * w + x2,
            0 <= a1,
            0 <= a2,
    ;
}

impl Vec3 {
    /// The `width` the table was made with.
    pub closed spec fn spec_width(self) -> int {
        self.width as int
    }

    /// The `height` the table was made with.
    pub closed spec fn spec_height(self) -> int {
        self.height as int
    }

    /// The `depth` the table was made with.
    pub closed spec fn spec_depth(self) -> int {
        self.depth as int
    }

    /// The storage holds exactly one element per coordinate, and the
    /// element count fits the machine word.
    pub closed spec fn wf(self) -> bool {
        table_data(self.data).len() == self.width * self.height * self.depth
            && self.width * self.height * self.depth <= usize::MAX
    }

    /// The element at `(x, y, z)`.
    pub closed spec fn spec_get(self, x: int, y: int, z: int) -> bool {
        table_data(self.data)[(z * self.height + y) * self.width + x]
    }

    /// The flat position of `(x, y, z)` lies inside the table.
    proof fn lemma_idx_bounds(self, x: int, y: int, z: int)
        requires
            self.wf(),
            0 <= x < self.spec_width(),
            0 <= y < self.spec_height(),
            0 <= z < self.spec_depth(),
        ensures
            0 <= z * self.spec_height() + y,
            z * self.spec_height() + y < self.spec_height() * self.spec_depth(),
            self.spec_height() * self.spec_depth() <= self.spec_width() * self.spec_height()
                * self.spec_depth(),
            (z * self.spec_height() + y) * self.spec_width() + x < self.spec_width()
                * self.spec_height() * self.spec_depth(),
            0 <= (z * self.spec_height() + y) * self.spec_width(),
    {
        let w = self.spec_width();
        let h = self.spec_height();
        let d = self.spec_depth();
        assert(0 <= z * h + y && z * h + y < h * d && h * d <= w * h * d && (z * h + y) * w + x
            < w * h * d && 0 <= (z * h + y) * w) by (nonlinear_arith)
            requires
                0 <= x < w,
                0 <= y < h,
                0 <= z < d,
        ;
    }

    /// A table of the given dimensions with every element equal to `value`.
    /// The element count must fit in the allocator's limit.
    pub fn fill(width: usize, height: usize, depth: usize, value: bool) -> (r: Vec3)
        requires
            width * height <= isize::MAX,
            width * height * depth <= isize::MAX,
        ensures
            r.wf(),
            r.spec_width() == width,
            r.spec_height() == height,
            r.spec_depth() == depth,
            forall|x: int, y: int, z: int|
                0 <= x < width && 0 <= y < height && 0 <= z < depth ==> r.spec_get(x, y, z)
                    == value,
    {
        let wh = width * height;
        proof {
            assert(wh * depth == width * height * depth && 0 <= wh * depth) by (nonlinear_arith)
                requires
                    wh == width * height,
                    0 <= wh,
                    0 <= depth,
            ;
        }
        let n = wh * depth;
        let data = table_fill(n, value);
        let r = Vec3 { width, height, depth, data };
        proof {
            assert forall|x: int, y: int, z: int|
                0 <= x < width && 0 <= y < height && 0 <= z < depth implies r.spec_get(x, y, z)
                == value by {
                r.lemma_idx_bounds(x, y, z);
            }
        }
        r
    }

    /// The element at `idx = (x, y, z)`.
    pub fn get(&self, idx: (usize, usize, usize)) -> (r: bool)
        requires
            self.wf(),
            idx.0 < self.spec_width(),
            idx.1 < self.spec_height(),
            idx.2 < self.spec_depth(),
        ensures
            r == self.spec_get(idx.0 as int, idx.1 as int, idx.2 as int),
    {
        let (x, y, z) = idx;
        proof {
            self.lemma_idx_bounds(x as int, y as int, z as int);
        }
        let i = (z * self.height + y) * self.width + x;
        table_get(&self.data, i)
    }

    /// Replaces the element at `idx = (x, y, z)`; everything else is kept.
    pub fn set(&mut self, idx: (usize, usize, usize), value: bool)
        requires
            old(self).wf(),
            idx.0 < old(self).spec_width(),
            idx.1 < old(self).spec_height(),
            idx.2 < old(self).spec_depth(),
        ensures
            final(self).wf(),
            final(self).spec_width() == old(self).spec_width(),
            final(self).spec_height() == old(self).spec_height(),
            final(self).spec_depth() == old(self).spec_depth(),
            final(self).spec_get(idx.0 as int, idx.1 as int, idx.2 as int) == value,
            forall|x: int, y: int, z: int|
                0 <= x < old(self).spec_width() && 0 <= y < old(self).spec_height() && 0 <= z
                    < old(self).spec_depth() && (x, y, z) != (idx.0 as int, idx.1 as int, idx.2 as int)
                    ==> final(self).spec_get(x, y, z) == old(self).spec_get(x, y, z),
    {
        let (x, y, z) = idx;
        proof {
            self.lemma_idx_bounds(x as int, y as int, z as int);
        }
        let ghost prev = *self;
        let i = (z * self.height + y) * self.width + x;
        table_set(&mut self.data, i, value);
        proof {
            assert forall|x2: int, y2: int, z2: int|
                0 <= x2 < prev.spec_width() && 0 <= y2 < prev.spec_height() && 0 <= z2
                    < prev.spec_depth() && (x2, y2, z2) != (x as int, y as int, z as int) implies
                self.spec_get(x2, y2, z2) == prev.spec_get(x2, y2, z2) by {
                prev.lemma_idx_bounds(x2, y2, z2);
                if (z2 * prev.spec_height() + y2) * prev.spec_width() + x2 == i {
                    lemma_flat_split(
                        z2 * prev.spec_height() + y2,
                        x2,
                        (z as int) * prev.spec_height() + (y as int),
                        x as int,
                        prev.spec_width(),
                    );
                    lemma_flat_split(z2, y2, z as int, y as int, prev.spec_height());
                }
            }
        }
    }
}

/// A two-dimensional boolean grid, indexed by `(x, y)` with `x < width`,
/// `y < height`, stored flat.
#[derive(Debug)]
pub struct Vec2 {
    height: usize,
    width: usize,
    data: MaskBuf,
}

impl Vec2 {
    /// The `width` the grid was made with.
    pub closed spec fn spec_width(self) -> int {
        self.width as int
    }

    /// The `height` the grid was made with.
    pub closed spec fn spec_height(self) -> int {
        self.height as int
    }

    /// The storage holds exactly one element per coordinate, and the
    /// element count fits the machine word.
    pub closed spec fn wf(self) -> bool {
        mask_data(self.data).len() == self.width * self.height
            && self.width * self.height <= usize::MAX
    }

    /// The element at `(x, y)`.
    pub closed spec fn spec_get(self, x: int, y: int) -> bool {
        mask_data(self.data)[y * self.width + x]
    }

    /// The flat position of `(x, y)` lies inside the grid.
    proof fn lemma_idx_bounds(self, x: int, y: int)
        requires
            self.wf(),
            0 <= x < self.spec_width(),
            0 <= y < self.spec_height(),
        ensures
            0 <= y * self.spec_width(),
            y * self.spec_width() + x < self.spec_width() * self.spec_height(),
    {
        let w = self.spec_width();
        let h = self.spec_height();
        assert(0 <= y * w && y * w + x < w * h) by (nonlinear_arith)
            requires
                0 <= x < w,
                0 <= y < h,
        ;
    }

    /// A grid of the given dimensions with every element equal to `value`.
    /// The element count must fit in the allocator's limit.
    pub fn fill(width: usize, height: usize, value: bool) -> (r: Vec2)
        requires
            width * height <= isize::MAX,
        ensures
            r.wf(),
            r.spec_width() == width,
            r.spec_height() == height,
            forall|x: int, y: int|
                0 <= x < width && 0 <= y < height ==> r.spec_get(x, y) == value,
    {
        let n = width * height;
        let data = mask_fill(n, value);
        let r = Vec2 { width, height, data };
        proof {
            assert forall|x: int, y: int| 0 <= x < width && 0 <= y < height implies r.spec_get(
                x,
                y,
            ) == value by {
                r.lemma_idx_bounds(x, y);
            }
        }
        r
    }

    /// The element at `idx = (x, y)`.
    pub fn get(&self, idx: (usize, usize)) -> (r: bool)
        requires
            self.wf(),
            idx.0 < self.spec_width(),
            idx.1 < self.spec_height(),
        ensures
            r == self.spec_get(idx.0 as int, idx.1 as int),
    {
        let (x, y) = idx;
        proof {
            self.lemma_idx_bounds(x as int, y as int);
        }
        let i = y * self.width + x;
        mask_get(&self.data, i)
    }

    /// Replaces the element at `idx = (x, y)`; everything else is kept.
    pub fn set(&mut self, idx: (usize, usize), value: bool)
        requires
            old(self).wf(),
            idx.0 < old(self).spec_width(),
            idx.1 < old(self).spec_height(),
        ensures
            final(self).wf(),
            final(self).spec_width() == old(self).spec_width(),
            final(self).spec_height() == old(self).spec_height(),
            final(self).spec_get(idx.0 as int, idx.1 as int) == value,
            forall|x: int, y: int|
                0 <= x < old(self).spec_width() && 0 <= y < old(self).spec_height() && (x, y) != (
                    idx.0 as int,
                    idx.1 as int,
                ) ==> final(self).spec_get(x, y) == old(self).spec_get(x, y),
    {
        let (x, y) = idx;
        proof {
            self.lemma_idx_bounds(x as int, y as int);
        }
        let ghost prev = *self;
        let i = y * self.width + x;
        mask_set(&mut self.data, i, value);
        proof {
            assert forall|x2: int, y2: int|
                0 <= x2 < prev.spec_width() && 0 <= y2 < prev.spec_height() && (x2, y2) != (
                    x as int,
                    y as int,
                ) implies self.spec_get(x2, y2) == prev.spec_get(x2, y2) by {
                prev.lemma_idx_bounds(x2, y2);
                if y2 * prev.spec_width() + x2 == i {
                    lemma_flat_split(y2, x2, y as int, x as int, prev.spec_width());
                }
            }
        }
    }
}

} // verus!
