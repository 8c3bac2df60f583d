//! Per-pixel running sums of radiance samples, and the merge of two such
//! summaries. The pixel type and its addition are the caller's; the library
//! keeps the shape, the sample count and the protocol.

use vstd::prelude::*;

verus! {

/// A grid of per-pixel sums: `data` has one row per scan line, and every
/// pixel has received `s` samples.
pub struct ImageSummaries<T> {
    pub w: usize,
    pub h: usize,
    pub s: usize,
    pub data: Vec<Vec<T>>,
}

/// The mathematical content of a summary.
pub struct SummaryView<T> {
    pub w: usize,
    pub h: usize,
    pub s: nat,
    pub data: Seq<Seq<T>>,
}

impl<T> View for ImageSummaries<T> {
    type V = SummaryView<T>;

    open spec fn view(&self) -> SummaryView<T> {
        SummaryView { w: self.w, h: self.h, s: self.s as nat, data: self.data@.map_values(|row: Vec<T>| row@) }
    }
}

impl<T: Copy> ImageSummaries<T> {
    /// `h` rows of `w` pixels each.
    pub open spec fn wf(&self) -> bool {
        &&& self.data@.len() == self.h
        &&& forall|i: int| 0 <= i < self.h ==> (#[trigger] self.data@[i])@.len() == self.w
    }

    /// A summary of `w` by `h` pixels, each holding `zero`, with no samples.
    pub fn new(w: usize, h: usize, zero: T) -> (r: Self)
        ensures
            r.wf(),
            r.w == w,
            r.h == h,
            r.s == 0,
            forall|i: int, j: int| 0 <= i < h && 0 <= j < w ==> #[trigger] r@.data[i][j] == zero,
    {
        let mut data: Vec<Vec<T>> = Vec::new();
        let mut i: usize = 0;
        while i < h
            invariant
                i <= h,
                data@.len() == i,
                forall|k: int| 0 <= k < i ==> (#[trigger] data@[k])@.len() == w,
                forall|k: int, j: int| 0 <= k < i && 0 <= j < w ==> #[trigger] data@[k]@[j] == zero,
            decreases h - i,
        {
            let mut row: Vec<T> = Vec::new();
            let mut j: usize = 0;
            while j < w
                invariant
                    j <= w,
                    row@.len() == j,
                    forall|q: int| 0 <= q < j ==> #[trigger] row@[q] == zero,
                decreases w - j,
            {
                row.push(zero);
                j = j + 1;
            }
            data.push(row);
            i = i + 1;
        }
        let r = ImageSummaries { w, h, s: 0, data };
        proof {
            assert forall|i: int, j: int| 0 <= i < h && 0 <= j < w implies #[trigger] r@.data[i][j] == zero by {
                assert(r@.data[i] == r.data@[i]@);
            }
        }
        r
    }

    /// Folds one sample `value` into pixel (`row`, `col`) with `plus`; the
    /// other pixels and the sample count stay as they were.
    pub fn add_sample<F: Fn(T, T) -> T>(&mut self, row: usize, col: usize, value: T, plus: F)
        requires
            old(self).wf(),
            row < old(self).h,
            col < old(self).w,
            plus.requires((old(self)@.data[row as int][col as int], value)),
        ensures
            final(self).wf(),
            final(self).w == old(self).w,
            final(self).h == old(self).h,
            final(self).s == old(self).s,
            plus.ensures(
                (old(self)@.data[row as int][col as int], value),
                final(self)@.data[row as int][col as int],
            ),
            forall|i: int, j: int|
                0 <= i < old(self).h && 0 <= j < old(self).w && (i != row || j != col)
                    ==> #[trigger] final(self)@.data[i][j] == old(self)@.data[i][j],
    {
        let ghost before = self@;
        let ghost before_vec = self.data@;
        let v = plus(self.data[row][col], value);
        let mut line = self.data.remove(row);
        line.set(col, v);
        self.data.insert(row, line);
        proof {
            assert forall|i: int, j: int|
                0 <= i < before.data.len() && 0 <= j < before.w && (i != row || j != col)
                    implies #[trigger] self@.data[i][j] == before.data[i][j] by {
                assert(self@.data[i] == self.data@[i]@);
                if i < row {
                    assert(self.data@[i] == before_vec[i]);
                } else if i > row {
                    assert(self.data@[i] == before_vec[i]);
                }
            }
        }
    }

    /// Closes a pass over the whole frame: every pixel has one more sample.
    pub fn end_pass(&mut self)
        requires
            old(self).s < usize::MAX,
        ensures
            final(self).s == old(self).s + 1,
            final(self).w == old(self).w,
            final(self).h == old(self).h,
            final(self).data@ == old(self).data@,
    {
        self.s = self.s + 1;
    }
}

/// Why two summaries cannot be merged.
#[derive(Clone, Copy, Debug, PartialEq, Eq, Structural)]
pub enum MergeError {
    WidthMismatch { a: usize, b: usize },
    HeightMismatch { a: usize, b: usize },
    RowCountMismatch { a: usize, b: usize },
    RowLengthMismatch { row: usize, a: usize, b: usize },
}

/// Two summaries have equal width, height, number of rows and row lengths.
pub open spec fn same_shape<T>(a: SummaryView<T>, b: SummaryView<T>) -> bool {
    &&& a.w == b.w
    &&& a.h == b.h
    &&& a.data.len() == b.data.len()
    &&& forall|i: int| 0 <= i < a.data.len() ==> #[trigger] a.data[i].len() == b.data[i].len()
}

/// Row `i` is the first whose lengths differ.
pub open spec fn first_bad_row<T>(a: SummaryView<T>, b: SummaryView<T>, i: int) -> bool {
    &&& 0 <= i < a.data.len()
    &&& a.data[i].len() != b.data[i].len()
    &&& forall|k: int| 0 <= k < i ==> #[trigger] a.data[k].len() == b.data[k].len()
}

/// The error reported for two summaries of different shapes: the first
/// difference found, in the order width, height, number of rows, row lengths.
pub open spec fn merge_error<T>(a: SummaryView<T>, b: SummaryView<T>) -> MergeError {
    if a.w != b.w {
        MergeError::WidthMismatch { a: a.w, b: b.w }
    } else if a.h != b.h {
        MergeError::HeightMismatch { a: a.h, b: b.h }
    } else if a.data.len() != b.data.len() {
        MergeError::RowCountMismatch { a: a.data.len() as usize, b: b.data.len() as usize }
    } else {
        let i = choose|i: int| first_bad_row(a, b, i);
        MergeError::RowLengthMismatch {
            row: i as usize,
            a: a.data[i].len() as usize,
            b: b.data[i].len() as usize,
        }
    }
}

/// `m` is a merge of `a` and `b`: their shape, the sum of their sample
/// counts, and at each pixel a value that `plus` returns for the two pixels.
pub open spec fn is_combination<T, F: Fn(T, T) -> T>(
    a: SummaryView<T>,
    b: SummaryView<T>,
    m: SummaryView<T>,
    plus: F,
) -> bool {
    &&& m.w == a.w
    &&& m.h == a.h
    &&& m.s == a.s + b.s
    &&& m.data.len() == a.data.len()
    &&& forall|i: int| 0 <= i < m.data.len() ==> #[trigger] m.data[i].len() == a.data[i].len()
    &&& forall|i: int, j: int|
        0 <= i < m.data.len() && 0 <= j < m.data[i].len() ==> plus.ensures(
            (a.data[i][j], b.data[i][j]),
            #[trigger] m.data[i][j],
        )
}

/// Merges two summaries of the same shape: pixel-wise sums under `plus` and
/// the total sample count. Summaries of different shapes are refused with the
/// first difference found.
pub fn combine_summaries<T: Copy, F: Fn(T, T) -> T>(
    a: &ImageSummaries<T>,
    b: &ImageSummaries<T>,
    plus: F,
) -> (r: Result<ImageSummaries<T>, MergeError>)
    requires
        forall|x: T, y: T| plus.requires((x, y)),
        a.s + b.s <= usize::MAX,
    ensures
        r is Ok <==> same_shape(a@, b@),
        r matches Ok(m) ==> is_combination(a@, b@, m@, plus),
        r matches Err(e) ==> e == merge_error(a@, b@),
{
    if a.w != b.w {
        return Err(MergeError::WidthMismatch { a: a.w, b: b.w });
    }
    if a.h != b.h {
        return Err(MergeError::HeightMismatch { a: a.h, b: b.h });
    }
    if a.data.len() != b.data.len() {
        return Err(MergeError::RowCountMismatch { a: a.data.len(), b: b.data.len() });
    }
    let mut result: Vec<Vec<T>> = Vec::new();
    let mut i: usize = 0;
    while i < a.data.len()
        invariant
            i <= a.data@.len() == b.data@.len(),
            a.w == b.w,
            a.h == b.h,
            forall|x: T, y: T| plus.requires((x, y)),
            result@.len() == i,
            forall|k: int| 0 <= k < i ==> #[trigger] a@.data[k].len() == b@.data[k].len(),
            forall|k: int| 0 <= k < i ==> #[trigger] result@[k]@.len() == a@.data[k].len(),
            forall|k: int, j: int|
                0 <= k < i && 0 <= j < result@[k]@.len() ==> plus.ensures(
                    (a@.data[k][j], b@.data[k][j]),
                    #[trigger] result@[k]@[j],
                ),
        decreases a.data@.len() - i,
    {
        let row_a = &a.data[i];
        let row_b = &b.data[i];
        if row_a.len() != row_b.len() {
            proof {
                assert(first_bad_row(a@, b@, i as int));
                assert forall|q: int| first_bad_row(a@, b@, q) implies q == i by {
                    if q < i {
                        assert(a@.data[q].len() == b@.data[q].len());
                    }
                    if q > i {
                        assert(a@.data[i as int].len() == b@.data[i as int].len());
                    }
                }
            }
            return Err(MergeError::RowLengthMismatch { row: i, a: row_a.len(), b: row_b.len() });
        }
        let mut row: Vec<T> = Vec::new();
        let mut j: usize = 0;
        while j < row_a.len()
            invariant
                j <= row_a@.len() == row_b@.len(),
                row_a@ == a@.data[i as int],
                row_b@ == b@.data[i as int],
                forall|x: T, y: T| plus.requires((x, y)),
                row@.len() == j,
                forall|q: int| 0 <= q < j ==> plus.ensures((row_a@[q], row_b@[q]), #[trigger] row@[q]),
            decreases row_a@.len() - j,
        {
            let v = plus(row_a[j], row_b[j]);
            row.push(v);
            j = j + 1;
        }
        result.push(row);
        i = i + 1;
    }
    let m = ImageSummaries { w: a.w, h: a.h, s: a.s + b.s, data: result };
    proof {
        assert(same_shape(a@, b@));
        assert forall|k: int| 0 <= k < m@.data.len() implies #[trigger] m@.data[k].len() == a@.data[k].len() by {
            assert(m@.data[k] == m.data@[k]@);
        }
        assert forall|k: int, j: int| 0 <= k < m@.data.len() && 0 <= j < m@.data[k].len() implies plus.ensures(
            (a@.data[k][j], b@.data[k][j]),
            #[trigger] m@.data[k][j],
        ) by {
            assert(m@.data[k] == m.data@[k]@);
        }
    }
    Ok(m)
}

/// The pixel addition `plus`, as seen through its postcondition, is a
/// function, commutative and associative.
pub open spec fn plus_is_exact<T, F: Fn(T, T) -> T>(plus: F) -> bool {
    &&& forall|x: T, y: T, z1: T, z2: T|
        #![trigger plus.ensures((x, y), z1), plus.ensures((x, y), z2)]
        plus.ensures((x, y), z1) && plus.ensures((x, y), z2) ==> z1 == z2
    &&& forall|x: T, y: T, z: T| #[trigger] plus.ensures((x, y), z) ==> plus.ensures((y, x), z)
    &&& forall|x: T, y: T, z: T, xy: T, yz: T, r1: T, r2: T|
        #![trigger plus.ensures((x, y), xy), plus.ensures((xy, z), r1), plus.ensures((x, yz), r2), plus.ensures((y, z), yz)]
        plus.ensures((x, y), xy) && plus.ensures((xy, z), r1) && plus.ensures((y, z), yz)
            && plus.ensures((x, yz), r2) ==> r1 == r2
}

/// Merging is associative and commutative: for three summaries of one shape,
/// merging A with B and then with C, A with the merge of B and C, and A with
/// C and then with B give the same summary, whose sample count is the sum of
/// the three counts. This holds where the pixel addition is itself exact;
/// floating-point sums agree only up to rounding.
pub proof fn lemma_combine_associative_commutative<T, F: Fn(T, T) -> T>(
    plus: F,
    a: SummaryView<T>,
    b: SummaryView<T>,
    c: SummaryView<T>,
    ab: SummaryView<T>,
    bc: SummaryView<T>,
    ac: SummaryView<T>,
    ab_c: SummaryView<T>,
    a_bc: SummaryView<T>,
    ac_b: SummaryView<T>,
)
    requires
        same_shape(a, b),
        same_shape(b, c),
        plus_is_exact(plus),
        is_combination(a, b, ab, plus),
        is_combination(ab, c, ab_c, plus),
        is_combination(b, c, bc, plus),
        is_combination(a, bc, a_bc, plus),
        is_combination(a, c, ac, plus),
        is_combination(ac, b, ac_b, plus),
    ensures
        ab_c == a_bc,
        ab_c == ac_b,
        ab_c.s == a.s + b.s + c.s,
{
    assert forall|i: int| 0 <= i < ab_c.data.len() implies ab_c.data[i] =~= a_bc.data[i] && ab_c.data[i]
        =~= ac_b.data[i] by {
        assert(ab_c.data[i].len() == a.data[i].len());
        assert(a_bc.data[i].len() == a.data[i].len());
        assert(ac_b.data[i].len() == a.data[i].len());
        assert forall|j: int| 0 <= j < ab_c.data[i].len() implies ab_c.data[i][j] == a_bc.data[i][j]
            && ab_c.data[i][j] == ac_b.data[i][j] by {
            let (x, y, z) = (a.data[i][j], b.data[i][j], c.data[i][j]);
            assert(plus.ensures((x, y), ab.data[i][j]));
            assert(plus.ensures((ab.data[i][j], z), ab_c.data[i][j]));
            assert(plus.ensures((y, z), bc.data[i][j]));
            assert(plus.ensures((x, bc.data[i][j]), a_bc.data[i][j]));
            assert(plus.ensures((x, z), ac.data[i][j]));
            assert(plus.ensures((ac.data[i][j], y), ac_b.data[i][j]));
            assert(plus.ensures((z, y), bc.data[i][j]));
        }
    }
    assert(ab_c.data =~= a_bc.data);
    assert(ab_c.data =~= ac_b.data);
}

} // verus!
