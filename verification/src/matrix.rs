//! A square matrix of signed integers, stored row-major in a fixed-length
//! buffer, and its sections: equal, contiguous runs of the buffer that can be
//! handed out one by one and written back.

use vstd::prelude::*;

verus! {

/// Whether `v` can be stored in an `i32`.
pub open spec fn fits_i32(v: int) -> bool {
    i32::MIN <= v <= i32::MAX
}

/// The sum of the first `k` products `a[row, j] * b[j, col]` of two
/// `side` x `side` matrices stored row by row.
pub open spec fn dot(a: Seq<i32>, b: Seq<i32>, side: int, row: int, col: int, k: int) -> int
    decreases k,
{
    if k <= 0 {
        0
    } else {
        dot(a, b, side, row, col, k - 1) + a[row * side + (k - 1)] * b[(k - 1) * side + col]
    }
}

/// The number of the matrix product `a * b` that belongs at linear offset
/// `offset` of the result: row `offset / side`, column `offset % side`.
pub open spec fn product_cell(a: Seq<i32>, b: Seq<i32>, side: int, offset: int) -> int {
    dot(a, b, side, offset / side, offset % side, side)
}

/// What tap `(k, l)` of a `kside` x `kside` kernel centred on `(row, col)`
/// adds: the number of `a` under the tap times the tap, or nothing where the
/// tap lies outside `a`.
pub open spec fn tap(
    a: Seq<i32>,
    kernel: Seq<i32>,
    side: int,
    kside: int,
    row: int,
    col: int,
    k: int,
    l: int,
) -> int {
    let radius = (kside - 1) / 2;
    let y = row + k - radius;
    let x = col + l - radius;
    if 0 <= y < side && 0 <= x < side {
        a[y * side + x] * kernel[k * kside + l]
    } else {
        0
    }
}

/// The sum of the first `l` taps of kernel row `k`.
pub open spec fn tap_row(
    a: Seq<i32>,
    kernel: Seq<i32>,
    side: int,
    kside: int,
    row: int,
    col: int,
    k: int,
    l: int,
) -> int
    decreases l,
{
    if l <= 0 {
        0
    } else {
        tap_row(a, kernel, side, kside, row, col, k, l - 1) + tap(
            a,
            kernel,
            side,
            kside,
            row,
            col,
            k,
            l - 1,
        )
    }
}

/// The sum of all taps of the first `k` kernel rows.
pub open spec fn taps(
    a: Seq<i32>,
    kernel: Seq<i32>,
    side: int,
    kside: int,
    row: int,
    col: int,
    k: int,
) -> int
    decreases k,
{
    if k <= 0 {
        0
    } else {
        taps(a, kernel, side, kside, row, col, k - 1) + tap_row(
            a,
            kernel,
            side,
            kside,
            row,
            col,
            k - 1,
            kside,
        )
    }
}

/// The number that the convolution of `a` with `kernel` puts at linear
/// offset `offset`: every tap of the kernel, centred on row `offset / side`
/// and column `offset % side`, with zero beyond the border of `a`.
pub open spec fn convolution_cell(
    a: Seq<i32>,
    kernel: Seq<i32>,
    side: int,
    kside: int,
    offset: int,
) -> int {
    taps(a, kernel, side, kside, offset / side, offset % side, kside)
}

/// A tap that lies beyond the border of `a` adds nothing; a tap that lies
/// on `a` adds the number under it times the tap. So the sum for a number at
/// the border is the sum of the full window less the taps that lie outside.
pub proof fn lemma_taps_beyond_the_border_add_nothing(
    a: Seq<i32>,
    kernel: Seq<i32>,
    side: int,
    kside: int,
    row: int,
    col: int,
    k: int,
    l: int,
)
    ensures
        row + k - (kside - 1) / 2 < 0 || row + k - (kside - 1) / 2 >= side ==> tap(
            a,
            kernel,
            side,
            kside,
            row,
            col,
            k,
            l,
        ) == 0,
        col + l - (kside - 1) / 2 < 0 || col + l - (kside - 1) / 2 >= side ==> tap(
            a,
            kernel,
            side,
            kside,
            row,
            col,
            k,
            l,
        ) == 0,
        0 <= row + k - (kside - 1) / 2 < side && 0 <= col + l - (kside - 1) / 2 < side ==> tap(
            a,
            kernel,
            side,
            kside,
            row,
            col,
            k,
            l,
        ) == a[(row + k - (kside - 1) / 2) * side + (col + l - (kside - 1) / 2)] * kernel[k
            * kside + l],
{
}

/// Section `k` of a buffer cut into sections of `section_size` numbers.
pub open spec fn section_of(data: Seq<i32>, section_size: int, k: int) -> Seq<i32> {
    data.subrange(k * section_size, (k + 1) * section_size)
}

/// The buffer `data` with its section `k` replaced by `part`.
pub open spec fn with_section(data: Seq<i32>, section_size: int, k: int, part: Seq<i32>) -> Seq<
    i32,
> {
    Seq::new(
        data.len(),
        |j: int|
            if k * section_size <= j < (k + 1) * section_size {
                part[j - k * section_size]
            } else {
                data[j]
            },
    )
}

/// The offset in the buffer of number `i` of section `k`.
pub open spec fn offset_in_buffer(section_size: int, k: int, i: int) -> int {
    k * section_size + i
}

/// The section that holds offset `j` of the buffer.
pub open spec fn section_holding(section_size: int, j: int) -> int {
    j / section_size
}

/// The place of offset `j` of the buffer inside its section.
pub open spec fn place_in_section(section_size: int, j: int) -> int {
    j % section_size
}

/// Sections of `section_size` numbers, `n_sections` of them, cover a buffer
/// of `section_size * n_sections` numbers exactly once. Every place of every
/// section is an offset of the buffer; every offset of the buffer is one
/// place of one section, which holds the buffer's number; and no two
/// places, of one section or of two, share an offset.
pub proof fn lemma_sections_cover_exactly_once(data: Seq<i32>, section_size: nat, n_sections: nat)
    requires
        data.len() == section_size * n_sections,
    ensures
        forall|k: int, i: int|
            0 <= k < n_sections && 0 <= i < section_size ==> 0 <= #[trigger] offset_in_buffer(
                section_size as int,
                k,
                i,
            ) < data.len(),
        forall|j: int|
            0 <= j < data.len() ==> {
                &&& 0 <= #[trigger] section_holding(section_size as int, j) < n_sections
                &&& 0 <= place_in_section(section_size as int, j) < section_size
                &&& offset_in_buffer(
                    section_size as int,
                    section_holding(section_size as int, j),
                    place_in_section(section_size as int, j),
                ) == j
                &&& section_of(data, section_size as int, section_holding(section_size as int, j))[
                    place_in_section(section_size as int, j)
                ] == data[j]
            },
        forall|k1: int, i1: int, k2: int, i2: int|
            0 <= k1 < n_sections && 0 <= i1 < section_size && 0 <= k2 < n_sections && 0 <= i2
                < section_size && #[trigger] offset_in_buffer(section_size as int, k1, i1)
                == #[trigger] offset_in_buffer(section_size as int, k2, i2) ==> k1 == k2 && i1
                == i2,
{
    let ss = section_size as int;
    let n = n_sections as int;
    assert forall|k: int, i: int| 0 <= k < n && 0 <= i < ss implies 0
        <= #[trigger] offset_in_buffer(ss, k, i) < data.len() by {
        lemma_offset_in_range(ss, n, k, i);
    }
    assert forall|j: int| 0 <= j < data.len() implies {
        &&& 0 <= #[trigger] section_holding(ss, j) < n
        &&& 0 <= place_in_section(ss, j) < ss
        &&& offset_in_buffer(ss, section_holding(ss, j), place_in_section(ss, j)) == j
        &&& section_of(data, ss, section_holding(ss, j))[place_in_section(ss, j)] == data[j]
    } by {
        lemma_place_of_offset(ss, n, j);
        let k = j / ss;
        assert((k + 1) * ss == k * ss + ss) by (nonlinear_arith);
        lemma_offset_in_range(ss, n, k, j % ss);
    }
    assert forall|k1: int, i1: int, k2: int, i2: int|
        0 <= k1 < n && 0 <= i1 < ss && 0 <= k2 < n && 0 <= i2 < ss && #[trigger] offset_in_buffer(
            ss,
            k1,
            i1,
        ) == #[trigger] offset_in_buffer(ss, k2, i2) implies k1 == k2 && i1 == i2 by {
        lemma_places_differ(ss, k1, i1, k2, i2);
    }
}

proof fn lemma_place_of_offset(section_size: int, n_sections: int, j: int)
    requires
        0 <= section_size,
        0 <= n_sections,
        0 <= j < section_size * n_sections,
    ensures
        section_size > 0,
        0 <= j / section_size < n_sections,
        0 <= j % section_size < section_size,
        (j / section_size) * section_size + j % section_size == j,
{
    assert(section_size > 0) by (nonlinear_arith)
        requires
            0 <= section_size,
            0 <= n_sections,
            0 < section_size * n_sections,
    ;
    assert(0 <= j / section_size < n_sections && 0 <= j % section_size < section_size && (j
        / section_size) * section_size + j % section_size == j) by (nonlinear_arith)
        requires
            section_size > 0,
            0 <= j < section_size * n_sections,
    ;
}

proof fn lemma_places_differ(section_size: int, k1: int, i1: int, k2: int, i2: int)
    requires
        0 <= i1 < section_size,
        0 <= i2 < section_size,
        k1 * section_size + i1 == k2 * section_size + i2,
    ensures
        k1 == k2,
        i1 == i2,
{
    assert(k1 == k2) by (nonlinear_arith)
        requires
            0 <= i1 < section_size,
            0 <= i2 < section_size,
            k1 * section_size + i1 == k2 * section_size + i2,
    ;
}

/// The largest magnitude of a product of two `i32`.
spec fn term_bound() -> int {
    0x4000_0000_0000_0000
}

proof fn lemma_term_bound(x: i32, y: i32)
    ensures
        -term_bound() <= x * y <= term_bound(),
{
    assert(-0x4000_0000_0000_0000 <= x * y <= 0x4000_0000_0000_0000) by (nonlinear_arith)
        requires
            -0x8000_0000 <= x <= 0x7fff_ffff,
            -0x8000_0000 <= y <= 0x7fff_ffff,
    ;
}

proof fn lemma_cell_in_range(side: int, row: int, col: int)
    requires
        0 <= row < side,
        0 <= col < side,
    ensures
        0 <= row * side + col < side * side,
{
    assert(0 <= row * side && row * side + side <= side * side) by (nonlinear_arith)
        requires
            0 <= row < side,
    ;
}

proof fn lemma_offset_in_range(section_size: int, n_sections: int, number: int, i: int)
    requires
        0 <= number < n_sections,
        0 <= i < section_size,
    ensures
        0 <= number * section_size + i < section_size * n_sections,
        number * section_size + section_size <= section_size * n_sections,
{
    assert(0 <= number * section_size && number * section_size + section_size <= section_size
        * n_sections) by (nonlinear_arith)
        requires
            0 <= number < n_sections,
            0 < section_size,
    ;
}

/// A `SIDE` x `SIDE` grid of `SIZE` numbers, to be cut into `N_SECTIONS`
/// sections of `SECTION_SIZE` numbers each.
#[derive(Debug)]
pub struct Matrix<
    const SIDE: usize,
    const SIZE: usize,
    const SECTION_SIZE: usize,
    const N_SECTIONS: usize,
> {
    data: [i32; SIZE],
    rows: usize,
    cols: usize,
}

impl<
    const SIDE: usize,
    const SIZE: usize,
    const SECTION_SIZE: usize,
    const N_SECTIONS: usize,
> Matrix<SIDE, SIZE, SECTION_SIZE, N_SECTIONS> {
    #[verifier::type_invariant]
    spec fn extents_are_side(self) -> bool {
        self.rows == SIDE && self.cols == SIDE
    }

    /// The numbers of the matrix, row by row.
    pub closed spec fn view(&self) -> Seq<i32> {
        self.data@
    }

    /// The extents are those of a square: `SIZE` is `SIDE` squared.
    pub open spec fn square() -> bool {
        SIZE == SIDE * SIDE
    }

    /// The sections cover the buffer exactly: `SECTION_SIZE` times
    /// `N_SECTIONS` is `SIDE` squared.
    pub open spec fn partition_valid() -> bool {
        Self::square() && SECTION_SIZE * N_SECTIONS == SIZE
    }

    /// The matrix holds `SIZE` numbers.
    pub proof fn lemma_len(&self)
        ensures
            self@.len() == SIZE,
    {
    }

    /// Whether the sections cover the buffer exactly.
    pub fn partition_is_valid() -> (ok: bool)
        ensures
            ok == Self::partition_valid(),
    {
        let square = SIDE.checked_mul(SIDE);
        let covered = SECTION_SIZE.checked_mul(N_SECTIONS);
        square == Some(SIZE) && covered == Some(SIZE)
    }

    /// The matrix whose numbers are all zero.
    pub fn zeroes() -> (m: Self)
        ensures
            m@.len() == SIZE,
            forall|i: int| 0 <= i < SIZE ==> m@[i] == 0,
    {
        Matrix { data: [0; SIZE], rows: SIDE, cols: SIDE }
    }

    /// The matrix that holds `data`, read row by row.
    pub fn from_slice(data: [i32; SIZE]) -> (m: Self)
        ensures
            m@ == data@,
    {
        Matrix { data, rows: SIDE, cols: SIDE }
    }

    /// Cuts the buffer into its `N_SECTIONS` sections: section `k` holds the
    /// numbers at offsets `k * SECTION_SIZE` up to `(k + 1) * SECTION_SIZE`,
    /// and knows its number and the extents of the matrix.
    pub fn sections_mut(&mut self) -> (sections: Vec<
        Option<MatrixSection<SECTION_SIZE, SIDE, SIZE, N_SECTIONS>>,
    >)
        requires
            Self::partition_valid(),
        ensures
            final(self)@ == old(self)@,
            sections.len() == N_SECTIONS,
            forall|k: int|
                0 <= k < N_SECTIONS ==> {
                    &&& (#[trigger] sections[k]) is Some
                    &&& sections[k].unwrap().wf()
                    &&& sections[k].unwrap().number() == k
                    &&& sections[k].unwrap()@ == section_of(old(self)@, SECTION_SIZE as int, k)
                },
    {
        proof {
            use_type_invariant(&*self);
        }
        let mut sections: Vec<Option<MatrixSection<SECTION_SIZE, SIDE, SIZE, N_SECTIONS>>> =
            Vec::new();
        let mut k: usize = 0;
        while k < N_SECTIONS
            invariant
                Self::partition_valid(),
                k <= N_SECTIONS,
                self.rows == SIDE,
                self.cols == SIDE,
                sections.len() == k,
                forall|n: int|
                    0 <= n < k ==> {
                        &&& (#[trigger] sections[n]) is Some
                        &&& sections[n].unwrap().wf()
                        &&& sections[n].unwrap().number() == n
                        &&& sections[n].unwrap()@ == section_of(self@, SECTION_SIZE as int, n)
                    },
            decreases N_SECTIONS - k,
        {
            let mut chunk: [i32; SECTION_SIZE] = [0; SECTION_SIZE];
            let mut i: usize = 0;
            while i < SECTION_SIZE
                invariant
                    Self::partition_valid(),
                    k < N_SECTIONS,
                    i <= SECTION_SIZE,
                    forall|j: int|
                        0 <= j < i ==> #[trigger] chunk@[j] == self@[k * SECTION_SIZE + j],
                decreases SECTION_SIZE - i,
            {
                proof {
                    lemma_offset_in_range(
                        SECTION_SIZE as int,
                        N_SECTIONS as int,
                        k as int,
                        i as int,
                    );
                }
                let ghost before = chunk@;
                chunk[i] = self.data[k * SECTION_SIZE + i];
                assert(chunk@ == before.update(i as int, self@[k * SECTION_SIZE + i]));
                i += 1;
            }
            proof {
                if SECTION_SIZE > 0 {
                    lemma_offset_in_range(SECTION_SIZE as int, N_SECTIONS as int, k as int, 0);
                }
                assert((k + 1) * SECTION_SIZE == k * SECTION_SIZE + SECTION_SIZE)
                    by (nonlinear_arith);
                assert(chunk@ =~= section_of(self@, SECTION_SIZE as int, k as int));
            }
            let section = MatrixSection::new(chunk, self.rows, self.cols, k);
            let ghost earlier = sections@;
            sections.push(Some(section));
            assert(forall|n: int| 0 <= n < k ==> sections[n] == earlier[n]);
            k += 1;
        }
        sections
    }

    /// Puts the numbers of `section` back where they belong in the buffer;
    /// the rest of the buffer stays as it is.
    pub fn write_back(&mut self, section: &MatrixSection<SECTION_SIZE, SIDE, SIZE, N_SECTIONS>)
        requires
            section.wf(),
        ensures
            final(self)@ == with_section(
                old(self)@,
                SECTION_SIZE as int,
                section.number() as int,
                section@,
            ),
    {
        proof {
            use_type_invariant(&*self);
        }
        let k = section.section_number;
        let mut i: usize = 0;
        while i < SECTION_SIZE
            invariant
                section.wf(),
                k == section.number(),
                i <= SECTION_SIZE,
                self.rows == SIDE,
                self.cols == SIDE,
                self@.len() == SIZE,
                forall|j: int|
                    0 <= j < SIZE ==> #[trigger] self@[j] == if k * SECTION_SIZE <= j < k
                        * SECTION_SIZE + i {
                        section@[j - k * SECTION_SIZE]
                    } else {
                        old(self)@[j]
                    },
            decreases SECTION_SIZE - i,
        {
            proof {
                lemma_offset_in_range(SECTION_SIZE as int, N_SECTIONS as int, k as int, i as int);
            }
            let ghost before = self@;
            self.data[k * SECTION_SIZE + i] = section.section_data[i];
            assert(self@ == before.update(k * SECTION_SIZE + i, section@[i as int]));
            i += 1;
        }
        proof {
            assert((k + 1) * SECTION_SIZE == k * SECTION_SIZE + SECTION_SIZE) by (nonlinear_arith);
            assert(self@ =~= with_section(
                old(self)@,
                SECTION_SIZE as int,
                section.number() as int,
                section@,
            ));
        }
    }

    /// The numbers of the matrix, row by row.
    pub fn data(&self) -> (d: &[i32; SIZE])
        ensures
            d@ == self@,
    {
        &self.data
    }
}

/// The dot product of row `row` of `a` with column `col` of `b`.
fn dot_cells<const SIZE: usize>(
    a: &[i32; SIZE],
    b: &[i32; SIZE],
    side: usize,
    row: usize,
    col: usize,
) -> (sum: i128)
    requires
        SIZE == side * side,
        row < side,
        col < side,
    ensures
        sum == dot(a@, b@, side as int, row as int, col as int, side as int),
        -(side * term_bound()) <= sum <= side * term_bound(),
{
    let mut sum: i128 = 0;
    let mut k: usize = 0;
    while k < side
        invariant
            SIZE == side * side,
            row < side,
            col < side,
            k <= side,
            sum == dot(a@, b@, side as int, row as int, col as int, k as int),
            -(k * term_bound()) <= sum <= k * term_bound(),
        decreases side - k,
    {
        proof {
            lemma_cell_in_range(side as int, row as int, k as int);
            lemma_cell_in_range(side as int, k as int, col as int);
            lemma_term_bound(a[row * side + k], b[k * side + col]);
        }
        let x = a[row * side + k];
        let y = b[k * side + col];
        sum = sum + (x as i128) * (y as i128);
        k += 1;
    }
    sum
}

/// The sum of all taps of `kernel` centred on row `row` and column `col` of
/// `a`, with zero for the taps that lie outside `a`.
fn convolve_cells<const SIZE: usize, const KERNEL_SIZE: usize>(
    a: &[i32; SIZE],
    kernel: &[i32; KERNEL_SIZE],
    side: usize,
    kernel_side: usize,
    row: usize,
    col: usize,
) -> (sum: i128)
    requires
        SIZE == side * side,
        KERNEL_SIZE == kernel_side * kernel_side,
        kernel_side % 2 == 1,
        row < side,
        col < side,
    ensures
        sum == taps(
            a@,
            kernel@,
            side as int,
            kernel_side as int,
            row as int,
            col as int,
            kernel_side as int,
        ),
        -(KERNEL_SIZE * term_bound()) <= sum <= KERNEL_SIZE * term_bound(),
{
    let radius = (kernel_side - 1) / 2;
    let mut sum: i128 = 0;
    let mut k: usize = 0;
    while k < kernel_side
        invariant
            SIZE == side * side,
            KERNEL_SIZE == kernel_side * kernel_side,
            radius == (kernel_side - 1) / 2,
            row < side,
            col < side,
            k <= kernel_side,
            sum == taps(
                a@,
                kernel@,
                side as int,
                kernel_side as int,
                row as int,
                col as int,
                k as int,
            ),
            -(k * kernel_side * term_bound()) <= sum <= k * kernel_side * term_bound(),
        decreases kernel_side - k,
    {
        let mut l: usize = 0;
        while l < kernel_side
            invariant
                SIZE == side * side,
                KERNEL_SIZE == kernel_side * kernel_side,
                radius == (kernel_side - 1) / 2,
                row < side,
                col < side,
                k < kernel_side,
                l <= kernel_side,
                sum == taps(
                    a@,
                    kernel@,
                    side as int,
                    kernel_side as int,
                    row as int,
                    col as int,
                    k as int,
                ) + tap_row(
                    a@,
                    kernel@,
                    side as int,
                    kernel_side as int,
                    row as int,
                    col as int,
                    k as int,
                    l as int,
                ),
                -((k * kernel_side + l) * term_bound()) <= sum <= (k * kernel_side + l)
                    * term_bound(),
            decreases kernel_side - l,
        {
            proof {
                lemma_cell_in_range(kernel_side as int, k as int, l as int);
            }
            let y = row as i128 + k as i128 - radius as i128;
            let x = col as i128 + l as i128 - radius as i128;
            if y >= 0 && y < side as i128 && x >= 0 && x < side as i128 {
                proof {
                    lemma_cell_in_range(side as int, y as int, x as int);
                    lemma_term_bound(a[y * side + x], kernel[k * kernel_side + l]);
                }
                let under = a[(y as usize) * side + (x as usize)];
                let weight = kernel[k * kernel_side + l];
                sum = sum + (under as i128) * (weight as i128);
            }
            l += 1;
        }
        proof {
            assert((k + 1) * kernel_side == k * kernel_side + kernel_side) by (nonlinear_arith);
        }
        k += 1;
    }
    sum
}

/// One section of a matrix: its own copy of `SIZE` consecutive numbers of
/// the buffer, with the number of the section and the extents of the whole
/// matrix, from which the row and column of each of its numbers follow.
/// Whoever holds the section works on it alone; `Matrix::write_back` puts
/// its numbers back into the buffer.
#[derive(Debug)]
pub struct MatrixSection<
    const SIZE: usize,
    const MATRIX_SIDE: usize,
    const MATRIX_SIZE: usize,
    const N_SECTIONS: usize,
> {
    section_data: [i32; SIZE],
    rows: usize,
    cols: usize,
    section_number: usize,
}

impl<
    const SIZE: usize,
    const MATRIX_SIDE: usize,
    const MATRIX_SIZE: usize,
    const N_SECTIONS: usize,
> MatrixSection<SIZE, MATRIX_SIDE, MATRIX_SIZE, N_SECTIONS> {
    /// The numbers of the section, in the order of the buffer.
    pub closed spec fn view(&self) -> Seq<i32> {
        self.section_data@
    }

    /// The number of rows of the whole matrix.
    pub closed spec fn extent_rows(&self) -> nat {
        self.rows as nat
    }

    /// The number of columns of the whole matrix.
    pub closed spec fn extent_cols(&self) -> nat {
        self.cols as nat
    }

    /// Which section of the matrix this is, counted from zero.
    pub closed spec fn number(&self) -> nat {
        self.section_number as nat
    }

    /// The section lies inside a square matrix that its kind of section
    /// covers exactly, and carries that matrix's extents.
    pub open spec fn wf(&self) -> bool {
        &&& MATRIX_SIZE == MATRIX_SIDE * MATRIX_SIDE
        &&& SIZE * N_SECTIONS == MATRIX_SIZE
        &&& self.extent_rows() == MATRIX_SIDE
        &&& self.extent_cols() == MATRIX_SIDE
        &&& self.number() < N_SECTIONS
    }

    /// The linear offset in the whole matrix of number `i` of the section.
    pub open spec fn offset(&self, i: int) -> int {
        self.number() * SIZE + i
    }

    /// Number `i` of the section after `a * b` has been added to it.
    pub open spec fn multiplied_at(&self, a: Seq<i32>, b: Seq<i32>, i: int) -> int {
        self@[i] + product_cell(a, b, MATRIX_SIDE as int, self.offset(i))
    }

    /// Every number of the section can still be stored after `a * b` has
    /// been added to it.
    pub open spec fn multiply_fits(&self, a: Seq<i32>, b: Seq<i32>) -> bool {
        forall|i: int| 0 <= i < SIZE ==> fits_i32(#[trigger] self.multiplied_at(a, b, i))
    }

    /// Number `i` of the section after the convolution of `a` with a
    /// `kernel_side` x `kernel_side` kernel has been added to it.
    pub open spec fn convolved_at(
        &self,
        a: Seq<i32>,
        kernel: Seq<i32>,
        kernel_side: int,
        i: int,
    ) -> int {
        self@[i] + convolution_cell(a, kernel, MATRIX_SIDE as int, kernel_side, self.offset(i))
    }

    /// Every number of the section can still be stored after the
    /// convolution of `a` with the kernel has been added to it.
    pub open spec fn convolute_fits(
        &self,
        a: Seq<i32>,
        kernel: Seq<i32>,
        kernel_side: int,
    ) -> bool {
        forall|i: int|
            0 <= i < SIZE ==> fits_i32(#[trigger] self.convolved_at(a, kernel, kernel_side, i))
    }

    /// The section with the given numbers, extents and section number.
    pub fn new(section_data: [i32; SIZE], rows: usize, cols: usize, section_number: usize) -> (s:
        Self)
        ensures
            s@ == section_data@,
            s.extent_rows() == rows,
            s.extent_cols() == cols,
            s.number() == section_number,
    {
        MatrixSection { section_data, rows, cols, section_number }
    }

    /// The numbers of the section, in the order of the buffer.
    pub fn data(&self) -> (d: &[i32; SIZE])
        ensures
            d@ == self@,
    {
        &self.section_data
    }

    /// The number of rows of the whole matrix.
    pub fn rows(&self) -> (rows: usize)
        ensures
            rows == self.extent_rows(),
    {
        self.rows
    }

    /// The number of columns of the whole matrix.
    pub fn cols(&self) -> (cols: usize)
        ensures
            cols == self.extent_cols(),
    {
        self.cols
    }

    /// Which section of the matrix this is, counted from zero.
    pub fn section_number(&self) -> (number: usize)
        ensures
            number == self.number(),
    {
        self.section_number
    }

    /// The section holds `SIZE` numbers.
    pub proof fn lemma_len(&self)
        ensures
            self@.len() == SIZE,
    {
    }

    /// Whether the section lies inside a square matrix that its kind of
    /// section covers exactly, and carries that matrix's extents.
    pub fn is_valid(&self) -> (ok: bool)
        ensures
            ok == self.wf(),
    {
        let square = MATRIX_SIDE.checked_mul(MATRIX_SIDE);
        let covered = SIZE.checked_mul(N_SECTIONS);
        square == Some(MATRIX_SIZE) && covered == Some(MATRIX_SIZE) && self.rows == MATRIX_SIDE
            && self.cols == MATRIX_SIDE && self.section_number < N_SECTIONS
    }

    /// Whether `multiply` may be called with `a` and `b`: the section is
    /// valid and every sum can be stored.
    pub fn can_multiply(
        &self,
        a: &Matrix<MATRIX_SIDE, MATRIX_SIZE, MATRIX_SIZE, 1>,
        b: &Matrix<MATRIX_SIDE, MATRIX_SIZE, MATRIX_SIZE, 1>,
    ) -> (ok: bool)
        ensures
            ok == (self.wf() && self.multiply_fits(a@, b@)),
    {
        if !self.is_valid() {
            return false;
        }
        let mut i: usize = 0;
        while i < SIZE
            invariant
                i <= SIZE,
                self.wf(),
                forall|j: int| 0 <= j < i ==> fits_i32(#[trigger] self.multiplied_at(a@, b@, j)),
            decreases SIZE - i,
        {
            proof {
                lemma_offset_in_range(
                    SIZE as int,
                    N_SECTIONS as int,
                    self.section_number as int,
                    i as int,
                );
                lemma_place_of_offset(
                    MATRIX_SIDE as int,
                    MATRIX_SIDE as int,
                    self.section_number * SIZE + i,
                );
            }
            let offset = self.section_number * SIZE + i;
            let row = offset / self.cols;
            let col = offset % self.cols;
            let sum = self.section_data[i] as i128 + dot_cells(
                &a.data,
                &b.data,
                self.cols,
                row,
                col,
            );
            if sum < i32::MIN as i128 || sum > i32::MAX as i128 {
                assert(!fits_i32(self.multiplied_at(a@, b@, i as int)));
                return false;
            }
            i += 1;
        }
        true
    }

    /// Whether `convolute` may be called with `a` and `kernel`: the section
    /// is valid, the kernel is a square of odd side, and every sum can be
    /// stored.
    pub fn can_convolute<const KERNEL_SIDE: usize, const KERNEL_SIZE: usize>(
        &self,
        a: &Matrix<MATRIX_SIDE, MATRIX_SIZE, SIZE, N_SECTIONS>,
        kernel: &Matrix<KERNEL_SIDE, KERNEL_SIZE, 0, 0>,
    ) -> (ok: bool)
        ensures
            ok == self.convolute_requires(a, kernel),
    {
        if !self.is_valid() || KERNEL_SIDE % 2 != 1 || KERNEL_SIDE.checked_mul(KERNEL_SIDE) != Some(
            KERNEL_SIZE,
        ) {
            return false;
        }
        let mut i: usize = 0;
        while i < SIZE
            invariant
                i <= SIZE,
                self.wf(),
                KERNEL_SIDE % 2 == 1,
                KERNEL_SIZE == KERNEL_SIDE * KERNEL_SIDE,
                forall|j: int|
                    0 <= j < i ==> fits_i32(
                        #[trigger] self.convolved_at(a@, kernel@, KERNEL_SIDE as int, j),
                    ),
            decreases SIZE - i,
        {
            proof {
                lemma_offset_in_range(
                    SIZE as int,
                    N_SECTIONS as int,
                    self.section_number as int,
                    i as int,
                );
                lemma_place_of_offset(
                    MATRIX_SIDE as int,
                    MATRIX_SIDE as int,
                    self.section_number * SIZE + i,
                );
            }
            let offset = self.section_number * SIZE + i;
            let row = offset / self.cols;
            let col = offset % self.cols;
            let sum = self.section_data[i] as i128 + convolve_cells(
                &a.data,
                &kernel.data,
                self.cols,
                KERNEL_SIDE,
                row,
                col,
            );
            if sum < i32::MIN as i128 || sum > i32::MAX as i128 {
                assert(!fits_i32(self.convolved_at(a@, kernel@, KERNEL_SIDE as int, i as int)));
                return false;
            }
            i += 1;
        }
        true
    }

    /// Adds to each number of the section the number of the product `a * b`
    /// that belongs at its row and column of the whole matrix.
    pub fn multiply(
        &mut self,
        a: &Matrix<MATRIX_SIDE, MATRIX_SIZE, MATRIX_SIZE, 1>,
        b: &Matrix<MATRIX_SIDE, MATRIX_SIZE, MATRIX_SIZE, 1>,
    )
        requires
            old(self).wf(),
            old(self).multiply_fits(a@, b@),
        ensures
            final(self).extent_rows() == old(self).extent_rows(),
            final(self).extent_cols() == old(self).extent_cols(),
            final(self).number() == old(self).number(),
            final(self)@.len() == SIZE,
            forall|i: int|
                0 <= i < SIZE ==> #[trigger] final(self)@[i] == old(self).multiplied_at(a@, b@, i),
    {
        let mut i: usize = 0;
        while i < SIZE
            invariant
                i <= SIZE,
                old(self).wf(),
                old(self).multiply_fits(a@, b@),
                self.rows == old(self).rows,
                self.cols == old(self).cols,
                self.section_number == old(self).section_number,
                forall|j: int|
                    0 <= j < i ==> #[trigger] self@[j] == old(self).multiplied_at(a@, b@, j),
                forall|j: int| i <= j < SIZE ==> #[trigger] self@[j] == old(self)@[j],
            decreases SIZE - i,
        {
            proof {
                lemma_offset_in_range(
                    SIZE as int,
                    N_SECTIONS as int,
                    self.section_number as int,
                    i as int,
                );
                lemma_place_of_offset(
                    MATRIX_SIDE as int,
                    MATRIX_SIDE as int,
                    self.section_number * SIZE + i,
                );
            }
            let offset = self.section_number * SIZE + i;
            let row = offset / self.cols;
            let col = offset % self.cols;
            let sum = dot_cells(&a.data, &b.data, self.cols, row, col);
            assert(fits_i32(old(self).multiplied_at(a@, b@, i as int)));
            let ghost before = self@;
            let value = (self.section_data[i] as i128 + sum) as i32;
            self.section_data[i] = value;
            assert(self@ == before.update(i as int, value));
            i += 1;
        }
    }
}

/// The product does not depend on how the result is cut into sections. Two
/// sections cut from one buffer `c`, by one partition or by two, hold the
/// same number at the same offset of the matrix after `a * b` has been
/// added: the number of `c` at that offset plus the number of the product
/// there. So the sections of a matrix cut into many hold together what the
/// one section of the matrix cut into one holds.
pub proof fn lemma_multiply_independent_of_partition<
    const SIDE: usize,
    const SIZE: usize,
    const S1: usize,
    const N1: usize,
    const S2: usize,
    const N2: usize,
>(
    c: Seq<i32>,
    s1: MatrixSection<S1, SIDE, SIZE, N1>,
    s2: MatrixSection<S2, SIDE, SIZE, N2>,
    a: Seq<i32>,
    b: Seq<i32>,
    i1: int,
    i2: int,
)
    requires
        c.len() == SIZE,
        s1.wf(),
        s2.wf(),
        s1@ == section_of(c, S1 as int, s1.number() as int),
        s2@ == section_of(c, S2 as int, s2.number() as int),
        0 <= i1 < S1,
        0 <= i2 < S2,
        s1.offset(i1) == s2.offset(i2),
    ensures
        s1.multiplied_at(a, b, i1) == c[s1.offset(i1)] + product_cell(
            a,
            b,
            SIDE as int,
            s1.offset(i1),
        ),
        s1.multiplied_at(a, b, i1) == s2.multiplied_at(a, b, i2),
{
    lemma_offset_in_range(S1 as int, N1 as int, s1.number() as int, i1);
    lemma_offset_in_range(S2 as int, N2 as int, s2.number() as int, i2);
    assert((s1.number() + 1) * S1 == s1.number() * S1 + S1) by (nonlinear_arith);
    assert((s2.number() + 1) * S2 == s2.number() * S2 + S2) by (nonlinear_arith);
}

/// The convolution does not depend on how the result is cut into sections:
/// two sections cut from one buffer `c`, by one partition or by two, hold
/// the same number at the same offset of the matrix after the convolution
/// of `a` with `kernel` has been added.
pub proof fn lemma_convolute_independent_of_partition<
    const SIDE: usize,
    const SIZE: usize,
    const S1: usize,
    const N1: usize,
    const S2: usize,
    const N2: usize,
>(
    c: Seq<i32>,
    s1: MatrixSection<S1, SIDE, SIZE, N1>,
    s2: MatrixSection<S2, SIDE, SIZE, N2>,
    a: Seq<i32>,
    kernel: Seq<i32>,
    kernel_side: int,
    i1: int,
    i2: int,
)
    requires
        c.len() == SIZE,
        s1.wf(),
        s2.wf(),
        s1@ == section_of(c, S1 as int, s1.number() as int),
        s2@ == section_of(c, S2 as int, s2.number() as int),
        0 <= i1 < S1,
        0 <= i2 < S2,
        s1.offset(i1) == s2.offset(i2),
    ensures
        s1.convolved_at(a, kernel, kernel_side, i1) == c[s1.offset(i1)] + convolution_cell(
            a,
            kernel,
            SIDE as int,
            kernel_side,
            s1.offset(i1),
        ),
        s1.convolved_at(a, kernel, kernel_side, i1) == s2.convolved_at(
            a,
            kernel,
            kernel_side,
            i2,
        ),
{
    lemma_offset_in_range(S1 as int, N1 as int, s1.number() as int, i1);
    lemma_offset_in_range(S2 as int, N2 as int, s2.number() as int, i2);
    assert((s1.number() + 1) * S1 == s1.number() * S1 + S1) by (nonlinear_arith);
    assert((s2.number() + 1) * S2 == s2.number() * S2 + S2) by (nonlinear_arith);
}

/// Convolution of a matrix with a square kernel of odd side, into a part of
/// the result.
pub trait Convolution<
    const MATRIX_SIDE: usize,
    const MATRIX_SIZE: usize,
    const SECTION_SIZE: usize,
    const N_SECTIONS: usize,
    const KERNEL_SIDE: usize,
    const KERNEL_SIZE: usize,
>: Sized {
    /// The inputs on which the convolution is defined and can be stored.
    spec fn convolute_requires(
        &self,
        a: &Matrix<MATRIX_SIDE, MATRIX_SIZE, SECTION_SIZE, N_SECTIONS>,
        kernel: &Matrix<KERNEL_SIDE, KERNEL_SIZE, 0, 0>,
    ) -> bool;

    /// `after` is `self` with the convolution of `a` with `kernel` added.
    spec fn convolute_ensures(
        &self,
        a: &Matrix<MATRIX_SIDE, MATRIX_SIZE, SECTION_SIZE, N_SECTIONS>,
        kernel: &Matrix<KERNEL_SIDE, KERNEL_SIZE, 0, 0>,
        after: &Self,
    ) -> bool;

    /// Adds to each number of `self` the sum of the kernel's taps centred
    /// on it; a tap that lies outside `a` adds nothing.
    fn convolute(
        &mut self,
        a: &Matrix<MATRIX_SIDE, MATRIX_SIZE, SECTION_SIZE, N_SECTIONS>,
        kernel: &Matrix<KERNEL_SIDE, KERNEL_SIZE, 0, 0>,
    )
        requires
            old(self).convolute_requires(a, kernel),
        ensures
            old(self).convolute_ensures(a, kernel, final(self)),
    ;
}

impl<
    const MATRIX_SIDE: usize,
    const MATRIX_SIZE: usize,
    const SECTION_SIZE: usize,
    const N_SECTIONS: usize,
    const KERNEL_SIDE: usize,
    const KERNEL_SIZE: usize,
> Convolution<
    MATRIX_SIDE,
    MATRIX_SIZE,
    SECTION_SIZE,
    N_SECTIONS,
    KERNEL_SIDE,
    KERNEL_SIZE,
> for MatrixSection<SECTION_SIZE, MATRIX_SIDE, MATRIX_SIZE, N_SECTIONS> {
    open spec fn convolute_requires(
        &self,
        a: &Matrix<MATRIX_SIDE, MATRIX_SIZE, SECTION_SIZE, N_SECTIONS>,
        kernel: &Matrix<KERNEL_SIDE, KERNEL_SIZE, 0, 0>,
    ) -> bool {
        &&& self.wf()
        &&& KERNEL_SIDE % 2 == 1
        &&& KERNEL_SIZE == KERNEL_SIDE * KERNEL_SIDE
        &&& self.convolute_fits(a@, kernel@, KERNEL_SIDE as int)
    }

    open spec fn convolute_ensures(
        &self,
        a: &Matrix<MATRIX_SIDE, MATRIX_SIZE, SECTION_SIZE, N_SECTIONS>,
        kernel: &Matrix<KERNEL_SIDE, KERNEL_SIZE, 0, 0>,
        after: &Self,
    ) -> bool {
        &&& after.extent_rows() == self.extent_rows()
        &&& after.extent_cols() == self.extent_cols()
        &&& after.number() == self.number()
        &&& after@.len() == SECTION_SIZE
        &&& forall|i: int|
            0 <= i < SECTION_SIZE ==> #[trigger] after@[i] == self.convolved_at(
                a@,
                kernel@,
                KERNEL_SIDE as int,
                i,
            )
    }

    fn convolute(
        &mut self,
        a: &Matrix<MATRIX_SIDE, MATRIX_SIZE, SECTION_SIZE, N_SECTIONS>,
        kernel: &Matrix<KERNEL_SIDE, KERNEL_SIZE, 0, 0>,
    ) {
        let mut i: usize = 0;
        while i < SECTION_SIZE
            invariant
                i <= SECTION_SIZE,
                old(self).convolute_requires(a, kernel),
                self.rows == old(self).rows,
                self.cols == old(self).cols,
                self.section_number == old(self).section_number,
                forall|j: int|
                    0 <= j < i ==> #[trigger] self@[j] == old(self).convolved_at(
                        a@,
                        kernel@,
                        KERNEL_SIDE as int,
                        j,
                    ),
                forall|j: int| i <= j < SECTION_SIZE ==> #[trigger] self@[j] == old(self)@[j],
            decreases SECTION_SIZE - i,
        {
            proof {
                lemma_offset_in_range(
                    SECTION_SIZE as int,
                    N_SECTIONS as int,
                    self.section_number as int,
                    i as int,
                );
                lemma_place_of_offset(
                    MATRIX_SIDE as int,
                    MATRIX_SIDE as int,
                    self.section_number * SECTION_SIZE + i,
                );
            }
            let offset = self.section_number * SECTION_SIZE + i;
            let row = offset / self.cols;
            let col = offset % self.cols;
            let sum = convolve_cells(&a.data, &kernel.data, self.cols, KERNEL_SIDE, row, col);
            assert(fits_i32(old(self).convolved_at(a@, kernel@, KERNEL_SIDE as int, i as int)));
            let ghost before = self@;
            let value = (self.section_data[i] as i128 + sum) as i32;
            self.section_data[i] = value;
            assert(self@ == before.update(i as int, value));
            i += 1;
        }
    }
}

} // verus!
