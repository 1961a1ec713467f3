use multihart::matrix::{Convolution, Matrix, MatrixSection};

const A: [i32; 16] = [0, 1, 2, 3, 4, 5, 6, 7, 8, 9, 10, 11, 12, 13, 14, 15];
const KERNEL: [i32; 9] = [0, 1, 2, 3, 4, 5, 6, 7, 8];
const PRODUCT: [i32; 16] =
    [56, 62, 68, 74, 152, 174, 196, 218, 248, 286, 324, 362, 344, 398, 452, 506];
const CONVOLUTION: [i32; 16] =
    [73, 121, 154, 103, 171, 258, 294, 186, 279, 402, 438, 270, 139, 187, 202, 113];

fn multiply_in_sections<const SECTION_SIZE: usize, const N_SECTIONS: usize>(
    start: [i32; 16],
) -> [i32; 16] {
    let a: Matrix<4, 16, 16, 1> = Matrix::from_slice(A);
    let b: Matrix<4, 16, 16, 1> = Matrix::from_slice(A);
    let mut c: Matrix<4, 16, SECTION_SIZE, N_SECTIONS> = Matrix::from_slice(start);
    assert!(Matrix::<4, 16, SECTION_SIZE, N_SECTIONS>::partition_is_valid());
    for section in c.sections_mut() {
        let mut section = section.unwrap();
        assert!(section.can_multiply(&a, &b));
        section.multiply(&a, &b);
        c.write_back(&section);
    }
    *c.data()
}

fn convolute_in_sections<const SECTION_SIZE: usize, const N_SECTIONS: usize>(
    start: [i32; 16],
) -> [i32; 16] {
    let a: Matrix<4, 16, SECTION_SIZE, N_SECTIONS> = Matrix::from_slice(A);
    let kernel: Matrix<3, 9, 0, 0> = Matrix::from_slice(KERNEL);
    let mut c: Matrix<4, 16, SECTION_SIZE, N_SECTIONS> = Matrix::from_slice(start);
    for section in c.sections_mut() {
        let mut section = section.unwrap();
        assert!(section.can_convolute(&a, &kernel));
        section.convolute(&a, &kernel);
        c.write_back(&section);
    }
    *c.data()
}

#[test]
fn zeroes_holds_only_zeroes() {
    let m: Matrix<4, 16, 4, 4> = Matrix::zeroes();
    assert_eq!(*m.data(), [0; 16]);
}

#[test]
fn from_slice_keeps_the_numbers_in_order() {
    let m: Matrix<4, 16, 4, 4> = Matrix::from_slice(A);
    assert_eq!(*m.data(), A);
}

#[test]
fn partition_is_valid_when_the_sections_cover_the_square() {
    assert!(Matrix::<4, 16, 4, 4>::partition_is_valid());
    assert!(Matrix::<4, 16, 16, 1>::partition_is_valid());
    assert!(Matrix::<4, 16, 8, 2>::partition_is_valid());
    assert!(Matrix::<4, 16, 1, 16>::partition_is_valid());
    assert!(Matrix::<1, 1, 1, 1>::partition_is_valid());
}

#[test]
fn partition_is_not_valid_with_a_gap_or_an_overlap() {
    assert!(!Matrix::<4, 16, 5, 3>::partition_is_valid());
    assert!(!Matrix::<4, 16, 4, 5>::partition_is_valid());
    assert!(!Matrix::<4, 16, 4, 3>::partition_is_valid());
    assert!(!Matrix::<3, 9, 0, 0>::partition_is_valid());
}

#[test]
fn partition_is_not_valid_when_the_size_is_no_square() {
    assert!(!Matrix::<4, 15, 5, 3>::partition_is_valid());
    assert!(!Matrix::<4, 12, 4, 3>::partition_is_valid());
}

#[test]
fn partition_is_not_valid_when_the_square_overflows() {
    assert!(!Matrix::<{ usize::MAX }, 1, 1, 1>::partition_is_valid());
}

#[test]
fn sections_mut_cuts_the_buffer_in_order() {
    let mut m: Matrix<4, 16, 4, 4> = Matrix::from_slice(A);
    let sections = m.sections_mut();
    assert_eq!(sections.len(), 4);
    for (k, section) in sections.iter().enumerate() {
        let section = section.as_ref().unwrap();
        assert_eq!(section.section_number(), k);
        assert_eq!(section.rows(), 4);
        assert_eq!(section.cols(), 4);
        assert!(section.is_valid());
        let first = 4 * k as i32;
        assert_eq!(*section.data(), [first, first + 1, first + 2, first + 3]);
    }
    assert_eq!(*m.data(), A);
}

#[test]
fn sections_cover_every_offset_exactly_once() {
    let mut m: Matrix<4, 16, 8, 2> = Matrix::from_slice(A);
    let sections = m.sections_mut();
    let mut seen = [0usize; 16];
    let mut joined = Vec::new();
    for section in &sections {
        let section = section.as_ref().unwrap();
        for (i, number) in section.data().iter().enumerate() {
            seen[section.section_number() * 8 + i] += 1;
            joined.push(*number);
        }
    }
    assert_eq!(seen, [1; 16]);
    assert_eq!(joined, A.to_vec());
}

#[test]
fn a_single_section_is_the_whole_matrix() {
    let mut m: Matrix<4, 16, 16, 1> = Matrix::from_slice(A);
    let sections = m.sections_mut();
    assert_eq!(sections.len(), 1);
    assert_eq!(*sections[0].as_ref().unwrap().data(), A);
}

#[test]
fn write_back_replaces_one_section_only() {
    let mut m: Matrix<4, 16, 4, 4> = Matrix::zeroes();
    let section: MatrixSection<4, 4, 16, 4> = MatrixSection::new([7, 8, 9, 10], 4, 4, 2);
    assert!(section.is_valid());
    m.write_back(&section);
    assert_eq!(*m.data(), [0, 0, 0, 0, 0, 0, 0, 0, 7, 8, 9, 10, 0, 0, 0, 0]);
}

#[test]
fn new_section_keeps_what_it_is_given() {
    let section: MatrixSection<2, 4, 16, 8> = MatrixSection::new([5, -6], 4, 4, 7);
    assert_eq!(*section.data(), [5, -6]);
    assert_eq!(section.rows(), 4);
    assert_eq!(section.cols(), 4);
    assert_eq!(section.section_number(), 7);
    assert!(section.is_valid());
}

#[test]
fn section_with_foreign_extents_or_number_is_not_valid() {
    let wrong_rows: MatrixSection<4, 4, 16, 4> = MatrixSection::new([0; 4], 3, 4, 0);
    let wrong_cols: MatrixSection<4, 4, 16, 4> = MatrixSection::new([0; 4], 4, 5, 0);
    let wrong_number: MatrixSection<4, 4, 16, 4> = MatrixSection::new([0; 4], 4, 4, 4);
    let wrong_cover: MatrixSection<4, 4, 16, 3> = MatrixSection::new([0; 4], 4, 4, 0);
    assert!(!wrong_rows.is_valid());
    assert!(!wrong_cols.is_valid());
    assert!(!wrong_number.is_valid());
    assert!(!wrong_cover.is_valid());
}

#[test]
fn multiply_single_section_is_the_matrix_product() {
    assert_eq!(multiply_in_sections::<16, 1>([0; 16]), PRODUCT);
}

#[test]
fn multiply_in_four_sections_equals_single_section() {
    assert_eq!(multiply_in_sections::<4, 4>([0; 16]), PRODUCT);
    assert_eq!(multiply_in_sections::<4, 4>([0; 16]), multiply_in_sections::<16, 1>([0; 16]));
}

#[test]
fn multiply_in_any_partition_equals_single_section() {
    assert_eq!(multiply_in_sections::<8, 2>([0; 16]), PRODUCT);
    assert_eq!(multiply_in_sections::<2, 8>([0; 16]), PRODUCT);
    assert_eq!(multiply_in_sections::<1, 16>([0; 16]), PRODUCT);
}

#[test]
fn multiply_adds_to_what_the_section_holds() {
    let start = [100, -1, 0, 3, 0, 0, 0, -218, 1, 1, 1, 1, 0, 0, 0, 1];
    let mut expected = PRODUCT;
    for (sum, old) in expected.iter_mut().zip(start.iter()) {
        *sum += *old;
    }
    assert_eq!(expected[7], 0);
    assert_eq!(multiply_in_sections::<4, 4>(start), expected);
    assert_eq!(multiply_in_sections::<16, 1>(start), expected);
}

#[test]
fn multiply_one_section_leaves_the_others_alone() {
    let a: Matrix<4, 16, 16, 1> = Matrix::from_slice(A);
    let b: Matrix<4, 16, 16, 1> = Matrix::from_slice(A);
    let mut c: Matrix<4, 16, 4, 4> = Matrix::zeroes();
    let mut sections = c.sections_mut();
    let mut third = sections[2].take().unwrap();
    third.multiply(&a, &b);
    assert_eq!(*third.data(), [248, 286, 324, 362]);
    assert_eq!(third.section_number(), 2);
    c.write_back(&third);
    assert_eq!(*c.data(), [0, 0, 0, 0, 0, 0, 0, 0, 248, 286, 324, 362, 0, 0, 0, 0]);
}

#[test]
fn multiply_with_negative_numbers() {
    let a: Matrix<2, 4, 4, 1> = Matrix::from_slice([1, -2, 3, 4]);
    let b: Matrix<2, 4, 4, 1> = Matrix::from_slice([-5, 6, 7, -8]);
    let mut c: Matrix<2, 4, 2, 2> = Matrix::zeroes();
    for section in c.sections_mut() {
        let mut section = section.unwrap();
        section.multiply(&a, &b);
        c.write_back(&section);
    }
    assert_eq!(*c.data(), [-19, 22, 13, -14]);
}

#[test]
fn multiply_one_by_one() {
    let a: Matrix<1, 1, 1, 1> = Matrix::from_slice([6]);
    let b: Matrix<1, 1, 1, 1> = Matrix::from_slice([7]);
    let mut c: Matrix<1, 1, 1, 1> = Matrix::from_slice([-2]);
    let mut section = c.sections_mut().pop().unwrap().unwrap();
    section.multiply(&a, &b);
    assert_eq!(*section.data(), [40]);
}

#[test]
fn can_multiply_refuses_a_sum_that_cannot_be_stored() {
    let a: Matrix<2, 4, 4, 1> = Matrix::from_slice([i32::MAX, 0, 0, 0]);
    let b: Matrix<2, 4, 4, 1> = Matrix::from_slice([2, 0, 0, 0]);
    let first: MatrixSection<2, 2, 4, 2> = MatrixSection::new([0, 0], 2, 2, 0);
    let second: MatrixSection<2, 2, 4, 2> = MatrixSection::new([0, 0], 2, 2, 1);
    assert!(!first.can_multiply(&a, &b));
    assert!(second.can_multiply(&a, &b));
}

#[test]
fn can_multiply_accepts_the_largest_sum_that_can_be_stored() {
    let a: Matrix<1, 1, 1, 1> = Matrix::from_slice([i32::MAX]);
    let b: Matrix<1, 1, 1, 1> = Matrix::from_slice([1]);
    let mut fits: MatrixSection<1, 1, 1, 1> = MatrixSection::new([0], 1, 1, 0);
    let over: MatrixSection<1, 1, 1, 1> = MatrixSection::new([1], 1, 1, 0);
    assert!(fits.can_multiply(&a, &b));
    assert!(!over.can_multiply(&a, &b));
    fits.multiply(&a, &b);
    assert_eq!(*fits.data(), [i32::MAX]);
}

#[test]
fn can_multiply_looks_at_the_sum_and_not_at_its_parts() {
    let a: Matrix<2, 4, 4, 1> = Matrix::from_slice([i32::MAX, i32::MAX, 0, 0]);
    let b: Matrix<2, 4, 4, 1> = Matrix::from_slice([2, 0, -2, 0]);
    let mut section: MatrixSection<4, 2, 4, 1> = MatrixSection::new([5, 0, 0, 0], 2, 2, 0);
    assert!(section.can_multiply(&a, &b));
    section.multiply(&a, &b);
    assert_eq!(*section.data(), [5, 0, 0, 0]);
}

#[test]
fn can_multiply_refuses_a_section_that_is_not_valid() {
    let a: Matrix<2, 4, 4, 1> = Matrix::zeroes();
    let b: Matrix<2, 4, 4, 1> = Matrix::zeroes();
    let section: MatrixSection<2, 2, 4, 2> = MatrixSection::new([0, 0], 2, 2, 2);
    assert!(!section.can_multiply(&a, &b));
}

#[test]
fn convolute_single_section_treats_the_border_as_zero() {
    assert_eq!(convolute_in_sections::<16, 1>([0; 16]), CONVOLUTION);
}

#[test]
fn convolute_in_any_partition_equals_single_section() {
    assert_eq!(convolute_in_sections::<4, 4>([0; 16]), CONVOLUTION);
    assert_eq!(convolute_in_sections::<8, 2>([0; 16]), CONVOLUTION);
    assert_eq!(convolute_in_sections::<1, 16>([0; 16]), CONVOLUTION);
}

#[test]
fn convolute_corner_and_edge_lack_exactly_the_outside_taps() {
    let result = convolute_in_sections::<4, 4>([0; 16]);
    let tap = |row: i32, col: i32, k: i32, l: i32| -> i32 {
        let (y, x) = (row + k - 1, col + l - 1);
        if (0..4).contains(&y) && (0..4).contains(&x) {
            A[(y * 4 + x) as usize] * KERNEL[(k * 3 + l) as usize]
        } else {
            0
        }
    };
    // Interior: all nine taps.
    let mut interior = 0;
    for k in 0..3 {
        for l in 0..3 {
            interior += A[((1 + k - 1) * 4 + (1 + l - 1)) as usize] * KERNEL[(k * 3 + l) as usize];
        }
    }
    assert_eq!(result[5], interior);
    assert_eq!(result[5], 258);
    // Corner: the taps of kernel row 0 and kernel column 0 lie outside.
    let corner = tap(0, 0, 1, 1) + tap(0, 0, 1, 2) + tap(0, 0, 2, 1) + tap(0, 0, 2, 2);
    assert_eq!(corner, 0 * 4 + 1 * 5 + 4 * 7 + 5 * 8);
    assert_eq!(result[0], corner);
    // Upper edge: the taps of kernel row 0 lie outside.
    let edge = 0 * 3 + 1 * 4 + 2 * 5 + 4 * 6 + 5 * 7 + 6 * 8;
    assert_eq!(result[1], edge);
    // Lower right corner: kernel row 2 and kernel column 2 lie outside.
    assert_eq!(result[15], 10 * 0 + 11 * 1 + 14 * 3 + 15 * 4);
}

#[test]
fn convolute_adds_to_what_the_section_holds() {
    let start = [1; 16];
    let mut expected = CONVOLUTION;
    for sum in expected.iter_mut() {
        *sum += 1;
    }
    assert_eq!(convolute_in_sections::<4, 4>(start), expected);
}

#[test]
fn convolute_with_a_kernel_of_one_tap_scales() {
    let a: Matrix<4, 16, 4, 4> = Matrix::from_slice(A);
    let kernel: Matrix<1, 1, 0, 0> = Matrix::from_slice([3]);
    let mut c: Matrix<4, 16, 4, 4> = Matrix::zeroes();
    for section in c.sections_mut() {
        let mut section = section.unwrap();
        assert!(section.can_convolute(&a, &kernel));
        section.convolute(&a, &kernel);
        c.write_back(&section);
    }
    let mut expected = A;
    for number in expected.iter_mut() {
        *number *= 3;
    }
    assert_eq!(*c.data(), expected);
}

#[test]
fn convolute_with_a_kernel_wider_than_the_matrix() {
    let a: Matrix<1, 1, 1, 1> = Matrix::from_slice([2]);
    let kernel: Matrix<3, 9, 0, 0> = Matrix::from_slice(KERNEL);
    let mut section: MatrixSection<1, 1, 1, 1> = MatrixSection::new([10], 1, 1, 0);
    assert!(section.can_convolute(&a, &kernel));
    section.convolute(&a, &kernel);
    assert_eq!(*section.data(), [10 + 2 * 4]);
}

#[test]
fn can_convolute_refuses_a_kernel_of_even_side() {
    let a: Matrix<4, 16, 4, 4> = Matrix::from_slice(A);
    let even: Matrix<2, 4, 0, 0> = Matrix::from_slice([1, 1, 1, 1]);
    let empty: Matrix<0, 0, 0, 0> = Matrix::from_slice([]);
    let section: MatrixSection<4, 4, 16, 4> = MatrixSection::new([0; 4], 4, 4, 0);
    assert!(!section.can_convolute(&a, &even));
    assert!(!section.can_convolute(&a, &empty));
}

#[test]
fn can_convolute_refuses_a_kernel_that_is_no_square() {
    let a: Matrix<4, 16, 4, 4> = Matrix::from_slice(A);
    let kernel: Matrix<3, 8, 0, 0> = Matrix::from_slice([1; 8]);
    let section: MatrixSection<4, 4, 16, 4> = MatrixSection::new([0; 4], 4, 4, 0);
    assert!(!section.can_convolute(&a, &kernel));
}

#[test]
fn can_convolute_refuses_a_sum_that_cannot_be_stored() {
    let a: Matrix<1, 1, 1, 1> = Matrix::from_slice([i32::MIN]);
    let kernel: Matrix<1, 1, 0, 0> = Matrix::from_slice([1]);
    let fits: MatrixSection<1, 1, 1, 1> = MatrixSection::new([0], 1, 1, 0);
    let under: MatrixSection<1, 1, 1, 1> = MatrixSection::new([-1], 1, 1, 0);
    assert!(fits.can_convolute(&a, &kernel));
    assert!(!under.can_convolute(&a, &kernel));
}
