use multihart::matrix::{Convolution, Matrix, MatrixSection};
use multihart::shared_matrix::SharedMatrix;

const NUMBERS: [i32; 16] = [0, 1, 2, 3, 4, 5, 6, 7, 8, 9, 10, 11, 12, 13, 14, 15];
const PRODUCT_OF_NUMBERS: [i32; 16] =
    [56, 62, 68, 74, 152, 174, 196, 218, 248, 286, 324, 362, 344, 398, 452, 506];
const CONVOLUTION_OF_NUMBERS: [i32; 16] =
    [73, 121, 154, 103, 171, 258, 294, 186, 279, 402, 438, 270, 139, 187, 202, 113];

type Shared = SharedMatrix<4, 16, 4, 4>;

fn initialized() -> Shared {
    let mut shared = Shared::new(Matrix::from_slice(NUMBERS));
    shared.initialize();
    shared
}

fn add_ten(mut section: MatrixSection<4, 4, 16, 4>) -> MatrixSection<4, 4, 16, 4> {
    let number = section.section_number();
    let mut data = *section.data();
    for value in data.iter_mut() {
        *value += 10;
    }
    section = MatrixSection::new(data, section.rows(), section.cols(), number);
    section
}

#[test]
fn new_coordinator_has_nothing_to_claim() {
    let shared = Shared::new(Matrix::zeroes());
    assert!(!shared.is_initialized());
    assert_eq!(shared.completed(), 0);
    assert!(!shared.is_complete());
    for idx in 0..4 {
        assert!(!shared.is_claimable(idx));
        assert!(!shared.is_claimed(idx));
    }
}

#[test]
fn initialize_makes_every_section_claimable() {
    let shared = initialized();
    assert!(shared.is_initialized());
    for idx in 0..4 {
        assert!(shared.is_claimable(idx));
        assert!(!shared.is_claimed(idx));
    }
    assert!(!shared.is_claimable(4));
    assert_eq!(shared.completed(), 0);
}

#[test]
fn initialize_from_many_participants_cuts_once() {
    let mut shared = Shared::new(Matrix::from_slice(NUMBERS));
    for _ in 0..5 {
        shared.initialize();
        assert!(shared.is_initialized());
    }
    let first = shared.get_section(0);
    assert_eq!(*first.data(), [0, 1, 2, 3]);
    // A later call does not cut again: the claimed section stays claimed.
    shared.initialize();
    assert!(shared.is_claimed(0));
    assert!(!shared.is_claimable(0));
    for idx in 1..4 {
        assert!(shared.is_claimable(idx));
    }
}

#[test]
fn begin_initialize_has_exactly_one_winner() {
    let mut shared = Shared::new(Matrix::from_slice(NUMBERS));
    let mut winners = 0;
    for _ in 0..6 {
        if shared.begin_initialize() {
            winners += 1;
        }
    }
    assert_eq!(winners, 1);
}

#[test]
fn sections_cannot_be_claimed_before_the_winner_has_published() {
    let mut shared = Shared::new(Matrix::from_slice(NUMBERS));
    assert!(shared.begin_initialize());
    // A second participant comes while the first is still cutting.
    assert!(!shared.begin_initialize());
    shared.initialize();
    assert!(!shared.is_initialized());
    assert!(!shared.is_claimable(1));
    // The first publishes; now the second may claim.
    shared.publish_sections();
    assert!(shared.is_initialized());
    assert!(shared.is_claimable(1));
    let section = shared.get_section(1);
    assert_eq!(*section.data(), [4, 5, 6, 7]);
    assert_eq!(section.section_number(), 1);
}

#[test]
fn get_section_hands_out_the_section_of_that_index() {
    let mut shared = initialized();
    let section = shared.get_section(2);
    assert_eq!(section.section_number(), 2);
    assert_eq!(section.rows(), 4);
    assert_eq!(section.cols(), 4);
    assert_eq!(*section.data(), [8, 9, 10, 11]);
    assert!(section.is_valid());
}

#[test]
fn a_claimed_section_cannot_be_claimed_again() {
    let mut shared = initialized();
    let section = shared.get_section(3);
    assert!(!shared.is_claimable(3));
    assert!(shared.is_claimed(3));
    // The others are not touched.
    assert!(shared.is_claimable(0));
    assert!(shared.is_claimable(1));
    assert!(shared.is_claimable(2));
    // Nor after its release: nothing makes it available again.
    shared.notify_completed(section, 3);
    assert!(!shared.is_claimable(3));
    assert!(!shared.is_claimed(3));
    shared.initialize();
    assert!(!shared.is_claimable(3));
}

#[test]
fn notify_completed_counts_each_release() {
    let mut shared = initialized();
    for (count, idx) in [2usize, 0, 3, 1].into_iter().enumerate() {
        assert_eq!(shared.completed(), count);
        assert!(!shared.is_complete());
        let section = shared.get_section(idx);
        assert_eq!(shared.completed(), count);
        shared.notify_completed(section, idx);
        assert_eq!(shared.completed(), count + 1);
    }
    assert!(shared.is_complete());
}

#[test]
fn all_participants_complete_and_the_matrix_can_be_read() {
    let mut shared = initialized();
    for idx in [3usize, 1, 0, 2] {
        assert!(shared.is_claimable(idx));
        shared.compute(add_ten, idx);
    }
    assert_eq!(shared.completed(), 4);
    assert!(shared.is_complete());
    let mut expected = NUMBERS;
    for value in expected.iter_mut() {
        *value += 10;
    }
    assert_eq!(*shared.matrix().data(), expected);
}

#[test]
fn the_matrix_is_not_complete_while_a_section_is_out() {
    let mut shared = initialized();
    shared.compute(add_ten, 0);
    shared.compute(add_ten, 1);
    shared.compute(add_ten, 2);
    let last = shared.get_section(3);
    assert_eq!(shared.completed(), 3);
    assert!(!shared.is_complete());
    shared.notify_completed(last, 3);
    assert!(shared.is_complete());
}

#[test]
fn released_numbers_go_to_their_own_part_of_the_matrix() {
    let mut shared = Shared::new(Matrix::zeroes());
    shared.initialize();
    let section = shared.get_section(1);
    let changed = MatrixSection::new([1, 2, 3, 4], 4, 4, section.section_number());
    shared.notify_completed(changed, 1);
    for idx in [0usize, 2, 3] {
        let untouched = shared.get_section(idx);
        assert_eq!(*untouched.data(), [0; 4]);
        shared.notify_completed(untouched, idx);
    }
    assert!(shared.is_complete());
    assert_eq!(*shared.matrix().data(), [0, 0, 0, 0, 1, 2, 3, 4, 0, 0, 0, 0, 0, 0, 0, 0]);
}

#[test]
fn compute_multiply_in_four_sections_equals_single_section() {
    let a: Matrix<4, 16, 16, 1> = Matrix::from_slice(NUMBERS);
    let b: Matrix<4, 16, 16, 1> = Matrix::from_slice(NUMBERS);

    let mut parallel = Shared::new(Matrix::zeroes());
    for hart in 0..4 {
        parallel.initialize();
        parallel.compute(
            |mut section| {
                section.multiply(&a, &b);
                section
            },
            hart,
        );
    }
    assert!(parallel.is_complete());

    let mut sequential: SharedMatrix<4, 16, 16, 1> = SharedMatrix::new(Matrix::zeroes());
    sequential.initialize();
    sequential.compute(
        |mut section| {
            section.multiply(&a, &b);
            section
        },
        0,
    );
    assert!(sequential.is_complete());

    assert_eq!(*parallel.matrix().data(), PRODUCT_OF_NUMBERS);
    assert_eq!(*parallel.matrix().data(), *sequential.matrix().data());
}

#[test]
fn compute_convolution_in_four_sections() {
    let a: Matrix<4, 16, 4, 4> = Matrix::from_slice(NUMBERS);
    let kernel: Matrix<3, 9, 0, 0> = Matrix::from_slice([0, 1, 2, 3, 4, 5, 6, 7, 8]);
    let mut shared = Shared::new(Matrix::zeroes());
    shared.initialize();
    for hart in [1usize, 3, 2, 0] {
        shared.compute(
            |mut section| {
                section.convolute(&a, &kernel);
                section
            },
            hart,
        );
    }
    assert!(shared.is_complete());
    assert_eq!(*shared.matrix().data(), CONVOLUTION_OF_NUMBERS);
}

#[test]
fn a_coordinator_without_sections_is_complete_at_once() {
    let mut shared: SharedMatrix<0, 0, 0, 0> = SharedMatrix::new(Matrix::from_slice([]));
    shared.initialize();
    assert!(shared.is_initialized());
    assert!(shared.is_complete());
    assert!(!shared.is_claimable(0));
    assert_eq!(*shared.matrix().data(), []);
}
