use oversampler::fft_convolve::{mul_inplace, FftConvolve};

#[test]
fn identity_kernel_convolve() {
    let kernel = vec![1, 0, 0, 0];
    let mut filter = FftConvolve::new(&kernel);
    assert_eq!(filter.buffer_size(), 4);
    let mut buf = vec![3, -7, 2, 9];
    filter.process(&mut buf);
    assert_eq!(buf, vec![3, -7, 2, 9]);
}

#[test]
fn shift_kernel_convolve() {
    // A one-tap delay kernel rotates the block cyclically by one.
    let kernel = vec![0, 1, 0, 0];
    let mut filter = FftConvolve::new(&kernel);
    let mut buf = vec![1, 2, 3, 4];
    filter.process(&mut buf);
    assert_eq!(buf, vec![4, 1, 2, 3]);
}

#[test]
fn dc_preserved_by_unit_sum_kernel() {
    // A kernel whose taps sum to one reproduces a constant block exactly.
    let kernel = vec![3, -1, -1, 0, 0, 0, 0, 0];
    let mut filter = FftConvolve::new(&kernel);
    let mut buf = vec![4; 8];
    filter.process(&mut buf);
    assert_eq!(buf, vec![4; 8]);
}

#[test]
fn shorter_buffer_is_zero_extended() {
    let kernel = vec![0, 1, 0, 0];
    let mut filter = FftConvolve::new(&kernel);
    let mut buf = vec![5, 6];
    filter.process(&mut buf);
    // Implicit signal [5, 6, 0, 0]; its rotation is [0, 5, 6, 0] and only
    // the first two samples are written back.
    assert_eq!(buf, vec![0, 5]);
}

#[test]
fn longer_buffer_tail_untouched() {
    let kernel = vec![0, 1, 0, 0];
    let mut filter = FftConvolve::new(&kernel);
    let mut buf = vec![1, 2, 3, 4, 77, 88];
    filter.process(&mut buf);
    assert_eq!(buf, vec![4, 1, 2, 3, 77, 88]);
}

#[test]
fn mul_inplace_pointwise() {
    let mut dest = vec![2, 3, -4];
    let factors = vec![4, 5, 6];
    mul_inplace(&mut dest, &factors);
    assert_eq!(dest, vec![8, 15, -24]);
}
