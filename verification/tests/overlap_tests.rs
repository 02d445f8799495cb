use oversampler::fft_convolve::{FftConvolve, FilterStage};
use oversampler::overlap_add::OverlapAdd;

#[test]
fn two_blocks_match_linear_convolution() {
    // Kernel [1, 1] (padded to the transform length 3), blocks [5, 0] and
    // [3, 4].  The first block's filter tail dies out (its last sample is
    // zero), so the stream equals one linear convolution of [5, 0, 3, 4]
    // with [1, 1], which is [5, 5, 3, 7, 4], sliced per block.
    let mut oadd = OverlapAdd::new(2, 1);
    let mut stage = FilterStage { conv: FftConvolve::new(&vec![1, 1, 0]) };

    let mut b1 = vec![5, 0];
    oadd.process(&mut b1, &mut stage);
    assert_eq!(b1, vec![5, 5]);

    let mut b2 = vec![3, 4];
    oadd.process(&mut b2, &mut stage);
    assert_eq!(b2, vec![3, 7]);
}

#[test]
fn first_block_slices_linear_convolution() {
    // One block from a reset carry always matches the linear convolution:
    // [0, 1] * [1, 1] = [0, 1, 1]; the output is the first two samples and
    // the tail is carried.
    let mut oadd = OverlapAdd::new(2, 1);
    let mut stage = FilterStage { conv: FftConvolve::new(&vec![1, 1, 0]) };
    let mut b = vec![0, 1];
    oadd.process(&mut b, &mut stage);
    assert_eq!(b, vec![0, 1]);
    assert_eq!(oadd.padding.as_slice(), &[1]);
}

#[test]
fn oversized_block_is_truncated() {
    // A block longer than the configured maximum is truncated to it: only
    // the first two samples are processed, the excess stays untouched, and
    // nothing crashes.
    let mut oadd = OverlapAdd::new(2, 1);
    let mut stage = FilterStage { conv: FftConvolve::new(&vec![0, 1, 0]) };
    let mut b = vec![1, 2, 3];
    oadd.process(&mut b, &mut stage);
    assert_eq!(b, vec![0, 1, 3]);
    assert_eq!(oadd.padding.as_slice(), &[2]);
}

#[test]
fn reset_clears_carried_tail() {
    let mut oadd = OverlapAdd::new(2, 1);
    let mut stage = FilterStage { conv: FftConvolve::new(&vec![1, 1, 0]) };
    let mut b = vec![0, 1];
    oadd.process(&mut b, &mut stage);
    assert_eq!(oadd.padding.as_slice(), &[1]);
    oadd.reset();
    assert_eq!(oadd.padding.as_slice(), &[0]);
    assert_eq!(oadd.padding(), 1);
}
