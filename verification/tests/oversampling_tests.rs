use oversampler::math::sinc_filter_len;
use oversampler::oversampling::Oversample;
use oversampler::processor::{BlockProcessor, Bypass};

/// A stage that does nothing but record the length of the view it was
/// handed.
struct LenProbe {
    seen: Option<usize>,
}

impl BlockProcessor for LenProbe {
    type Output = usize;

    fn process_block(&mut self, buf: &mut Vec<i64>) -> usize {
        self.seen = Some(buf.len());
        buf.len()
    }
}

#[test]
fn callback_sees_oversampled_block() {
    // Factor 4, max block 16: a four-sample block is seen by the inner
    // stage as exactly 16 oversampled samples.
    let mut engine = Oversample::new(4, 16, &vec![1]);
    let mut probe = LenProbe { seen: None };
    let mut block = vec![-1, 1, 1, 0];
    let r = engine.with_oversample(&mut block, &mut probe);
    assert_eq!(probe.seen, Some(16));
    assert_eq!(r, 16);
}

#[test]
fn round_trip_scales_by_factor() {
    // With the one-tap identity kernel there is no filtering between the
    // zero-stuffing and the decimation, so the round trip hands every
    // sample back scaled by the factor.
    let mut engine = Oversample::new(4, 16, &vec![1]);
    let mut block = vec![-1, 1, 1, 0];
    engine.with_oversample(&mut block, &mut Bypass);
    assert_eq!(block, vec![-4, 4, 4, 0]);
}

#[test]
fn round_trip_identity_at_factor_one() {
    // At factor one the stuffing and decimation scalings cancel exactly.
    let mut engine = Oversample::new(1, 4, &vec![1]);
    let mut probe = LenProbe { seen: None };
    let mut block = vec![7, -2, 3];
    engine.with_oversample(&mut block, &mut probe);
    assert_eq!(block, vec![7, -2, 3]);
    assert_eq!(probe.seen, Some(3));
    assert_eq!(engine.latency_samples(), 0);
}

#[test]
fn two_filter_passes_apply_squared_kernel() {
    // Factor 1, kernel [1, 1]: one call filters twice, so the block [5, 0]
    // comes out as the first samples of [5, 0] * [1, 2, 1] = [5, 10, 5].
    let mut engine = Oversample::new(1, 2, &vec![1, 1]);
    let mut block = vec![5, 0];
    engine.with_oversample(&mut block, &mut Bypass);
    assert_eq!(block, vec![5, 10]);
}

#[test]
fn carried_tail_feeds_the_next_call() {
    // The carried padding is added into the head of the next call's input
    // and runs through both filter passes again.  Kernel [1, 1] at factor
    // 1: the first call on [5, 0] carries the tail 5; the second call on
    // silence sees [5, 0, 0] and filters it twice to [5, 10, 5].
    let mut engine = Oversample::new(1, 2, &vec![1, 1]);
    let mut block = vec![5, 0];
    engine.with_oversample(&mut block, &mut Bypass);
    assert_eq!(block, vec![5, 10]);
    let mut silence = vec![0, 0];
    engine.with_oversample(&mut silence, &mut Bypass);
    assert_eq!(silence, vec![5, 10]);
}

#[test]
fn latency_is_padding_over_factor() {
    // A nine-tap kernel carries eight oversampled samples of padding; at
    // factor 4 that is a two-sample delay at the input rate.
    let engine = Oversample::new(4, 4, &vec![0, 0, 0, 0, 1, 0, 0, 0, 0]);
    assert_eq!(engine.latency_samples(), 2);
}

#[test]
fn engine_sized_from_kernel_length_rule() {
    // The default transition bandwidth 8/100 calls for 51 taps; built at
    // factor 4 with blocks of 16, the engine carries 50 oversampled
    // samples of padding, a 12-sample delay at the input rate.
    let taps = sinc_filter_len(8, 100) as usize;
    assert_eq!(taps, 51);
    let mut kernel = vec![0; taps];
    kernel[0] = 1;
    let mut engine = Oversample::new(4, 16, &kernel);
    assert_eq!(engine.oadd.padding(), 50);
    assert_eq!(engine.latency_samples(), 12);
    let mut probe = LenProbe { seen: None };
    let mut block = vec![-1, 1, 1, 0];
    engine.with_oversample(&mut block, &mut probe);
    assert_eq!(probe.seen, Some(16));
    assert_eq!(block, vec![-4, 4, 4, 0]);
}

#[test]
fn reset_zeroes_carried_state() {
    let mut engine = Oversample::new(1, 2, &vec![1, 1]);
    let mut block = vec![5, 0];
    engine.with_oversample(&mut block, &mut Bypass);
    assert!(engine.oadd.padding.iter().any(|x| *x != 0));
    engine.reset();
    assert!(engine.oadd.padding.iter().all(|x| *x == 0));
}

#[test]
fn max_buffer_size_reports_configuration() {
    let engine = Oversample::new(4, 16, &vec![1]);
    assert_eq!(engine.max_buffer_size(), 16);
}
