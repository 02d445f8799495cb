use oversampler::utils::{zero_out, zeros};

#[test]
fn test_zeros() {
    let data = zeros(16);
    assert_eq!(data.len(), 16);
    assert!(data.iter().all(|x| *x == 0));
}

#[test]
fn test_zero_out() {
    let mut data = vec![1; 16];
    zero_out(&mut data);
    assert!(data.iter().all(|x| *x == 0));
}
