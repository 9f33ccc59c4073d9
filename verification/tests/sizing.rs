use cli_bloom::sizing::{filter_size, ErrorRate};

fn rate(value: f32) -> ErrorRate {
    ErrorRate::from_bits(value.to_bits()).unwrap()
}

#[test]
fn rates_lie_above_zero_and_below_one() {
    assert!(ErrorRate::from_bits(0.0f32.to_bits()).is_none());
    assert!(ErrorRate::from_bits(1.0f32.to_bits()).is_none());
    assert!(ErrorRate::from_bits(1.5f32.to_bits()).is_none());
    assert!(ErrorRate::from_bits((-0.5f32).to_bits()).is_none());
    assert!(ErrorRate::from_bits((-0.0f32).to_bits()).is_none());
    assert!(ErrorRate::from_bits(f32::NAN.to_bits()).is_none());
    assert!(ErrorRate::from_bits(f32::INFINITY.to_bits()).is_none());
    assert!(ErrorRate::from_bits(0.99999994f32.to_bits()).is_some());
    assert!(ErrorRate::from_bits(1).is_some());
    assert_eq!(0.01f32.to_bits(), rate(0.01).to_bits());
}

#[test]
fn a_document_without_tokens_gets_one_bit_and_one_probe() {
    assert_eq!((1, 1), filter_size(0, rate(0.01)));
    assert_eq!((1, 1), filter_size(0, rate(0.5)));
}

#[test]
fn sizes_have_their_exact_values() {
    assert_eq!((5, 3), filter_size(1, rate(0.1)));
    assert_eq!((20, 3), filter_size(4, rate(0.1)));
    assert_eq!((480, 3), filter_size(100, rate(0.1)));
    assert_eq!((10, 7), filter_size(1, rate(0.01)));
    assert_eq!((29, 7), filter_size(3, rate(0.01)));
    assert_eq!((959, 7), filter_size(100, rate(0.01)));
    assert_eq!((24, 17), filter_size(1, rate(0.00001)));
    assert_eq!((2397, 17), filter_size(100, rate(0.00001)));
    assert_eq!((2, 1), filter_size(1, rate(0.5)));
    assert_eq!((145, 1), filter_size(100, rate(0.5)));
    assert_eq!((14377588, 10), filter_size(1_000_000, rate(0.001)));
}

#[test]
fn sizes_follow_the_optimum() {
    for value in [0.3f32, 0.1, 0.05, 0.01, 0.001, 0.00001] {
        for tokens in [1usize, 2, 3, 10, 57, 1000, 123_456] {
            let bits = (-(tokens as f64) * (value as f64).ln() / 2f64.ln().powi(2)).ceil();
            let probes = (bits / tokens as f64 * 2f64.ln()).round();
            assert_eq!((bits as usize, probes as usize), filter_size(tokens, rate(value)));
        }
    }
}

#[test]
fn the_smallest_rate_is_sized_too() {
    let (bits, probes) = filter_size(10, ErrorRate::from_bits(1).unwrap());
    assert_eq!(2150, bits);
    assert_eq!(149, probes);
}
