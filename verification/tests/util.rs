use ptrack::note::note_position;
use ptrack::util::ThreeSmooth;
use ptrack::yin::YinParams;

#[test]
fn three_smooth_first_values() {
    let mut it = ThreeSmooth::new();
    let mut got = Vec::new();
    for _ in 0..20 {
        got.push(it.next().unwrap());
    }
    assert_eq!(
        got,
        vec![1, 2, 3, 4, 6, 6, 8, 9, 12, 12, 12, 16, 18, 18, 18, 24, 24, 24, 24, 27]
    );
}

#[test]
fn three_smooth_values_are_sorted_and_smooth() {
    let mut it = ThreeSmooth::new();
    let mut prev = 0;
    for _ in 0..500 {
        let v = it.next().unwrap();
        assert!(v >= prev);
        let mut n = v;
        while n % 2 == 0 {
            n /= 2;
        }
        while n % 3 == 0 {
            n /= 3;
        }
        assert_eq!(n, 1);
        prev = v;
    }
}

#[test]
fn padded_length_is_next_three_smooth() {
    let p = YinParams::new(0, 1);
    assert_eq!(p.fft_len(), 0);
    assert_eq!(p.fft_len_padded(), 1);
    let p = YinParams::new(10, 5);
    assert_eq!(p.fft_len(), 24);
    assert_eq!(p.fft_len_padded(), 24);
    let p = YinParams::new(10, 6);
    assert_eq!(p.fft_len(), 25);
    assert_eq!(p.fft_len_padded(), 27);
    let p = YinParams::new(3840, 3121);
    assert_eq!(p.fft_len(), 10800);
    assert_eq!(p.fft_len_padded(), 11664);
    assert_eq!(p.get_params(), (3840, 3121));
}

#[test]
fn lags_for_short_and_long_signals() {
    let p = YinParams::new(10, 6);
    assert_eq!(p.unused_lags(9), None);
    assert!(p.lag_span(9).is_none());
    assert_eq!(p.unused_lags(12), Some(0));
    assert_eq!(p.unused_lags(30), Some(15));
    let span = p.lag_span(12).unwrap();
    assert_eq!(span.max_lag, 2);
    assert_eq!(span.sig_len, 12);
    assert_eq!(span.sig_start, 0);
    assert_eq!(span.out_start, 25);
    let span = p.lag_span(30).unwrap();
    assert_eq!(span.max_lag, 5);
    assert_eq!(span.sig_len, 15);
    assert_eq!(span.sig_start, 15);
    assert_eq!(span.out_start, 22);
}

#[test]
fn note_positions() {
    assert_eq!(note_position(0), (0, 0));
    assert_eq!(note_position(13), (1, 1));
    assert_eq!(note_position(57), (9, 4));
    assert_eq!(note_position(-1), (11, -1));
    assert_eq!(note_position(-12), (0, -1));
    assert_eq!(note_position(-13), (11, -2));
}
