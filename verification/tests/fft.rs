use dsp::fft::{FftWindow, FFT_BUFFER_SIZE};

#[test]
fn new_window_is_silent() {
    let w = FftWindow::new(0i32);
    let o = w.ordered().to_vec();
    assert_eq!(o.len(), FFT_BUFFER_SIZE);
    assert!(o.iter().all(|&x| x == 0));
}

#[test]
fn pushed_samples_come_last() {
    let mut w = FftWindow::new(0i32);
    w.push(1);
    w.push(2);
    w.push(3);
    let o = w.ordered().to_vec();
    assert_eq!(o.len(), FFT_BUFFER_SIZE);
    assert_eq!(&o[FFT_BUFFER_SIZE - 3..], &[1, 2, 3]);
    assert!(o[..FFT_BUFFER_SIZE - 3].iter().all(|&x| x == 0));
}

#[test]
fn window_keeps_newest_samples_oldest_first() {
    let mut w = FftWindow::new(-1i32);
    let total = FFT_BUFFER_SIZE as i32 + 100;
    for x in 0..total {
        w.push(x);
    }
    let o = w.ordered().to_vec();
    let expected: Vec<i32> = (100..total).collect();
    assert_eq!(o, expected);
}

#[test]
fn window_wraps_exactly() {
    let mut w = FftWindow::new(0u8);
    for k in 0..FFT_BUFFER_SIZE {
        w.push((k % 251) as u8);
    }
    let o = w.ordered().to_vec();
    let expected: Vec<u8> = (0..FFT_BUFFER_SIZE).map(|k| (k % 251) as u8).collect();
    assert_eq!(o, expected);
}
