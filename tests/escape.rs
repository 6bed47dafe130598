use mandelbrot::mandelbrot::{escape_time_by, intensity, render_by, SizeMismatch, ITERATION_LIMIT};
use num::Complex;

fn has_escaped(z: Complex<f64>) -> bool {
    z.norm_sqr() > 4.0
}

fn orbit_step(z: Complex<f64>, c: Complex<f64>) -> Complex<f64> {
    z * z + c
}

fn zero() -> Complex<f64> {
    Complex { re: 0.0, im: 0.0 }
}

fn escape(c: Complex<f64>, limit: usize) -> Option<usize> {
    escape_time_by(zero(), c, limit, &has_escaped, &orbit_step)
}

fn corner_point(bounds: (usize, usize), col: usize, row: usize) -> Complex<f64> {
    let (ul, lr) = (Complex { re: -1.0, im: 1.0 }, Complex { re: 1.0, im: -1.0 });
    Complex {
        re: ul.re + col as f64 * (lr.re - ul.re) / bounds.0 as f64,
        im: ul.im - row as f64 * (ul.im - lr.im) / bounds.1 as f64,
    }
}

fn render_window(pixels: &mut [u8], bounds: (usize, usize)) -> Result<(), SizeMismatch> {
    let point = |col: usize, row: usize| corner_point(bounds, col, row);
    render_by(pixels, bounds, zero(), &point, &has_escaped, &orbit_step)
}

#[test]
fn escape_outside_radius_two() {
    for c in [
        Complex { re: 3.0, im: 0.0 },
        Complex { re: -2.5, im: 0.0 },
        Complex { re: 0.0, im: 2.1 },
        Complex { re: 1.5, im: 1.5 },
    ] {
        let r = escape(c, 50);
        assert!(matches!(r, Some(i) if i < 50));
    }
    assert_eq!(escape(Complex { re: 3.0, im: 0.0 }, 50), Some(1));
}

#[test]
fn escape_origin_never() {
    for limit in [1usize, 2, 50, 255, 1000] {
        assert_eq!(escape(zero(), limit), None);
    }
}

#[test]
fn escape_limit_zero() {
    assert_eq!(escape(zero(), 0), None);
    assert_eq!(escape(Complex { re: 10.0, im: 10.0 }, 0), None);
}

#[test]
fn escape_counts_steps() {
    // 0 -> 1 -> 2 -> 5: |5|^2 > 4 is seen at index 3
    assert_eq!(escape(Complex { re: 1.0, im: 0.0 }, 255), Some(3));
    assert_eq!(escape(Complex { re: 1.0, im: 0.0 }, 3), None);
    assert_eq!(escape(Complex { re: -1.0, im: 0.0 }, 255), None);
}

#[test]
fn escape_on_integers() {
    let grow = |z: u64| z > 100;
    let step = |z: u64, c: u64| z.saturating_mul(z).saturating_add(c);
    assert_eq!(escape_time_by(0u64, 2, 10, &grow, &step), Some(4));
    assert_eq!(escape_time_by(0u64, 0, 10, &grow, &step), None);
}

#[test]
fn intensity_encoding() {
    assert_eq!(intensity(None), 0);
    assert_eq!(intensity(Some(0)), 255);
    assert_eq!(intensity(Some(3)), 252);
    assert_eq!(intensity(Some(ITERATION_LIMIT - 1)), 1);
}

#[test]
fn render_rejects_wrong_length() {
    let mut pixels = vec![7u8; 5];
    let r = render_window(&mut pixels, (2, 3));
    assert_eq!(r, Err(SizeMismatch { buffer_len: 5, width: 2, height: 3 }));
    assert_eq!(pixels, vec![7u8; 5]);
    let mut big = vec![9u8; 4];
    assert!(render_window(&mut big, (usize::MAX, 2)).is_err());
    assert_eq!(big, vec![9u8; 4]);
}

#[test]
fn render_is_deterministic() {
    let mut a = vec![0u8; 12 * 8];
    let mut b = vec![1u8; 12 * 8];
    assert_eq!(render_window(&mut a, (12, 8)), Ok(()));
    assert_eq!(render_window(&mut b, (12, 8)), Ok(()));
    assert_eq!(a, b);
}

#[test]
fn render_writes_row_major_intensities() {
    let bounds = (10usize, 6usize);
    let mut pixels = vec![42u8; 60];
    assert_eq!(render_window(&mut pixels, bounds), Ok(()));
    for row in 0..bounds.1 {
        for col in 0..bounds.0 {
            let e = escape(corner_point(bounds, col, row), ITERATION_LIMIT);
            let byte = pixels[row * bounds.0 + col];
            assert_eq!(byte == 0, e.is_none());
            match e {
                None => assert_eq!(byte, 0),
                Some(i) => assert_eq!(byte as usize, 255 - i),
            }
        }
    }
    // the pixel at the centre is 0 + 0i, a member of the set
    assert_eq!(pixels[3 * 10 + 5], 0);
    // the upper-left corner -1 + i escapes
    assert!(pixels[0] > 0);
}
