use novafractal::gpu::device::{
    check_batch, check_colors, check_destination, equalize_histogram, needs_alloc, needs_palette,
    use_single_kernel, SizeError,
};
use novafractal::gpu::fractal_compute::{FractalCompute, OrbitTooLong, MAX_ORBIT};
use novafractal::gpu::launch::{
    frame_cfg, linear_cfg, morton_cfg, next_power_of_two, upload_tiles,
};
use novafractal::gpu::uniforms::{buffer_bytes, frame_words, PerturbUniforms, Uniforms};
use std::cell::Cell;

#[test]
fn threads_in_a_line() {
    let c = linear_cfg(1000);
    assert_eq!((c.block_dim, c.grid_dim), ((256, 1, 1), (4, 1, 1)));
    assert_eq!(linear_cfg(1024).grid_dim, (4, 1, 1));
    assert_eq!(linear_cfg(1025).grid_dim, (5, 1, 1));
    assert_eq!(linear_cfg(0).grid_dim, (0, 1, 1));
    assert_eq!(linear_cfg(u32::MAX).grid_dim, (16_777_216, 1, 1));
}

#[test]
fn threads_of_a_frame() {
    let c = frame_cfg(1920, 1080);
    assert_eq!((c.block_dim, c.grid_dim), ((16, 16, 1), (120, 68, 1)));
    assert_eq!(frame_cfg(1, 17).grid_dim, (1, 2, 1));
}

#[test]
fn powers_of_two() {
    for (m, dim) in [(1, 1), (2, 2), (3, 4), (1000, 1024), (1024, 1024), (1025, 2048)] {
        assert_eq!(next_power_of_two(m), dim);
    }
    assert_eq!(next_power_of_two(0x8000_0000), 0x8000_0000);
}

#[test]
fn threads_along_a_curve() {
    let c = morton_cfg(1920, 1080);
    assert_eq!((c.block_dim, c.grid_dim), ((16, 16, 1), (2048 * 2048 / 256, 1, 1)));
    assert_eq!(morton_cfg(3, 5).grid_dim, (1, 1, 1));
    assert_eq!(morton_cfg(0, 0).grid_dim, (1, 1, 1));
    assert_eq!(morton_cfg(17, 2).grid_dim, (4, 1, 1));
}

#[test]
fn batch_of_tiles() {
    assert!(upload_tiles::<4>(&Vec::new()).is_none());
    let u = upload_tiles(&vec![[1, 2, 33, 4], [5, 6, 7, 18]]).unwrap();
    assert_eq!(u.flat, vec![1, 2, 33, 4, 5, 6, 7, 18]);
    assert_eq!((u.cfg.block_dim, u.cfg.grid_dim), ((16, 16, 1), (3, 2, 2)));
    let u = upload_tiles(&vec![[1, 2, 16, 16, 900]]).unwrap();
    assert_eq!(u.flat, vec![1, 2, 16, 16, 900]);
    assert_eq!(u.cfg.grid_dim, (1, 1, 1));
}

#[test]
fn bytes_of_words() {
    let bytes = buffer_bytes(&vec![0x0403_0201, 0xffff_fffe]);
    let mut want = 0x0403_0201u32.to_ne_bytes().to_vec();
    want.extend_from_slice(&0xffff_fffeu32.to_ne_bytes());
    assert_eq!(bytes, want);
    assert!(buffer_bytes(&Vec::new()).is_empty());
}

#[test]
fn constants_of_a_frame() {
    let u = Uniforms {
        re_start: 1, im_start: 2, re_step: 3, im_step: 4, julia_cr: 5, julia_ci: 6,
        max_iter: 7, fractal: 8, width: 9, height: 10,
    };
    assert_eq!(u.words(), vec![1, 2, 3, 4, 5, 6, 7, 8, 9, 10, 0, 0]);
    let bytes = u.bytes();
    assert_eq!(bytes.len(), 48);
    assert_eq!(bytes[36..40], 10u32.to_ne_bytes());
}

#[test]
fn constants_of_a_followed_frame() {
    let u = PerturbUniforms {
        re_start: 1, im_start: 2, re_step: 3, im_step: 4, ref_re: 5, ref_im: 6,
        orbit_len: 7, max_iter: 8, width: 9, height: 10,
    };
    assert_eq!(u.words(), vec![1, 2, 3, 4, 5, 6, 7, 8, 9, 10, 0, 0]);
    assert_eq!(u.bytes().len(), 48);
    assert_eq!(u.bytes()[24..28], 7u32.to_ne_bytes());
}

#[test]
fn sizes_of_a_shader() {
    let c = FractalCompute::new(100, 50);
    assert_eq!((c.width(), c.height()), (100, 50));
    assert_eq!(c.pixel_bytes(), 20_000);
    assert_eq!(c.orbit_bytes(), 4 * 8193);
    assert_eq!(c.workgroups(), (7, 4, 1));
    assert_eq!(c.check_orbit(8192), Ok(()));
    assert_eq!(c.check_orbit(8193), Err(OrbitTooLong { orbit_len: 8193, max_len: 8192 }));
    assert_eq!(MAX_ORBIT, 8193);
}

#[test]
fn zoom_is_asked_only_where_it_matters() {
    let asked = Cell::new(0);
    let shallow = |_: ()| -> u64 {
        asked.set(asked.get() + 1);
        10.0f64.to_bits()
    };
    assert!(use_single_kernel(0, &shallow));
    assert!(use_single_kernel(1, &shallow));
    assert!(!use_single_kernel(2, &shallow));
    assert!(!use_single_kernel(3, &shallow));
    assert_eq!(asked.get(), 2);
    let deep = |_: ()| -> u64 { 1e6f64.to_bits() };
    assert!(!use_single_kernel(0, &deep));
}

#[test]
fn buffers_grow() {
    assert!(needs_alloc(None, 0));
    assert!(needs_alloc(Some(4), 5));
    assert!(!needs_alloc(Some(5), 5));
}

#[test]
fn sizes_are_checked() {
    assert_eq!(check_destination(12, 4, 3), Ok(()));
    assert_eq!(check_destination(13, 4, 3), Err(SizeError::Destination { len: 13, wanted: 12 }));
    assert_eq!(check_batch(12, 4, 3, 0), Ok(12));
    assert_eq!(check_batch(5, 4, 3, 9), Ok(9));
    assert_eq!(check_batch(13, 4, 3, 99), Err(SizeError::Batch { pixels: 13, frame: 12 }));
    assert_eq!(check_colors(48, 8192 * 4, 4, 3), Ok(8192));
    assert_eq!(check_colors(47, 8, 4, 3), Err(SizeError::Destination { len: 47, wanted: 48 }));
    assert_eq!(check_colors(48, 9, 4, 3), Err(SizeError::Palette { len: 9 }));
    assert_eq!(check_colors(32768 * 32768 * 4, 1024, 32768, 32768), Ok(256));
    assert_eq!(
        check_colors(4, 1024, 32768, 32768),
        Err(SizeError::Destination { len: 4, wanted: 32768 * 32768 * 4 })
    );
}

#[test]
fn palette_is_uploaded_once() {
    assert!(needs_palette(None, 0));
    assert!(needs_palette(Some(1), 0));
    assert!(!needs_palette(Some(3), 3));
}

#[test]
fn device_histogram_is_equalized() {
    let quotient = |(a, b): (u64, u64)| -> u32 { (a * 100 / b) as u32 };
    assert_eq!(equalize_histogram(&vec![1, 0, 3, 4], &quotient), vec![12, 12, 50, 100]);
    assert_eq!(equalize_histogram(&vec![0, 0], &quotient), vec![0, 0]);
    assert_eq!(equalize_histogram(&Vec::new(), &quotient), Vec::<u32>::new());
}

#[test]
fn words_of_bytes() {
    let mut bytes = 0x0403_0201u32.to_ne_bytes().to_vec();
    bytes.extend_from_slice(&0xffff_fffeu32.to_ne_bytes());
    assert_eq!(frame_words(&bytes), vec![0x0403_0201, 0xffff_fffe]);
    assert!(frame_words(&Vec::new()).is_empty());
    let words: Vec<u32> = (0..50u32).map(|i| i.wrapping_mul(0x9e37_79b9)).collect();
    assert_eq!(frame_words(&buffer_bytes(&words)), words);
}
