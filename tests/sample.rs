use dsp::sample::{
    add_samples, blend_into, blend_samples, fill_equilibrium, resize_buffer_to, sum_into,
    write_into,
};
use dsp::{Sample, EQUILIBRIUM, UNITY};

#[test]
fn add_saturates() {
    assert_eq!(add_samples(3, 4), 7);
    assert_eq!(add_samples(-3, 4), 1);
    assert_eq!(add_samples(i32::MAX, 1), i32::MAX);
    assert_eq!(add_samples(i32::MIN, -1), i32::MIN);
}

#[test]
fn blend_of_one_sample() {
    assert_eq!(blend_samples(1000, 0, UNITY, 0), 1000);
    assert_eq!(blend_samples(1000, 3000, 0, UNITY), 3000);
    assert_eq!(blend_samples(1000, 3000, UNITY / 2, UNITY / 2), 2000);
    assert_eq!(blend_samples(-3, 0, UNITY / 2, 0), -1);
    assert_eq!(blend_samples(3, 0, UNITY / 2, 0), 1);
    assert_eq!(blend_samples(i32::MAX, i32::MAX, u16::MAX, u16::MAX), i32::MAX);
    assert_eq!(blend_samples(i32::MIN, i32::MIN, u16::MAX, u16::MAX), i32::MIN);
}

#[test]
fn blend_buffers() {
    let mut out: [Sample; 2] = [1000, -1000];
    blend_into(&mut out, &[2000, 2000], UNITY / 2, UNITY / 4);
    assert_eq!(out, [1000, 0]);
}

#[test]
fn buffer_operations() {
    let mut b: [Sample; 3] = [1, 2, 3];
    fill_equilibrium(&mut b);
    assert_eq!(b, [EQUILIBRIUM; 3]);
    sum_into(&mut b, &[5, -5, i32::MAX]);
    sum_into(&mut b, &[1, 1, 1]);
    assert_eq!(b, [6, -4, i32::MAX]);
    write_into(&mut b, &[9, 8, 7]);
    assert_eq!(b, [9, 8, 7]);
}

#[test]
fn resize_keeps_prefix() {
    let mut v: Vec<Sample> = vec![4, 5];
    resize_buffer_to(&mut v, 4);
    assert_eq!(v, vec![4, 5, 0, 0]);
    resize_buffer_to(&mut v, 1);
    assert_eq!(v, vec![4]);
    resize_buffer_to(&mut v, 1);
    assert_eq!(v, vec![4]);
}
