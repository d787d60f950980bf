use music_syn::streamop::{CombinedStream, IterStream, Op, Stream};
use music_syn::soundprim::stereo_channels_iter;
use music_syn::types::{sat_add, scale};

#[test]
fn iter_stream_reports_remaining_length() {
    let mut s = IterStream::new(vec![1, 2, 3, 4]);
    assert_eq!(s.len(), 4);
    let mut out = vec![0; 3];
    s.take(&mut out, 3, Op::Store);
    assert_eq!(s.len(), 1);
}

#[test]
fn take_store_copies_samples() {
    let mut s = IterStream::new(vec![5, 6, 7]);
    let mut out = vec![9, 9, 9, 9];
    s.take(&mut out, 3, Op::Store);
    assert_eq!(out, vec![5, 6, 7, 9]);
}

#[test]
fn take_add_accumulates() {
    let mut s = IterStream::new(vec![5, 6, 7]);
    let mut out = vec![10, 10, 10];
    s.take(&mut out, 2, Op::Add);
    // Only the first two slots are combined; the third is untouched and
    // sample 7 is still pending.
    assert_eq!(out, vec![15, 16, 10]);
    assert_eq!(s.len(), 1);
}

#[test]
fn take_mul_is_fixed_point() {
    // Mul treats one operand as a per-mille gain: 2000 * 500 / 1000 = 1000.
    let mut s = IterStream::new(vec![500]);
    let mut out = vec![2000];
    s.take(&mut out, 1, Op::Mul);
    assert_eq!(out, vec![1000]);
}

#[test]
fn combined_stream_truncates_to_shorter_operand() {
    let a = IterStream::new(vec![1, 2, 3, 4, 5]);
    let b = IterStream::new(vec![10, 20]);
    let c = CombinedStream::new(a, Op::Add, b);
    // The combination is exhausted with the shorter operand even though
    // the longer has samples left.
    assert_eq!(c.len(), 2);
}

#[test]
fn combined_stream_combines_elementwise() {
    let a = IterStream::new(vec![1, 2, 3]);
    let b = IterStream::new(vec![10, 20, 30]);
    let mut c = CombinedStream::new(a, Op::Add, b);
    let mut out = vec![0, 0, 0];
    c.take(&mut out, 3, Op::Store);
    assert_eq!(out, vec![11, 22, 33]);
}

#[test]
fn combined_stream_respects_outer_op() {
    let a = IterStream::new(vec![1, 2]);
    let b = IterStream::new(vec![10, 20]);
    let mut c = CombinedStream::new(a, Op::Add, b);
    let mut out = vec![100, 100];
    c.take(&mut out, 2, Op::Add);
    assert_eq!(out, vec![111, 122]);
}

#[test]
fn sat_add_clamps_at_bounds() {
    assert_eq!(sat_add(1, 2), 3);
    assert_eq!(sat_add(i32::MAX, 1), i32::MAX);
    assert_eq!(sat_add(i32::MIN, -1), i32::MIN);
}

#[test]
fn scale_truncates_toward_zero() {
    assert_eq!(scale(999, 1), 0);
    assert_eq!(scale(-999, 1), 0);
    assert_eq!(scale(1500, 1000), 1500);
    assert_eq!(scale(-1500, 500), -750);
}

#[test]
fn stereo_pairs_interleaved_buffer() {
    let v: Vec<i16> = vec![1, 2, 3, 4, 5, 6];
    let pairs = stereo_channels_iter(&v);
    assert_eq!(pairs, vec![(1, 2), (3, 4), (5, 6)]);
}
