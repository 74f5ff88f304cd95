use vibrato::{RingBuffer, ONE};

#[test]
fn fresh_ring_reads_zero() {
    for c in 1..6usize {
        let rb = RingBuffer::new(c);
        assert_eq!(rb.capacity(), c);
        assert_eq!(rb.get_frac(0), 0);
        assert_eq!(rb.get_frac(3 * ONE as u64 + 100), 0);
    }
}

#[test]
fn newest_and_previous_after_wrapping() {
    let mut rb = RingBuffer::new(3);
    for x in 1..=7 {
        rb.push(x * 10);
    }
    assert_eq!(rb.get_frac(0), 70);
    assert_eq!(rb.get_frac(ONE as u64), 60);
    assert_eq!(rb.get_frac(2 * ONE as u64), 50);
    // Three samples back wraps to the newest again.
    assert_eq!(rb.get_frac(3 * ONE as u64), 70);
    assert_eq!(rb.get(1), 60);
    assert_eq!(rb.get(4), 60);
}

#[test]
fn fractional_read_interpolates() {
    let mut rb = RingBuffer::new(4);
    rb.push(100);
    rb.push(200);
    // A quarter of the way from the newest (200) to the one before (100).
    assert_eq!(rb.get_frac((ONE / 4) as u64), 175);
    assert_eq!(rb.get_frac((ONE / 2) as u64), 150);
    // Negative values round down.
    let mut rb = RingBuffer::new(2);
    rb.push(-3);
    rb.push(0);
    assert_eq!(rb.get_frac((ONE / 2) as u64), -2);
}

#[test]
fn interpolation_wraps_past_the_oldest() {
    let mut rb = RingBuffer::new(3);
    for x in [1, 2, 3] {
        rb.push(x * 1000);
    }
    // Between the oldest (1000) and, wrapping, the newest (3000).
    assert_eq!(rb.get_frac(2 * ONE as u64 + (ONE / 2) as u64), 2000);
}

#[test]
fn reset_silences() {
    let mut rb = RingBuffer::new(3);
    rb.push(5);
    rb.push(6);
    rb.reset();
    assert_eq!(rb.get_frac(0), 0);
    assert_eq!(rb.get_frac(ONE as u64), 0);
    rb.push(9);
    assert_eq!(rb.get_frac(0), 9);
    assert_eq!(rb.get_frac(ONE as u64), 0);
}
