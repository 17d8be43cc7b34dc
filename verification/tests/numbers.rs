//! Numbers by their bits, in decimal and in order.
use demoscope::ieee::{is_finite, order_key};
use demoscope::number::{fixed, json_f32};

struct Rng(u64);

impl Rng {
    fn next(&mut self) -> u64 {
        self.0 ^= self.0 << 13;
        self.0 ^= self.0 >> 7;
        self.0 ^= self.0 << 17;
        self.0
    }
}

fn check_fixed(bits: u32) {
    let v = f32::from_bits(bits);
    for places in 1..=4u32 {
        let want = format!("{:.1$}", v, places as usize);
        assert_eq!(fixed(bits, places), want, "{bits:#x} with {places} places");
    }
}

#[test]
fn numbers_are_written_as_the_machine_writes_them() {
    let mut r = Rng(0x1234_5678_9abc_def1);
    for _ in 0..20_000 {
        check_fixed(r.next() as u32);
    }
    for e in 0..=255u32 {
        for f in [0, 1, 0x40_0000, 0x7f_ffff, 0x55_5555] {
            check_fixed(e << 23 | f);
            check_fixed(1 << 31 | e << 23 | f);
        }
    }
}

#[test]
fn halves_go_to_the_even_digit() {
    assert_eq!(fixed(0.25f32.to_bits(), 1), "0.2");
    assert_eq!(fixed(0.75f32.to_bits(), 1), "0.8");
    assert_eq!(fixed(0.125f32.to_bits(), 2), "0.12");
    assert_eq!(fixed(0.375f32.to_bits(), 2), "0.38");
    assert_eq!(fixed(2.5f32.to_bits(), 1), "2.5");
    assert_eq!(fixed(0.0625f32.to_bits(), 3), "0.062");
}

#[test]
fn written_numbers_are_near() {
    let mut r = Rng(99);
    for _ in 0..2000 {
        let v = (r.next() as i32) as f32 / 65536.0;
        let back: f64 = fixed(v.to_bits(), 3).parse().unwrap();
        assert!((back - v as f64).abs() <= 0.0005 + 1e-9);
    }
}

#[test]
fn odd_numbers_have_names() {
    assert_eq!(fixed(f32::NAN.to_bits(), 2), "NaN");
    assert_eq!(fixed(f32::INFINITY.to_bits(), 2), "inf");
    assert_eq!(fixed(f32::NEG_INFINITY.to_bits(), 2), "-inf");
    assert_eq!(json_f32(f32::INFINITY.to_bits()), "inf");
    assert_eq!(json_f32((-0.0f32).to_bits()), "-0");
    assert_eq!(fixed(f32::MAX.to_bits(), 1), "340282346638528859811704183484516925440.0");
}

#[test]
fn json_numbers_lose_their_zeros() {
    for (v, text) in [
        (0.0f32, "0"),
        (1.0, "1"),
        (100.0, "100"),
        (-12.5, "-12.5"),
        (3.14159, "3.142"),
        (0.0004, "0"),
        (1000.25, "1000.25"),
        (0.1, "0.1"),
    ] {
        assert_eq!(json_f32(v.to_bits()), text);
    }
}

#[test]
fn keys_order_numbers() {
    let mut r = Rng(7);
    for _ in 0..5000 {
        let (a, b) = (r.next() as u32, r.next() as u32);
        let (x, y) = (f32::from_bits(a), f32::from_bits(b));
        assert_eq!(is_finite(a), x.is_finite());
        if x.is_finite() && y.is_finite() {
            assert_eq!(order_key(a) < order_key(b), x < y);
            assert_eq!(order_key(a) == order_key(b), x == y);
        }
    }
}
