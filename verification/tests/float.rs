use eyebrowse::float::{from_signed, from_unsigned, narrow, subtract, times_int, to_half, widen};
use half::f16;

/// A fixed stream of 64-bit patterns.
struct Stream(u64);

impl Stream {
    fn next(&mut self) -> u64 {
        self.0 ^= self.0 << 13;
        self.0 ^= self.0 >> 7;
        self.0 ^= self.0 << 17;
        self.0
    }
}

fn interesting() -> Vec<u32> {
    let mut v = vec![
        0, 1, 2, 0x7F_FFFF, 0x80_0000, 0x80_0001, 0x3F80_0000, 0x3F80_0001, 0x4000_0000,
        0x7F7F_FFFF, 0x7F80_0000, 0x3380_0000, 0x3300_0000, 0x4B80_0000,
    ];
    let negatives: Vec<u32> = v.iter().map(|b| b | 0x8000_0000).collect();
    v.extend(negatives);
    v
}

#[test]
fn products_with_small_integers_round_as_the_machine_does() {
    let mut s = Stream(0x9E37_79B9_7F4A_7C15);
    let mut cases = interesting();
    for _ in 0..20000 {
        cases.push(s.next() as u32);
    }
    for bits in cases {
        let x = f32::from_bits(bits);
        if x.is_nan() {
            continue;
        }
        for k in [-128i32, -33, -1, 0, 1, 2, 3, 7, 15, 31, 63, 127, 0x7F_FFFF] {
            let want = x * k as f32;
            let got = f32::from_bits(times_int(bits, k));
            if want.is_nan() {
                assert!(got.is_nan());
            } else {
                assert_eq!(got.to_bits(), want.to_bits(), "{} * {}", x, k);
            }
        }
    }
}

#[test]
fn differences_round_as_the_machine_does() {
    let mut s = Stream(0x0123_4567_89AB_CDEF);
    let mut pairs = Vec::new();
    for a in interesting() {
        for b in interesting() {
            pairs.push((a, b));
        }
    }
    for _ in 0..40000 {
        let a = s.next() as u32;
        let b = s.next() as u32;
        pairs.push((a, b));
        // Close exponents, where digits cancel.
        pairs.push((a, a ^ (b & 0x00FF_FFFF)));
    }
    for (a, b) in pairs {
        let want = f32::from_bits(a) - f32::from_bits(b);
        let got = f32::from_bits(subtract(a, b));
        if want.is_nan() {
            assert!(got.is_nan());
        } else {
            assert_eq!(got.to_bits(), want.to_bits(), "{:08x} - {:08x}", a, b);
        }
    }
}

#[test]
fn every_half_widens_as_the_half_crate_does() {
    for bits in 0..=u16::MAX {
        let want = f16::from_bits(bits).to_f32();
        let got = f32::from_bits(widen(bits));
        if want.is_nan() {
            assert!(got.is_nan());
        } else {
            assert_eq!(got.to_bits(), want.to_bits(), "{:04x}", bits);
        }
    }
}

#[test]
fn singles_halve_as_the_half_crate_does() {
    let mut s = Stream(0xDEAD_BEEF_CAFE_F00D);
    let mut cases = interesting();
    for bits in 0..=u16::MAX {
        // Every half and what lies just beside it and half-way to the next.
        let w = f16::from_bits(bits).to_f32().to_bits();
        cases.extend([w, w.wrapping_add(1), w.wrapping_sub(1), w.wrapping_add(0x1000)]);
    }
    for _ in 0..20000 {
        cases.push(s.next() as u32);
    }
    for bits in cases {
        let want = f16::from_f32(f32::from_bits(bits));
        let got = f16::from_bits(to_half(bits));
        if want.is_nan() {
            assert!(got.is_nan());
        } else {
            assert_eq!(got.to_bits(), want.to_bits(), "{:08x}", bits);
        }
    }
}

#[test]
fn every_half_comes_back_from_its_single() {
    for bits in 0..=u16::MAX {
        if !f16::from_bits(bits).is_nan() {
            assert_eq!(to_half(widen(bits)), bits);
        }
    }
}

#[test]
fn doubles_narrow_as_the_machine_does() {
    let mut s = Stream(0x5555_AAAA_1234_8765);
    let mut cases: Vec<f64> = vec![
        0.0, -0.0, 1e-6, 1e-5, 10000.0, 1e6, 1e39, -1e39, 1e-46, 7e-46, 1.5e-45, f64::INFINITY,
        f64::NEG_INFINITY, f64::MAX, f64::MIN_POSITIVE, 3.4028235677973366e38, 0.1, 1.0 / 3.0,
    ];
    for _ in 0..40000 {
        cases.push(f64::from_bits(s.next()));
        cases.push((s.next() as f64) / 1e9);
    }
    for x in cases {
        let want = x as f32;
        let got = f32::from_bits(narrow(x.to_bits()));
        if want.is_nan() {
            assert!(got.is_nan());
        } else {
            assert_eq!(got.to_bits(), want.to_bits(), "{}", x);
        }
    }
}

#[test]
fn integers_round_as_the_machine_does() {
    let mut s = Stream(0x1357_9BDF_0246_8ACE);
    let mut cases: Vec<u64> = vec![0, 1, 2, 0xFF_FFFF, 0x100_0001, 0x100_0003, u64::MAX, 1 << 63];
    for k in 0..64 {
        cases.push(s.next() >> k);
    }
    for n in cases {
        assert_eq!(from_unsigned(n), (n as f32).to_bits());
        assert_eq!(from_signed(n as i64), (n as i64 as f32).to_bits());
    }
}
