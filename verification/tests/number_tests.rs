use music_player::double::Double;
use music_player::single::Single;
use music_player::time::Duration;

fn s(x: f32) -> Single {
    Single::from_bits(x.to_bits())
}

fn f(x: Single) -> f32 {
    f32::from_bits(x.to_bits())
}

fn d(x: f64) -> Double {
    Double { bits: x.to_bits() }
}

fn g(x: Double) -> f64 {
    f64::from_bits(x.bits)
}

fn same(a: f32, b: f32) -> bool {
    (a.is_nan() && b.is_nan()) || a.to_bits() == b.to_bits()
}

fn same_double(a: f64, b: f64) -> bool {
    (a.is_nan() && b.is_nan()) || a.to_bits() == b.to_bits()
}

struct Random(u64);

impl Random {
    fn next(&mut self) -> u64 {
        self.0 ^= self.0 << 13;
        self.0 ^= self.0 >> 7;
        self.0 ^= self.0 << 17;
        self.0
    }

    fn single(&mut self) -> f32 {
        let bits = self.next();
        match bits % 4 {
            0 => f32::from_bits((bits >> 32) as u32),
            1 => (bits >> 40) as f32 / 4096.0 - 2000.0,
            2 => f32::from_bits(0x3f00_0000 + ((bits >> 32) as u32 % 0x0100_0000)),
            _ => special((bits >> 32) as usize),
        }
    }

    fn double(&mut self) -> f64 {
        let bits = self.next();
        match bits % 3 {
            0 => f64::from_bits(self.next()),
            1 => (self.next() >> 20) as f64 / 65536.0,
            _ => self.single() as f64,
        }
    }
}

fn special(index: usize) -> f32 {
    let list = [
        0.0,
        -0.0,
        1.0,
        -1.0,
        0.5,
        f32::INFINITY,
        f32::NEG_INFINITY,
        f32::NAN,
        f32::MAX,
        f32::MIN,
        f32::MIN_POSITIVE,
        f32::from_bits(1),
        f32::from_bits(0x8000_0001),
        f32::from_bits(0x007f_ffff),
        16_777_216.0,
        1.5,
        2.5,
        0.1,
    ];
    list[index % list.len()]
}

#[test]
fn sums_and_differences_agree_with_the_machine() {
    let mut random = Random(0x1234_5678_9abc_def1);
    for _ in 0..200_000 {
        let (a, b) = (random.single(), random.single());
        assert!(same(f(s(a).plus(s(b))), a + b), "{a} + {b}");
        assert!(same(f(s(a).minus(s(b))), a - b), "{a} - {b}");
    }
}

#[test]
fn products_agree_with_the_machine() {
    let mut random = Random(0x9876_5432_10fe_dcb1);
    for _ in 0..200_000 {
        let (a, b) = (random.single(), random.single());
        assert!(same(f(s(a).times(s(b))), a * b), "{a} * {b}");
    }
}

#[test]
fn quotients_agree_with_the_machine() {
    let mut random = Random(0x0f0f_1e1e_2d2d_3c3d);
    for _ in 0..100_000 {
        let (a, b) = (random.single(), random.single());
        assert!(same(f(s(a).over(s(b))), a / b), "{a} / {b}");
    }
}

#[test]
fn roots_agree_with_the_machine() {
    let mut random = Random(0x55aa_55aa_1234_4321);
    for _ in 0..50_000 {
        let a = random.single();
        assert!(same(f(s(a).sqrt()), a.sqrt()), "sqrt {a}");
    }
}

#[test]
fn order_agrees_with_the_machine() {
    let mut random = Random(0x1357_9bdf_0246_8ace);
    for _ in 0..200_000 {
        let (a, b) = (random.single(), random.single());
        assert_eq!(s(a).less(s(b)), a < b);
        assert_eq!(s(a).at_most(s(b)), a <= b);
        assert_eq!(s(a).same_value(s(b)), a == b);
        assert_eq!(s(a) == s(b), a == b);
        assert_eq!(s(a).is_nan(), a.is_nan());
        assert_eq!(f(s(a).max(s(b))) == a.max(b), !(a.is_nan() && b.is_nan()));
        assert_eq!(f(s(a).min(s(b))) == a.min(b), !(a.is_nan() && b.is_nan()));
        assert!(same(f(s(a).abs()), a.abs()));
        assert!(same(f(s(a).negated()), -a));
        if a <= b {
            let c = random.single();
            assert!(same(f(s(c).clamp(s(a), s(b))), c.clamp(a, b)));
        }
    }
}

#[test]
fn whole_numbers_agree_with_the_machine() {
    let mut random = Random(0xfeed_beef_1234_5679);
    for _ in 0..100_000 {
        let a = random.single();
        assert_eq!(s(a).to_word(), a as u64, "{a}");
        assert_eq!(s(a).round_to_word(), a.round() as u64, "{a}");
        let n = random.next() >> (random.next() % 64);
        assert_eq!(f(Single::of_word(n)), n as f32);
        assert_eq!(g(Double::of_word(n)), n as f64);
        let i = n as i32;
        assert_eq!(f(Single::of_int(i)), i as f32);
    }
    assert_eq!(f(Single::of_int(i32::MIN)), i32::MIN as f32);
}

#[test]
fn doubles_agree_with_the_machine() {
    let mut random = Random(0x2468_ace0_1357_9bdf);
    for _ in 0..50_000 {
        let (a, b) = (random.double(), random.double());
        assert!(same_double(g(d(a).plus(d(b))), a + b), "{a} + {b}");
        assert!(same_double(g(d(a).over(d(b))), a / b), "{a} / {b}");
        assert!(same_double(g(d(a).sqrt()), a.sqrt()), "sqrt {a}");
        assert!(same(f(d(a).to_single()), a as f32), "{a} to single");
        let c = random.single();
        assert!(same_double(g(Double::of_single(s(c))), c as f64), "{c} to double");
    }
}

#[test]
fn durations_agree_with_the_standard_ones() {
    let mut random = Random(0x7777_1234_0000_4321);
    for _ in 0..50_000 {
        let a = random.double();
        let expected = std::time::Duration::try_from_secs_f64(a).ok();
        let got = Duration::from_seconds(d(a));
        assert_eq!(
            got.map(|x| (x.seconds, x.nanos)),
            expected.map(|x| (x.as_secs(), x.subsec_nanos())),
            "{a}"
        );
        if let (Some(x), Some(y)) = (got, expected) {
            assert_eq!(f(x.as_seconds()), y.as_secs_f32());
        }
    }
    assert!(Duration::zero().is_zero());
    assert!(!Duration::from_secs(1).is_zero());
}
