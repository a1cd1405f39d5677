use std::collections::HashSet;

use quickcheck::{quickcheck, Arbitrary, Gen, TestResult};

use loglux::stepper::{brightness_at, current_step, Bounded, MockBounded, Stepper};

type BaseNum = u16;

const MAX_MAX: BaseNum = 1 << 12;

#[derive(Copy, Clone, Debug)]
struct ArbModel(MockBounded);

impl Arbitrary for ArbModel {
    fn arbitrary(g: &mut Gen) -> Self {
        let current = BaseNum::arbitrary(g) % MAX_MAX;
        ArbModel(MockBounded {
            current: current as u64,
            max: (current + BaseNum::arbitrary(g) % MAX_MAX) as u64,
            num_steps: (BaseNum::arbitrary(g) % MAX_MAX) as u64,
        })
    }
}

fn step_up_higher(sut: ArbModel) -> TestResult {
    TestResult::from_bool(sut.0.step_up() >= sut.0.current())
}

#[test]
fn test_step_up_higher() {
    quickcheck(step_up_higher as fn(_) -> TestResult);
}

fn step_down_lower(sut: ArbModel) -> TestResult {
    TestResult::from_bool(sut.0.step_down() <= sut.0.current())
}

#[test]
fn test_step_down_lower() {
    quickcheck(step_down_lower as fn(_) -> TestResult);
}

fn step_invariantly(sut: ArbModel) -> TestResult {
    let mut sut = sut.0;
    if sut.num_steps == 0 {
        return TestResult::discard();
    }
    sut.current = 0;

    let mut up_set = HashSet::new();
    up_set.insert(0);
    while sut.current < sut.max {
        sut = sut.with_current(sut.step_up());
        up_set.insert(sut.current);
    }

    let mut down_set = HashSet::new();
    down_set.insert(sut.max);
    while sut.current > 0 {
        sut = sut.with_current(sut.step_down());
        down_set.insert(sut.current);
    }

    TestResult::from_bool(up_set.eq(&down_set))
}

#[test]
fn test_step_invariantly() {
    quickcheck(step_invariantly as fn(_) -> TestResult);
}

#[test]
fn boundary_up_from_darkness() {
    for (max, num_steps) in [(1u64, 1u64), (2, 1), (1000, 10), (4096, 75), (7, 3)] {
        let m = MockBounded { current: 0, max, num_steps };
        assert_eq!(m.step_up(), 1);
    }
}

#[test]
fn boundary_down_from_one() {
    for (max, num_steps) in [(1u64, 1u64), (2, 1), (1000, 10), (4096, 75), (7, 3)] {
        let m = MockBounded { current: 1, max, num_steps };
        assert_eq!(m.step_down(), 0);
    }
}

#[test]
fn clamping_within_range() {
    for max in [1u64, 2, 3, 10, 255, 1000, 4096] {
        for num_steps in [1u64, 2, 10, 75] {
            let mut current = 0;
            loop {
                let m = MockBounded { current, max, num_steps };
                let up = m.step_up();
                let down = m.step_down();
                assert!(up <= max);
                assert!(up >= current);
                assert!(down <= current);
                if current == max {
                    break;
                }
                current = if max - current > 17 { current + 17 } else { max };
            }
        }
    }
}

#[test]
fn scenario_thousand_in_ten_steps() {
    let mut m = MockBounded { current: 0, max: 1000, num_steps: 10 };
    assert_eq!(m.step_up(), 1);

    let mut ups = vec![0u64];
    while m.current < m.max {
        let next = m.step_up();
        assert!(next > m.current);
        assert!(next <= 1000);
        m = m.with_current(next);
        ups.push(next);
    }
    assert_eq!(*ups.last().unwrap(), 1000);

    let mut downs = vec![1000u64];
    while m.current > 0 {
        let next = m.step_down();
        assert!(next < m.current);
        m = m.with_current(next);
        downs.push(next);
    }
    assert_eq!(*downs.last().unwrap(), 0);

    downs.reverse();
    assert_eq!(ups, downs);
}

#[test]
fn scale_mapping_endpoints() {
    for (max, num_steps) in [(2u64, 1u64), (1000, 10), (4096, 75), (255, 20)] {
        // position 0 carries the smallest positive brightness, the last
        // position carries the maximum, and the mapping inverts itself
        assert_eq!(current_step(1, max, num_steps), 0);
        assert_eq!(current_step(max, max, num_steps), num_steps);
        assert_eq!(brightness_at(0, max, num_steps), 1);
        assert_eq!(brightness_at(num_steps, max, num_steps), max);
        let mut previous = 0u64;
        for s in 0..=num_steps.min(200) {
            let b = brightness_at(s, max, num_steps);
            assert!(b >= previous);
            assert!(current_step(b, max, num_steps) <= s);
            previous = b;
        }
    }
}

#[test]
fn with_current_leaves_original_untouched() {
    let m = MockBounded { current: 5, max: 100, num_steps: 10 };
    let derived = m.with_current(50);
    assert_eq!(m.current(), 5);
    assert_eq!(derived.current(), 50);
    assert_eq!(derived.max(), 100);
    assert_eq!(derived.num_steps(), 10);
}
