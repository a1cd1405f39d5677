use loglux::controller::{best_candidate, parse_attr, render_attr, Controller};
use loglux::notify_percent;
use loglux::stepper::Bounded;

#[test]
fn selection_prefers_largest_max_brightness() {
    let orders: [[u64; 3]; 6] = [
        [255, 4096, 1023],
        [255, 1023, 4096],
        [4096, 255, 1023],
        [4096, 1023, 255],
        [1023, 255, 4096],
        [1023, 4096, 255],
    ];
    for order in orders {
        let maxes: Vec<Option<u64>> = order.iter().map(|&v| Some(v)).collect();
        let i = best_candidate(&maxes).expect("a candidate must win");
        assert_eq!(maxes[i], Some(4096));
    }
}

#[test]
fn selection_first_wins_ties() {
    let maxes = vec![Some(100u64), Some(4096), Some(4096), Some(7)];
    assert_eq!(best_candidate(&maxes), Some(1));
}

#[test]
fn selection_skips_unreadable_and_zero() {
    let maxes = vec![None, Some(0u64), None, Some(3), Some(2)];
    assert_eq!(best_candidate(&maxes), Some(3));
    assert_eq!(best_candidate(&vec![None, Some(0u64), None]), None);
    assert_eq!(best_candidate(&Vec::new()), None);
}

#[test]
fn parse_plain_and_padded_integers() {
    assert_eq!(parse_attr(b"1234"), Some(1234));
    assert_eq!(parse_attr(b"4096\n"), Some(4096));
    assert_eq!(parse_attr(b"  255\r\n  "), Some(255));
    assert_eq!(parse_attr(b"+42"), Some(42));
    assert_eq!(parse_attr(b"0"), Some(0));
    let mut padded = [b' '; 32];
    padded[..3].copy_from_slice(b"120");
    assert_eq!(parse_attr(&padded), Some(120));
}

#[test]
fn parse_rejects_garbled_reads() {
    assert_eq!(parse_attr(b""), None);
    assert_eq!(parse_attr(b"   \n"), None);
    assert_eq!(parse_attr(b"abc"), None);
    assert_eq!(parse_attr(b"12a"), None);
    assert_eq!(parse_attr(b"-5"), None);
    assert_eq!(parse_attr(b"+"), None);
    assert_eq!(parse_attr(b"1 2"), None);
}

#[test]
fn parse_respects_machine_limits() {
    assert_eq!(parse_attr(b"18446744073709551615"), Some(u64::MAX));
    assert_eq!(parse_attr(b"18446744073709551616"), None);
    assert_eq!(parse_attr(b"99999999999999999999"), None);
}

#[test]
fn brightness_path_joins_with_separator() {
    let c = Controller::new(b"/sys/class/backlight/intel_backlight".to_vec(), 4096, 100, 75);
    assert_eq!(c.brightness_path(), b"/sys/class/backlight/intel_backlight/brightness".to_vec());

    let trailing = Controller::new(b"/dev/lights/".to_vec(), 10, 1, 5);
    assert_eq!(trailing.brightness_path(), b"/dev/lights/brightness".to_vec());

    let empty = Controller::new(Vec::new(), 10, 1, 5);
    assert_eq!(empty.brightness_path(), b"brightness".to_vec());
}

#[test]
fn name_is_last_path_component() {
    let c = Controller::new(b"/sys/class/backlight/intel_backlight".to_vec(), 4096, 100, 75);
    assert_eq!(c.name(), Some(b"intel_backlight".to_vec()));

    let trailing = Controller::new(b"/sys/class/backlight/acpi_video0/".to_vec(), 255, 9, 75);
    assert_eq!(trailing.name(), Some(b"acpi_video0".to_vec()));

    let root = Controller::new(b"/".to_vec(), 255, 9, 75);
    assert_eq!(root.name(), None);
    let empty = Controller::new(Vec::new(), 255, 9, 75);
    assert_eq!(empty.name(), None);
}

#[test]
fn name_follows_dot_component_rules() {
    let dot = Controller::new(b"/sys/class/backlight/amdgpu_bl0/.".to_vec(), 255, 9, 75);
    assert_eq!(dot.name(), Some(b"amdgpu_bl0".to_vec()));

    let dot_slash = Controller::new(b"/sys/./".to_vec(), 255, 9, 75);
    assert_eq!(dot_slash.name(), Some(b"sys".to_vec()));

    let parent = Controller::new(b"/sys/class/..".to_vec(), 255, 9, 75);
    assert_eq!(parent.name(), None);

    let lone_dot = Controller::new(b".".to_vec(), 255, 9, 75);
    assert_eq!(lone_dot.name(), None);

    let dotted_name = Controller::new(b"/dev/..weird".to_vec(), 255, 9, 75);
    assert_eq!(dotted_name.name(), Some(b"..weird".to_vec()));
}

#[test]
fn render_is_canonical_decimal() {
    assert_eq!(render_attr(0), b"0".to_vec());
    assert_eq!(render_attr(7), b"7".to_vec());
    assert_eq!(render_attr(10), b"10".to_vec());
    assert_eq!(render_attr(4096), b"4096".to_vec());
    assert_eq!(render_attr(1000), b"1000".to_vec());
    assert_eq!(render_attr(u64::MAX), b"18446744073709551615".to_vec());
}

#[test]
fn render_then_parse_round_trips() {
    for v in [0u64, 1, 9, 10, 99, 100, 255, 4095, 4096, 123456789, u64::MAX] {
        assert_eq!(parse_attr(&render_attr(v)), Some(v));
    }
}

#[test]
fn controller_is_a_device_model() {
    let c = Controller::new(b"/sys/class/backlight/x".to_vec(), 4096, 17, 75);
    assert_eq!(c.current(), 17);
    assert_eq!(c.max(), 4096);
    assert_eq!(c.num_steps(), 75);
    let d = c.with_current(40);
    assert_eq!(d.current(), 40);
    assert_eq!(d.max(), 4096);
    assert_eq!(c.current(), 17);
    assert_eq!(d.path, c.path);
}

#[test]
fn percent_for_notification() {
    assert_eq!(notify_percent(0, 4096), 0);
    assert_eq!(notify_percent(4096, 4096), 100);
    assert_eq!(notify_percent(1024, 4096), 25);
    assert_eq!(notify_percent(1, 3), 33);
    assert_eq!(notify_percent(u64::MAX, u64::MAX), 100);
}
