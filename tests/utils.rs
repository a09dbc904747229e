use bandit::utils::{
    all_distinct, epoch_millis, find_arm, greater_than, is_infinite, log_command, push_decimal,
    select_argmax, timestamp,
};
use bandit::{BanditConfig, Identifiable};

fn bits(values: &[f64]) -> Vec<u64> {
    values.iter().map(|v| v.to_bits()).collect()
}

fn idents(names: &[&str]) -> Vec<String> {
    names.iter().map(|n| n.to_string()).collect()
}

struct TestArm {
    num: u32,
}

impl Identifiable for TestArm {
    fn ident(&self) -> String {
        format!("arm:{}", self.num)
    }
}

#[test]
fn select_first_as_max_works() {
    let values = [10., 4., 3., 2.];
    assert_eq!(select_argmax(&bits(&values)), Some(0))
}

#[test]
fn select_last_as_max_works() {
    let values = [4., 3., 2., 10.];
    assert_eq!(select_argmax(&bits(&values)), Some(3))
}

#[test]
fn select_works() {
    let values = [0.56, 0.73, 1.67, 0.57];
    assert_eq!(select_argmax(&bits(&values)), Some(2))
}

#[test]
fn argmax_prefers_first_of_equal_values() {
    assert_eq!(select_argmax(&bits(&[1.0, 7.5, 7.5, 2.0])), Some(1));
    assert_eq!(select_argmax(&bits(&[0.0, -0.0])), Some(0));
    assert_eq!(select_argmax(&bits(&[-0.0, 0.0])), Some(0));
}

#[test]
fn argmax_skips_nan_only() {
    assert_eq!(select_argmax(&bits(&[f64::NAN, -3.0, f64::NAN])), Some(1));
    assert_eq!(select_argmax(&bits(&[f64::NAN, f64::NAN])), None);
    assert_eq!(select_argmax(&bits(&[f64::MIN, f64::NEG_INFINITY])), Some(0));
    assert_eq!(select_argmax(&bits(&[f64::NEG_INFINITY, f64::MIN])), Some(1));
    assert_eq!(select_argmax(&bits(&[f64::MIN, f64::MIN])), Some(0));
    assert_eq!(select_argmax(&bits(&[f64::NAN, f64::NEG_INFINITY])), Some(1));
    assert_eq!(select_argmax(&bits(&[f64::MIN, -1e308])), Some(1));
    assert_eq!(select_argmax(&bits(&[f64::INFINITY, 1.0, f64::INFINITY])), Some(0));
    assert_eq!(select_argmax(&bits(&[-5.0, -2.5, -7.0])), Some(1));
    assert_eq!(select_argmax(&[]), None);
}

#[test]
fn float_comparison_follows_ieee_rules() {
    assert!(greater_than(2.0f64.to_bits(), 1.5f64.to_bits()));
    assert!(!greater_than(1.5f64.to_bits(), 2.0f64.to_bits()));
    assert!(greater_than((-1.0f64).to_bits(), (-2.0f64).to_bits()));
    assert!(!greater_than(0.0f64.to_bits(), (-0.0f64).to_bits()));
    assert!(!greater_than(f64::NAN.to_bits(), 1.0f64.to_bits()));
    assert!(!greater_than(1.0f64.to_bits(), f64::NAN.to_bits()));
    assert!(greater_than(1e-300f64.to_bits(), 0.0f64.to_bits()));
}

#[test]
fn infinity_is_recognised() {
    assert!(is_infinite(f64::INFINITY.to_bits()));
    assert!(is_infinite(f64::NEG_INFINITY.to_bits()));
    assert!(!is_infinite(f64::MAX.to_bits()));
    assert!(!is_infinite(f64::NAN.to_bits()));
    assert!(!is_infinite(0.0f64.to_bits()));
}

#[test]
fn log_command_joins_fields() {
    assert_eq!(log_command("SELECT", "arm:3", 1_234_567_890_123), "SELECT;arm:3;1234567890123");
    assert_eq!(log_command("UPDATE", "arm:0", 0), "UPDATE;arm:0;0");
    assert_eq!(log_command("UPDATE", "x", u64::MAX), "UPDATE;x;18446744073709551615");
}

#[test]
fn decimal_notation() {
    let mut s = String::from("n=");
    push_decimal(&mut s, 1090);
    assert_eq!(s, "n=1090");
    let mut z = String::new();
    push_decimal(&mut z, 7);
    assert_eq!(z, "7");
}

#[test]
fn epoch_millis_combines_and_saturates() {
    assert_eq!(epoch_millis(1_700_000_000, 42), 1_700_000_000_042);
    assert_eq!(epoch_millis(0, 999), 999);
    assert_eq!(epoch_millis(u64::MAX / 1000, 615), u64::MAX);
    assert_eq!(epoch_millis(u64::MAX / 1000, 616), u64::MAX);
    assert_eq!(epoch_millis(u64::MAX / 1000, 614), u64::MAX - 1);
    assert_eq!(epoch_millis(u64::MAX, 0), u64::MAX);
}

#[test]
fn timestamp_has_thirteen_digits() {
    let t = timestamp();
    assert!(t > 1_600_000_000_000);
    assert!(t < 10_000_000_000_000);
}

#[test]
fn find_arm_by_identity() {
    let arms = vec![TestArm { num: 0 }, TestArm { num: 1 }, TestArm { num: 2 }];
    let ids: Vec<String> = arms.iter().map(|a| a.ident()).collect();
    assert_eq!(find_arm(&ids, "arm:1").ok(), Some(1));
    assert_eq!(find_arm(&ids, "arm:2").ok(), Some(2));
    let err = find_arm(&ids, "arm:3").err().unwrap();
    assert_eq!(err.ident, "arm:3");
    assert_eq!(err.message(), "arm arm:3 not found");
    assert!(find_arm(&[], "arm:0").is_err());
}

#[test]
fn find_arm_returns_first_match() {
    let ids = idents(&["a", "b", "a"]);
    assert_eq!(find_arm(&ids, "a").ok(), Some(0));
}

#[test]
fn distinct_identities() {
    assert!(all_distinct(&idents(&["arm:0", "arm:1", "arm:2"])));
    assert!(!all_distinct(&idents(&["arm:0", "arm:1", "arm:0"])));
    assert!(all_distinct(&[]));
}

#[test]
fn default_config_has_no_log_file() {
    assert_eq!(BanditConfig::default(), BanditConfig { log_file: None });
}
