use rapidtag::affinity::{choose_fast_cores, cpu_index, parse_core_list, parse_frequency};

#[test]
fn parses_ranges_and_lists() {
    assert_eq!(parse_core_list("4-7"), Some(vec![4, 5, 6, 7]));
    assert_eq!(parse_core_list("4,5,6,7"), Some(vec![4, 5, 6, 7]));
    assert_eq!(parse_core_list("7,4-5"), Some(vec![4, 5, 7]));
    assert_eq!(parse_core_list("3"), Some(vec![3]));
    assert_eq!(parse_core_list(""), None);
    assert_eq!(parse_core_list("7-4"), None);
    assert_eq!(parse_core_list("x"), None);
}

#[test]
fn core_list_trims_dedups_and_skips_blank_parts() {
    assert_eq!(parse_core_list(" 2 - 3 , ,3,+1"), Some(vec![1, 2, 3]));
    assert_eq!(parse_core_list(" , "), None);
    assert_eq!(parse_core_list("1-"), None);
    assert_eq!(parse_core_list("-2"), None);
    assert_eq!(parse_core_list("99999999999999999999999"), None);
}

#[test]
fn fast_cores_from_setting() {
    assert_eq!(choose_fast_cores(Some("ALL"), &[]), None);
    assert_eq!(choose_fast_cores(Some(" all "), &[(0, 1), (1, 2)]), None);
    assert_eq!(choose_fast_cores(Some("4-5"), &[]), Some(vec![4, 5]));
    assert_eq!(choose_fast_cores(Some("bogus"), &[(0, 1), (1, 2), (2, 2)]), None);
}

#[test]
fn fast_cores_from_frequencies() {
    let big_little = [(0, 1_900_000u64), (1, 1_900_000), (2, 2_400_000), (3, 2_700_000)];
    assert_eq!(choose_fast_cores(None, &big_little), Some(vec![2, 3]));
    let homogeneous = [(0, 2_000_000u64), (1, 2_000_000)];
    assert_eq!(choose_fast_cores(None, &homogeneous), None);
    let one_fast = [(0, 1u64), (1, 1), (2, 5)];
    assert_eq!(choose_fast_cores(None, &one_fast), Some(vec![2]));
    assert_eq!(choose_fast_cores(None, &[(0, 1u64), (1, 2)]), Some(vec![1]));
    assert_eq!(choose_fast_cores(None, &[(0, 3u64)]), None);
}

#[test]
fn cpu_entry_names() {
    assert_eq!(cpu_index("cpu7"), Some(7));
    assert_eq!(cpu_index("cpu12"), Some(12));
    assert_eq!(cpu_index("cpufreq"), None);
    assert_eq!(cpu_index("cpuidle"), None);
    assert_eq!(cpu_index("cpu"), None);
    assert_eq!(cpu_index("node0"), None);
}

#[test]
fn frequency_files() {
    assert_eq!(parse_frequency("2400000\n"), Some(2_400_000));
    assert_eq!(parse_frequency("  18446744073709551615 "), Some(u64::MAX));
    assert_eq!(parse_frequency("18446744073709551616"), None);
    assert_eq!(parse_frequency("12a"), None);
    assert_eq!(parse_frequency(""), None);
}
