use ct_thumbnail::naming::existing_flags;
use ct_thumbnail::naming::output_name;
use ct_thumbnail::naming::parse_output_index;
use ct_thumbnail::plan::group_size_for;
use ct_thumbnail::plan::level_weight;
use ct_thumbnail::plan::levels_needed;
use ct_thumbnail::plan::outputs_in_level;
use ct_thumbnail::plan::weight_total;
use ct_thumbnail::progress::report_due;
use ct_thumbnail::progress::Progress;

#[test]
fn small_stacks_need_no_levels() {
    assert_eq!(levels_needed(500, 500), 0);
    assert_eq!(levels_needed(1, 1), 0);
    assert_eq!(levels_needed(500, 1), 0);
}

#[test]
fn four_thousand_by_three_thousand_needs_three() {
    // 4000 -> 2000 -> 1000 -> 500
    assert_eq!(levels_needed(4000, 3000), 3);
}

#[test]
fn one_dimension_over_the_limit_forces_a_level() {
    assert_eq!(levels_needed(501, 1), 1);
    assert_eq!(levels_needed(1, 501), 1);
    assert_eq!(levels_needed(1200, 1200), 2);
}

#[test]
fn group_size_is_a_power_of_two() {
    assert_eq!(group_size_for(0), 1);
    assert_eq!(group_size_for(3), 8);
    assert_eq!(group_size_for(24), 1 << 24);
}

#[test]
fn outputs_round_up() {
    assert_eq!(outputs_in_level(5, 1), 3);
    assert_eq!(outputs_in_level(5, 2), 2);
    assert_eq!(outputs_in_level(5, 3), 1);
    assert_eq!(outputs_in_level(8, 3), 1);
    assert_eq!(outputs_in_level(0, 1), 0);
}

#[test]
fn level_weights_fall_by_eight() {
    assert_eq!(level_weight(3, 1), 64);
    assert_eq!(level_weight(3, 2), 8);
    assert_eq!(level_weight(3, 3), 1);
    assert_eq!(weight_total(3), 73);
    assert_eq!(weight_total(1), 1);
}

#[test]
fn percent_accumulates_monotonically() {
    // 5 slices, 2 levels: 3 outputs at level 1 (weight 8), 2 at level 2
    // (weight 1), total weight 9
    let mut p = Progress::new(5, 2);
    assert_eq!(p.percent_bp(), 0);
    let mut last = 0;
    for _ in 0..3 {
        p.complete(1, 1);
        let bp = p.percent_bp();
        assert!(bp >= last);
        last = bp;
    }
    // 10000 * 1 * 8 / (3 * 9) for the first level-1 output
    p = Progress::new(5, 2);
    p.complete(1, 1);
    assert_eq!(p.percent_bp(), 2962);
    p.complete(1, 2);
    p.complete(2, 2);
    // all outputs done: rounding leaves the raw figure just shy of 100%
    assert_eq!(p.percent_bp(), 9999);
}

#[test]
fn report_policy_needs_a_full_point() {
    assert!(report_due(101, 0, false));
    assert!(!report_due(100, 0, false));
    assert!(report_due(0, -100, false) == false);
    assert!(report_due(1, -100, false));
    assert!(report_due(0, 0, true));
}

#[test]
fn output_names_are_six_digit_tif() {
    assert_eq!(output_name(0), b"000000.tif".to_vec());
    assert_eq!(output_name(7), b"000007.tif".to_vec());
    assert_eq!(output_name(123456), b"123456.tif".to_vec());
    assert_eq!(output_name(1234567), b"1234567.tif".to_vec());
}

#[test]
fn parse_recovers_exactly_the_generated_names() {
    for i in [0u64, 1, 9, 10, 99999, 100000, 999999, 1000000, 31415926] {
        assert_eq!(parse_output_index(&output_name(i)), Some(i));
    }
    assert_eq!(parse_output_index(&b"00007.tif".to_vec()), None); // five digits
    assert_eq!(parse_output_index(&b"0000007.tif".to_vec()), None); // padded past six
    assert_eq!(parse_output_index(&b"000007.tiff".to_vec()), None); // wrong suffix
    assert_eq!(parse_output_index(&b"00000a.tif".to_vec()), None);
    assert_eq!(parse_output_index(&b"".to_vec()), None);
}

#[test]
fn existing_index_marks_only_named_outputs() {
    let names: Vec<Vec<u8>> = vec![
        b"000002.tif".to_vec(),
        b"000000.tif".to_vec(),
        b"junk.txt".to_vec(),
        b"000009.tif".to_vec(), // out of range for 5 outputs
    ];
    let flags = existing_flags(&names, 5);
    assert_eq!(flags, vec![true, false, true, false, false]);
}
