use netflow::delay_func_count::count_delay_value;
use netflow::delay_func_count::count_first_derivative;
use netflow::delay_func_count::count_second_derivative;
use netflow::delay_func_count::MAX_AMOUNT;
use netflow::delay_func_count::PER_MILLE;
use netflow::delay_func_count::SCALE;

#[test]
fn constants() {
    assert_eq!(SCALE, 1_000_000_000);
    assert_eq!(MAX_AMOUNT, u32::MAX as u64);
    assert_eq!(PER_MILLE, 1000);
}

#[test]
fn below_the_threshold_the_delay_is_x_over_c_minus_x() {
    // 10000 / (20000 - 10000) = 1
    assert_eq!(count_delay_value(10_000, 20_000, 990), 1_000_000_000);
    // 20000 / 10000^2 = 0.0002
    assert_eq!(count_first_derivative(10_000, 20_000, 990), 200_000);
    // 2 * 20000 / 10000^3 = 0.00000004
    assert_eq!(count_second_derivative(10_000, 20_000, 990), 40);
    assert_eq!(count_delay_value(0, 20_000, 990), 0);
    assert_eq!(count_first_derivative(0, 20_000, 990), 50_000);
    assert_eq!(count_second_derivative(0, 20_000, 990), 5);
    assert_eq!(count_delay_value(500, 1000, 500), 1_000_000_000);
    assert_eq!(count_first_derivative(500, 1000, 500), 4_000_000);
    assert_eq!(count_second_derivative(500, 1000, 500), 16_000);
}

#[test]
fn at_the_threshold_the_formula_below_it_holds() {
    // 19800 / 200 = 99, 20000 / 200^2 = 0.5, 40000 / 200^3 = 0.005
    assert_eq!(count_delay_value(19_800, 20_000, 990), 99_000_000_000);
    assert_eq!(count_first_derivative(19_800, 20_000, 990), 500_000_000);
    assert_eq!(count_second_derivative(19_800, 20_000, 990), 5_000_000);
}

#[test]
fn above_the_threshold_the_expansion_around_it_holds() {
    // one unit above: 99 + 0.5 * 1 + 0.005 / 2 * 1 = 99.5025, and 0.5 + 0.005 * 1 = 0.505
    assert_eq!(count_delay_value(19_801, 20_000, 990), 99_502_500_000);
    assert_eq!(count_first_derivative(19_801, 20_000, 990), 505_000_000);
    assert_eq!(count_second_derivative(19_801, 20_000, 990), 5_000_000);
    // a hundred units above: 99 + 50 + 25 = 174, and 0.5 + 0.5 = 1
    assert_eq!(count_delay_value(19_900, 20_000, 990), 174_000_000_000);
    assert_eq!(count_first_derivative(19_900, 20_000, 990), 1_000_000_000);
    assert_eq!(count_second_derivative(19_900, 20_000, 990), 5_000_000);
    // the expansion goes on beyond the capacity
    assert_eq!(count_delay_value(25_000, 20_000, 990), 70_299_000_000_000);
    assert_eq!(count_first_derivative(25_000, 20_000, 990), 26_500_000_000);
    assert_eq!(count_second_derivative(25_000, 20_000, 990), 5_000_000);
    assert_eq!(count_delay_value(501, 1000, 500), 1_004_008_000);
    assert_eq!(count_first_derivative(501, 1000, 500), 4_016_000);
    assert_eq!(count_delay_value(750, 1000, 500), 2_500_000_000);
    assert_eq!(count_first_derivative(750, 1000, 500), 8_000_000);
    assert_eq!(count_second_derivative(750, 1000, 500), 16_000);
}

#[test]
fn value_and_first_derivative_do_not_jump_at_the_threshold() {
    for (c, p) in [(20_000u32, 990u16), (1000, 500), (7000, 300), (123_456, 999), (50, 20)] {
        let at = (c as u64) * (p as u64) / 1000;
        let below = count_delay_value(at, c, p);
        let above = count_delay_value(at + 1, c, p);
        let step = count_first_derivative(at + 1, c, p);
        assert!(below <= above);
        assert!(above - below <= step + 1);
        let slope_below = count_first_derivative(at, c, p);
        let slope_above = count_first_derivative(at + 1, c, p);
        let curve = count_second_derivative(at + 1, c, p);
        assert!(slope_below <= slope_above);
        assert!(slope_above - slope_below <= curve + 1);
    }
}

#[test]
fn value_and_first_derivative_never_fall_when_the_flow_grows() {
    for (c, p) in [(1000u32, 500u16), (1000, 990), (37, 1), (64, 999)] {
        let mut last = (0u64, 0u64);
        for x in 0..(2 * c as u64) {
            let now = (count_delay_value(x, c, p), count_first_derivative(x, c, p));
            assert!(now.0 >= last.0);
            assert!(now.1 >= last.1);
            if x > 0 && x < c as u64 {
                assert!(now.0 > last.0);
            }
            last = now;
        }
    }
}

#[test]
fn a_link_without_capacity_delays_nothing_or_without_bound() {
    assert_eq!(count_delay_value(0, 0, 990), 0);
    assert_eq!(count_first_derivative(0, 0, 990), 0);
    assert_eq!(count_second_derivative(0, 0, 990), 0);
    assert_eq!(count_delay_value(1, 0, 990), u64::MAX);
    assert_eq!(count_first_derivative(1, 0, 990), u64::MAX);
    assert_eq!(count_second_derivative(1, 0, 990), u64::MAX);
}

#[test]
fn a_flow_beyond_the_largest_amount_delays_without_bound() {
    assert_eq!(count_delay_value(MAX_AMOUNT + 1, 20_000, 990), u64::MAX);
    assert_eq!(count_first_derivative(MAX_AMOUNT + 1, 20_000, 990), u64::MAX);
    assert_eq!(count_second_derivative(u64::MAX, u32::MAX, 1), u64::MAX);
    assert_eq!(count_delay_value(MAX_AMOUNT + 1, 0, 990), u64::MAX);
}

#[test]
fn edge_values() {
    assert_eq!(count_delay_value(0, 1, 500), 0);
    assert_eq!(count_first_derivative(0, 1, 500), 1_000_000_000);
    assert_eq!(count_second_derivative(0, 1, 500), 2_000_000_000);
    assert_eq!(count_delay_value(1, 1, 500), 5_000_000_000);
    assert_eq!(count_first_derivative(1, 1, 500), 12_000_000_000);
    assert_eq!(count_second_derivative(1, 1, 500), 16_000_000_000);
    assert_eq!(count_delay_value(999, 1000, 999), 999_000_000_000);
    assert_eq!(count_first_derivative(999, 1000, 999), 1_000_000_000_000);
    assert_eq!(count_second_derivative(999, 1000, 999), 2_000_000_000_000);
    assert_eq!(count_first_derivative(0, u32::MAX, 990), 0);
    assert_eq!(count_delay_value(MAX_AMOUNT, u32::MAX, 990), 299_000_000_000);
    assert_eq!(count_first_derivative(MAX_AMOUNT, u32::MAX, 990), 6984);
    assert_eq!(count_second_derivative(MAX_AMOUNT, u32::MAX, 990), 0);
    assert_eq!(count_delay_value(MAX_AMOUNT - 1, u32::MAX, 999), 2_998_999_301_508);
    assert_eq!(count_first_derivative(MAX_AMOUNT - 1, u32::MAX, 999), 698_491);
}

#[test]
fn results_are_capped() {
    assert_eq!(count_delay_value(MAX_AMOUNT, 3, 1), u64::MAX);
    assert_eq!(count_first_derivative(MAX_AMOUNT, 3, 1), 957_306_224_711_767_391);
    assert_eq!(count_second_derivative(MAX_AMOUNT, 3, 1), 222_890_224);
}
