use hanyuu::geometry::{check_geometry, is_power_of_two};

#[test]
fn powers_of_two() {
    assert!(!is_power_of_two(0));
    assert!(is_power_of_two(1));
    assert!(is_power_of_two(2));
    assert!(is_power_of_two(512));
    assert!(is_power_of_two(1 << 31));
    assert!(!is_power_of_two(12));
    assert!(!is_power_of_two(513));
    assert!(!is_power_of_two(u32::MAX));
}

#[test]
fn geometry_rules() {
    assert!(check_geometry(512, 512));
    assert!(check_geometry(512, 4096));
    assert!(!check_geometry(4096, 512));
    assert!(!check_geometry(0, 512));
    assert!(!check_geometry(512, 0));
    assert!(!check_geometry(500, 512));
    assert!(!check_geometry(512, 1000));
}
