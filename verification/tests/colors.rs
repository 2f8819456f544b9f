use dark_pig_git::color::{palette_color, ColorManager};

#[test]
fn palette_of_two_cycles_over_five_lanes() {
    let mut colors = ColorManager::new(vec![0xff0000, 0x00ff00]);
    let given: Vec<usize> = (0..5).map(|lane| colors.get_color(&lane)).collect();
    assert_eq!(given, vec![1, 2, 1, 2, 1]);
}

#[test]
fn same_lane_twice_in_a_row_has_the_same_color() {
    let mut colors = ColorManager::new(vec![1, 2, 3]);
    let first = colors.get_color(&4);
    let second = colors.get_color(&4);
    assert_eq!(first, 1);
    assert_eq!(second, 1);
}

#[test]
fn mapped_lane_keeps_its_color_whatever_comes_between() {
    let mut colors = ColorManager::new(vec![1, 2, 3]);
    assert_eq!(colors.get_color(&0), 1);
    assert_eq!(colors.get_color(&1), 2);
    assert_eq!(colors.get_color(&2), 3);
    assert_eq!(colors.get_color(&3), 1);
    assert_eq!(colors.get_color(&0), 1);
    assert_eq!(colors.get_color(&1), 2);
    assert_eq!(colors.get_color(&2), 3);
}

#[test]
fn request_for_a_mapped_lane_moves_the_counter_on() {
    let mut colors = ColorManager::new(vec![1, 2, 3, 4]);
    assert_eq!(colors.get_color(&0), 1);
    assert_eq!(colors.get_color(&0), 1);
    assert_eq!(colors.get_color(&1), 3);
}

#[test]
fn counter_past_the_palette_starts_it_over() {
    let mut colors = ColorManager::new(vec![1, 2, 3]);
    assert_eq!(colors.get_color(&0), 1);
    assert_eq!(colors.get_color(&0), 1);
    assert_eq!(colors.get_color(&0), 1);
    assert_eq!(colors.get_color(&0), 1);
    assert_eq!(colors.get_color(&0), 1);
    assert_eq!(colors.get_color(&1), 1);
    assert_eq!(colors.get_color(&2), 2);
}

#[test]
fn removed_lane_is_colored_anew() {
    let mut colors = ColorManager::new(vec![1, 2, 3]);
    assert_eq!(colors.get_color(&0), 1);
    assert_eq!(colors.get_color(&1), 2);
    colors.remove_lane_color(&0);
    assert_eq!(colors.get_color(&0), 3);
    assert_eq!(colors.get_color(&1), 2);
}

#[test]
fn removal_of_an_unmapped_lane_changes_nothing() {
    let mut colors = ColorManager::new(vec![1, 2, 3]);
    assert_eq!(colors.get_color(&0), 1);
    colors.remove_lane_color(&5);
    assert_eq!(colors.get_color(&0), 1);
    assert_eq!(colors.get_color(&5), 3);
}

#[test]
fn no_color_is_zero_or_beyond_the_palette() {
    let mut colors = ColorManager::new(vec![1, 2, 3]);
    for lane in 0..20usize {
        let color = colors.get_color(&lane);
        assert!(1 <= color && color <= 3);
        assert_eq!(color, lane % 3 + 1);
    }
}

#[test]
fn color_one_is_the_first_entry_of_the_palette() {
    let palette = [0xaa, 0xbb, 0xcc];
    assert_eq!(palette_color(&palette, 1), Some(0xaa));
    assert_eq!(palette_color(&palette, 3), Some(0xcc));
    assert_eq!(palette_color(&palette, 0), None);
    assert_eq!(palette_color(&palette, 4), None);
    assert_eq!(palette_color(&[], 1), None);
}

