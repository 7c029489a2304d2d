use git_graph_tui::colors::{palette_slot, ColorAssigner, LANE_COLOR_COUNT, MAIN_BRANCH_COLOR};

#[test]
fn fresh_assigner_has_no_lanes() {
    let c = ColorAssigner::new();
    assert_eq!(c.get_lane_color_index(0), None);
    assert!(!c.is_main_lane(0));
    assert_eq!(c.get_main_color(), 9);
    let d = ColorAssigner::default();
    assert_eq!(d.get_lane_color_index(3), None);
}

#[test]
fn main_color_is_reserved_and_sticky() {
    let mut c = ColorAssigner::new();
    assert_eq!(c.assign_main_color(0), MAIN_BRANCH_COLOR);
    assert!(c.is_main_lane(0));
    assert_eq!(c.get_lane_color_index(0), Some(9));
    // releasing the main lane keeps its color
    c.release_lane(0);
    assert_eq!(c.get_lane_color_index(0), Some(9));
    assert_eq!(c.continue_lane(0), 9);
    // no ordinary assignment hands out the reserved color
    for lane in 1..40 {
        c.advance_row();
        assert_ne!(c.assign_color(lane % 5 + 1), MAIN_BRANCH_COLOR);
        c.release_lane(lane % 5 + 1);
    }
}

#[test]
fn first_new_branch_gets_exact_color() {
    let mut c = ColorAssigner::new();
    c.assign_main_color(0);
    c.advance_row();
    // color 0 is this lane's last color (penalty 10); color 1 costs nothing
    assert_eq!(c.assign_color(1), 1);
    assert_eq!(c.get_lane_color_index(1), Some(1));
    assert_eq!(c.continue_lane(1), 1);
}

#[test]
fn reused_lane_changes_color() {
    let mut c = ColorAssigner::new();
    c.assign_main_color(0);
    c.advance_row();
    let first = c.assign_color(1);
    c.release_lane(1);
    assert_eq!(c.get_lane_color_index(1), None);
    c.advance_row();
    let second = c.continue_lane(1);
    assert_ne!(first, second);
    assert_eq!(second, 2);
}

#[test]
fn fork_siblings_get_distinct_colors() {
    let mut c = ColorAssigner::new();
    c.assign_main_color(0);
    c.advance_row();
    c.begin_fork();
    let mut seen = Vec::new();
    for lane in 1..6 {
        let color = c.assign_fork_sibling_color(lane);
        assert!(color < LANE_COLOR_COUNT);
        assert_ne!(color, MAIN_BRANCH_COLOR);
        assert!(!seen.contains(&color), "sibling color {} repeated", color);
        seen.push(color);
    }
}

#[test]
fn reserved_colors_are_skipped() {
    let mut c = ColorAssigner::new();
    for color in 0..LANE_COLOR_COUNT {
        if color != 4 {
            c.reserve_color(color);
        }
    }
    assert_eq!(c.assign_color(0), 4);
    assert_eq!(c.assign_color(1), 4);
}

#[test]
fn palette_slot_wraps() {
    assert_eq!(palette_slot(3), 3);
    assert_eq!(palette_slot(11), 0);
    assert_eq!(palette_slot(23), 1);
}
