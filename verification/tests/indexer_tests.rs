use tick_engine::indexer::TickArrayHelper;

#[test]
fn ticks_per_array_scales_with_spacing() {
    assert_eq!(TickArrayHelper { tick_spacing: 1 }.tick_indices_per_array(), 60);
    assert_eq!(TickArrayHelper { tick_spacing: 10 }.tick_indices_per_array(), 600);
    assert_eq!(TickArrayHelper { tick_spacing: 60 }.tick_indices_per_array(), 3600);
    assert_eq!(TickArrayHelper { tick_spacing: 65535 }.tick_indices_per_array(), 3932100);
}

#[test]
fn array_start_floors_toward_negative_infinity() {
    let helper = TickArrayHelper { tick_spacing: 10 };
    assert_eq!(helper.get_array_start_index(0), 0);
    assert_eq!(helper.get_array_start_index(599), 0);
    assert_eq!(helper.get_array_start_index(600), 600);
    assert_eq!(helper.get_array_start_index(-1), -600);
    assert_eq!(helper.get_array_start_index(-600), -600);
    assert_eq!(helper.get_array_start_index(-601), -1200);
}

#[test]
fn array_start_is_idempotent_and_aligned() {
    let helper = TickArrayHelper { tick_spacing: 10 };
    for tick in [-500000, -1, 0, 1, 500000] {
        let start = helper.get_array_start_index(tick);
        assert_eq!(helper.get_array_start_index(start), start);
        assert_eq!(start.rem_euclid(600), 0);
        assert!(start <= tick && tick < start + 600);
    }
}

#[test]
fn array_tick_range_covers_exactly_one_window() {
    let helper = TickArrayHelper { tick_spacing: 10 };
    assert_eq!(helper.get_array_tick_range(0), (0, 599));
    assert_eq!(helper.get_array_tick_range(-600), (-600, -1));
    let helper2 = TickArrayHelper { tick_spacing: 1 };
    assert_eq!(helper2.get_array_tick_range(120), (120, 179));
}

#[test]
fn array_range_contains_its_tick() {
    let helper = TickArrayHelper { tick_spacing: 10 };
    for tick in [-500000, -1, 0, 1, 500000] {
        let start = helper.get_array_start_index(tick);
        let (lo, hi) = helper.get_array_tick_range(start);
        assert!(lo <= tick && tick <= hi);
    }
}

#[test]
fn align_tick_to_spacing_floors() {
    let helper = TickArrayHelper { tick_spacing: 10 };
    assert_eq!(helper.align_tick_to_spacing(0), 0);
    assert_eq!(helper.align_tick_to_spacing(14), 10);
    assert_eq!(helper.align_tick_to_spacing(-5), -10);
    assert_eq!(helper.align_tick_to_spacing(-10), -10);
}

#[test]
fn slot_offset_stays_within_sixty_slots() {
    let helper = TickArrayHelper { tick_spacing: 10 };
    assert_eq!(helper.slot_offset(0), 0);
    assert_eq!(helper.slot_offset(1234), 3);
    assert_eq!(helper.slot_offset(-1), 59);
    for tick in [-500000, -1, 0, 1, 500000] {
        let slot = helper.slot_offset(tick);
        assert!((0..60).contains(&slot));
    }
}

#[test]
fn slot_tick_index_steps_by_spacing() {
    let helper = TickArrayHelper { tick_spacing: 10 };
    assert_eq!(helper.slot_tick_index(600, 0), 600);
    assert_eq!(helper.slot_tick_index(600, 3), 630);
    assert_eq!(helper.slot_tick_index(-600, 59), -10);
}
