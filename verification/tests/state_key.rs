use state_search::state_key::KeyLayout;

#[test]
fn key_is_row_major_position_times_range_plus_aux() {
    let layout = KeyLayout::new(7, 5, 4).unwrap();
    // ((y * width + x) * aux_range) + aux = ((3 * 7 + 2) * 4) + 1
    assert_eq!(layout.encode(2, 3, 1), 93);
    assert_eq!(layout.encode(0, 0, 0), 0);
    assert_eq!(layout.encode(6, 4, 3), 7 * 5 * 4 - 1);
}

#[test]
fn capacity_is_the_product_of_the_three_ranges() {
    let layout = KeyLayout::new(7, 5, 4).unwrap();
    assert_eq!(layout.capacity_of(), 140);
    let empty = KeyLayout::new(7, 0, 4).unwrap();
    assert_eq!(empty.capacity_of(), 0);
}

#[test]
fn decode_gives_back_what_encode_took() {
    let layout = KeyLayout::new(6, 4, 3).unwrap();
    for y in 0..4 {
        for x in 0..6 {
            for aux in 0..3 {
                let key = layout.encode(x, y, aux);
                assert!(key < layout.capacity_of());
                assert_eq!(layout.decode(key), (x, y, aux));
            }
        }
    }
}

#[test]
fn every_key_below_capacity_belongs_to_one_state() {
    let layout = KeyLayout::new(3, 5, 2).unwrap();
    let mut seen = vec![false; layout.capacity_of()];
    for key in 0..layout.capacity_of() {
        let (x, y, aux) = layout.decode(key);
        assert!(x < 3 && y < 5 && aux < 2);
        assert_eq!(layout.encode(x, y, aux), key);
        assert!(!seen[key]);
        seen[key] = true;
    }
}

#[test]
fn layout_that_does_not_fit_is_refused() {
    assert!(KeyLayout::new(usize::MAX, 2, 1).is_none());
    assert!(KeyLayout::new(usize::MAX / 2, 2, 2).is_none());
    assert!(KeyLayout::new(usize::MAX, 1, 1).is_some());
    assert!(KeyLayout::new(usize::MAX, 0, 5).is_some());
}
