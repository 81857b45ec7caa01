use img2svg_core::layering::order_by_area;

#[test]
fn largest_area_first() {
    // color 1 covers most pixels, color 2 the fewest.
    let indices = [0, 1, 1, 1, 1, 2, 0, 0];
    let order = order_by_area(&indices, 3);
    assert_eq!(order, vec![1, 0, 2]);
}

#[test]
fn equal_areas_keep_index_order() {
    let indices = [2, 0, 1, 2, 0, 1];
    assert_eq!(order_by_area(&indices, 3), vec![0, 1, 2]);
}

#[test]
fn out_of_range_indices_are_ignored_and_unused_colors_go_last() {
    let indices = [7, 3, 3, 9, 1];
    assert_eq!(order_by_area(&indices, 4), vec![3, 1, 0, 2]);
    assert_eq!(order_by_area(&indices, 0), Vec::<usize>::new());
}
