use glao_error_budget::mask::{merge, n_selected, replace, select};

#[test]
fn n_selected_counts_the_true_entries() {
    assert_eq!(n_selected(&[]), 0);
    assert_eq!(n_selected(&[false, false]), 0);
    assert_eq!(n_selected(&[true, false, true, true, false]), 3);
    assert_eq!(n_selected(&[true; 9]), 9);
}

#[test]
fn select_keeps_the_order_of_the_mask() {
    let mask = [false, true, true, false, true];
    let data = [10, 11, 12, 13, 14];
    assert_eq!(select(&mask, &data), vec![11, 12, 14]);
    assert_eq!(select(&[false; 5], &data), Vec::<i32>::new());
    let nothing: [i32; 0] = [];
    assert_eq!(select(&[], &nothing), Vec::<i32>::new());
}

#[test]
fn select_with_a_mask_of_true_returns_everything() {
    let data = [3u8, 1, 4, 1, 5, 9, 2, 6];
    assert_eq!(select(&[true; 8], &data), data.to_vec());
}

#[test]
fn replace_writes_at_the_selected_samples_only() {
    let mask = [false, true, true, false, true];
    let mut global = vec![10, 11, 12, 13, 14];
    replace(&mask, &mut global, &[-1, -2, -3]);
    assert_eq!(global, vec![10, -1, -2, 13, -3]);
}

#[test]
fn replace_with_an_empty_selection_changes_nothing() {
    let mut global = vec![1, 2, 3];
    let nothing: [i32; 0] = [];
    replace(&[false, false, false], &mut global, &nothing);
    assert_eq!(global, vec![1, 2, 3]);
}

#[test]
fn select_after_replace_gives_back_what_was_written() {
    let mask = [true, false, false, true, true, false, true];
    let mut global = vec![0u32; 7];
    let local = [7u32, 8, 9, 10];
    replace(&mask, &mut global, &local);
    assert_eq!(select(&mask, &global), local.to_vec());
}

#[test]
fn replace_after_select_leaves_the_field_unchanged() {
    let mask = [true, false, false, true, true, false, true];
    let untouched = vec![5i64, 6, 7, 8, 9, 10, 11];
    let mut global = untouched.clone();
    let local = select(&mask, &global);
    replace(&mask, &mut global, &local);
    assert_eq!(global, untouched);
}

#[test]
fn merge_is_the_union_of_two_masks() {
    let mut mask = vec![true, false, false, true];
    merge(&mut mask, &[false, false, true, true]);
    assert_eq!(mask, vec![true, false, true, true]);
    merge(&mut mask, &[false; 4]);
    assert_eq!(mask, vec![true, false, true, true]);
}
