use vir::state::PushConstants;

#[test]
fn the_first_write_starts_the_run_where_it_lands() {
    let mut constants = PushConstants::default();
    constants.write(16, &[1, 2, 3, 4]);
    assert_eq!(constants.offset, 16);
    assert_eq!(constants.data, vec![1, 2, 3, 4]);
}

#[test]
fn a_later_write_overwrites_the_bytes_it_lands_on() {
    let mut constants = PushConstants::default();
    constants.write(0, &[1, 2, 3, 4]);
    constants.write(2, &[9, 9]);
    assert_eq!(constants.offset, 0);
    assert_eq!(constants.data, vec![1, 2, 9, 9]);
}

#[test]
fn writes_on_both_sides_widen_the_run_and_zero_the_gap() {
    let mut constants = PushConstants::default();
    constants.write(4, &[1, 2]);
    constants.write(10, &[3]);
    constants.write(0, &[7, 7]);

    assert_eq!(constants.offset, 0);
    assert_eq!(constants.data, vec![7, 7, 0, 0, 1, 2, 0, 0, 0, 0, 3]);
    assert_eq!(constants.end(), 11);
}

#[test]
fn pushed_bytes_stay_out_of_the_permutation_key() {
    let mut with_constants = vir::state::PassState::initial();
    with_constants.apply(vir::state::StateChange::PushConstants { offset: 0, data: vec![1, 2, 3, 4] });

    let area = vir::state::Rect::default();
    let (plain_state, plain_values) = vir::state::PassState::initial().resolve(area);
    let (state, values) = with_constants.resolve(area);

    assert_eq!(state, plain_state);
    assert!(plain_values.push_constants.data.is_empty());
    assert_eq!(values.push_constants.data, vec![1, 2, 3, 4]);
}
