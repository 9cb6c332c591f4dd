use nelsie::stepvalue::StepValue;

#[test]
fn constant_is_the_same_at_every_step() {
    let v = StepValue::new_const(7u32);
    assert_eq!(*v.at_step(0), 7);
    assert_eq!(*v.at_step(1), 7);
    assert_eq!(*v.at_step(u32::MAX), 7);
    assert_eq!(v.last_step(), 0);
}

#[test]
fn entries_at_zero_and_three_fill_forward() {
    let v = StepValue::new_steps(vec![(0, 'A'), (3, 'B')], 'Z');
    assert_eq!(*v.at_step(0), 'A');
    assert_eq!(*v.at_step(1), 'A');
    assert_eq!(*v.at_step(2), 'A');
    assert_eq!(*v.at_step(3), 'B');
    assert_eq!(*v.at_step(4), 'B');
    assert_eq!(*v.at_step(100), 'B');
    assert_eq!(v.last_step(), 3);
}

#[test]
fn fallback_holds_before_the_first_key() {
    let v = StepValue::new_steps(vec![(2, 20), (5, 50)], -1);
    assert_eq!(*v.at_step(0), -1);
    assert_eq!(*v.at_step(1), -1);
    assert_eq!(*v.at_step(2), 20);
    assert_eq!(*v.at_step(4), 20);
    assert_eq!(*v.at_step(5), 50);
    assert_eq!(*v.at_step(u32::MAX), 50);
}

#[test]
fn no_entries_means_fallback_everywhere() {
    let v: StepValue<u8> = StepValue::new_steps(vec![], 9);
    assert_eq!(*v.at_step(0), 9);
    assert_eq!(*v.at_step(77), 9);
    assert_eq!(v.last_step(), 0);
}

#[test]
fn entries_need_not_be_sorted() {
    let v = StepValue::new_steps(vec![(7, "g"), (1, "a"), (4, "d")], "-");
    assert_eq!(*v.at_step(0), "-");
    assert_eq!(*v.at_step(1), "a");
    assert_eq!(*v.at_step(3), "a");
    assert_eq!(*v.at_step(4), "d");
    assert_eq!(*v.at_step(6), "d");
    assert_eq!(*v.at_step(7), "g");
    assert_eq!(*v.at_step(8), "g");
    assert_eq!(v.last_step(), 7);
}

#[test]
fn the_later_of_two_entries_with_one_key_counts() {
    let v = StepValue::new_steps(vec![(3, 1), (3, 2)], 0);
    assert_eq!(*v.at_step(2), 0);
    assert_eq!(*v.at_step(3), 2);
    assert_eq!(*v.at_step(9), 2);
}

#[test]
fn step_value_constructors_keep_what_they_are_given() {
    assert_eq!(StepValue::new_const(3), StepValue::Const(3));
    assert_eq!(
        StepValue::new_steps(vec![(1, 2)], 0),
        StepValue::Steps { entries: vec![(1, 2)], fallback: 0 }
    );
}
