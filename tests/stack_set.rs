use wfc_synth::stack_set::StackSet;

#[test]
fn it_behaves_like_a_stack_with_unique_elements() {
    let mut stack_set = StackSet::new(5);
    stack_set.push(2);
    stack_set.push(2);
    stack_set.push(2);
    stack_set.push(2);
    stack_set.push(0);
    stack_set.push(0);
    stack_set.push(1);
    stack_set.push(1);
    stack_set.push(4);
    stack_set.push(4);
    stack_set.push(3);
    stack_set.push(3);

    assert_eq!(stack_set.pop(), Some(3));
    assert_eq!(stack_set.pop(), Some(4));
    assert_eq!(stack_set.pop(), Some(1));
    assert_eq!(stack_set.pop(), Some(0));
    assert_eq!(stack_set.pop(), Some(2));
    assert_eq!(stack_set.pop(), None);
}

#[test]
fn full_stack_pops_largest_first_and_accepts_popped_values_again() {
    let mut s = StackSet::full(3);
    s.push(1);
    assert_eq!(s.pop(), Some(2));
    assert_eq!(s.pop(), Some(1));
    s.push(2);
    s.push(0);
    assert_eq!(s.pop(), Some(2));
    assert_eq!(s.pop(), Some(0));
    assert_eq!(s.pop(), None);
}
