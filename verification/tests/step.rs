use factory::step::{IdSet, Step, StepId};

#[test]
fn first_id_is_zero() {
    assert_eq!(StepId::first(), StepId(0));
}

#[test]
fn take_hands_out_increasing_ids() {
    let mut next = StepId::first();
    assert_eq!(next.take(), StepId(0));
    assert_eq!(next.take(), StepId(1));
    assert_eq!(next.take(), StepId(2));
    assert_eq!(next, StepId(3));
}

#[test]
fn ids_are_ordered_by_number() {
    assert!(StepId(3) < StepId(10));
    assert!(StepId(10) > StepId(3));
    assert_ne!(StepId(3), StepId(4));
}

#[test]
fn id_set_starts_empty() {
    let set = IdSet::new();
    assert!(set.is_empty());
    assert_eq!(set.len(), 0);
    assert!(!set.contains(StepId(0)));
    assert_eq!(set.to_vec(), Vec::<StepId>::new());
}

#[test]
fn id_set_insert_reports_new_members() {
    let mut set = IdSet::new();
    assert!(set.insert(StepId(5)));
    assert!(set.insert(StepId(2)));
    assert!(!set.insert(StepId(5)));
    assert_eq!(set.len(), 2);
    assert!(set.contains(StepId(5)));
    assert!(set.contains(StepId(2)));
    assert!(!set.contains(StepId(3)));
    assert_eq!(set.to_vec(), vec![StepId(5), StepId(2)]);
}

#[test]
fn id_set_remove_keeps_the_order_of_the_rest() {
    let mut set = IdSet::new();
    set.insert(StepId(1));
    set.insert(StepId(2));
    set.insert(StepId(3));
    assert!(set.remove(StepId(2)));
    assert!(!set.remove(StepId(2)));
    assert_eq!(set.to_vec(), vec![StepId(1), StepId(3)]);
    assert_eq!(set.len(), 2);
    assert!(!set.is_empty());
}

#[test]
fn id_set_position_and_get_agree() {
    let mut set = IdSet::new();
    set.insert(StepId(7));
    set.insert(StepId(9));
    assert_eq!(set.position(StepId(9)), Some(1));
    assert_eq!(set.position(StepId(8)), None);
    assert_eq!(set.get(0), StepId(7));
    assert_eq!(set.get(1), StepId(9));
}

#[test]
fn id_set_from_distinct_keeps_the_elements() {
    let set = IdSet::from_distinct(vec![StepId(4), StepId(1)]);
    assert_eq!(set.len(), 2);
    assert_eq!(set.to_vec(), vec![StepId(4), StepId(1)]);
    let copy = set.clone();
    assert_eq!(copy.to_vec(), set.to_vec());
}

#[test]
fn step_note_is_a_copy_of_the_field() {
    let step = Step {
        id: StepId(1),
        requires: IdSet::new(),
        descriptor: Some(0),
        wants: Vec::new(),
        target_name: None,
        name: String::from("x"),
        note: Some(String::from("slow")),
    };
    assert_eq!(step.note(), Some(String::from("slow")));
    let copy = step.clone();
    assert_eq!(copy.id, StepId(1));
    assert_eq!(copy.name, "x");
    assert_eq!(copy.note, Some(String::from("slow")));
    assert_eq!(copy.descriptor, Some(0));
}
