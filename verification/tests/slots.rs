use slot_generator::SlotGenerator;

#[test]
fn get_slots() {
    let mut slots = SlotGenerator::new(1..u32::max_value());
    assert_eq!(Ok(1), slots.get_slot());
    assert_eq!(Ok(2), slots.get_slot());
    assert_eq!(Ok(3), slots.get_slot());
}

#[test]
fn replace_slots() {
    let mut slots = SlotGenerator::new(1..u32::max_value());
    let a = slots.get_slot().unwrap();
    let b = slots.get_slot().unwrap();
    let c = slots.get_slot().unwrap();
    let d = slots.get_slot().unwrap();
    assert_eq!(1, a);
    assert_eq!(2, b);
    assert_eq!(3, c);
    assert_eq!(4, d);

    assert_eq!(Ok(()), slots.replace_slot(a));
    assert_eq!(Ok(()), slots.replace_slot(c));
    assert_eq!(Ok(()), slots.replace_slot(b));
    assert_eq!(Ok(()), slots.replace_slot(d));
    assert_eq!(1, slots.ranges().len());
    assert_eq!(vec![1..u32::max_value()], slots.ranges());
}
