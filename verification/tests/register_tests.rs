use reg_alloc::register::{Register, RegisterClass, RegisterFile};

#[test]
fn test_register_creation() {
    let r = Register::integer(0);
    assert!(r.is_int());
    assert_eq!(r.to_string(), "r0");
}

#[test]
fn test_register_file_allocate() {
    let mut rf = RegisterFile::new_int(4);
    let r0 = rf.allocate(RegisterClass::Integer);
    assert!(r0.is_some());
    assert_eq!(rf.available(RegisterClass::Integer), 3);
}

#[test]
fn test_register_file_exhaust() {
    let mut rf = RegisterFile::new_int(2);
    rf.allocate(RegisterClass::Integer);
    rf.allocate(RegisterClass::Integer);
    let r2 = rf.allocate(RegisterClass::Integer);
    assert!(r2.is_none());
}

#[test]
fn test_register_file_free() {
    let mut rf = RegisterFile::new_int(2);
    let r = rf.allocate(RegisterClass::Integer).unwrap();
    rf.free(r);
    assert_eq!(rf.available(RegisterClass::Integer), 2);
}

#[test]
fn test_register_display() {
    let f = Register::float(3);
    assert_eq!(f.to_string(), "f3");
}

#[test]
fn test_mixed_classes() {
    let mut rf = RegisterFile::new_with_floats(2, 2);
    assert_eq!(rf.available(RegisterClass::Integer), 2);
    assert_eq!(rf.available(RegisterClass::Float), 2);
    let ri = rf.allocate(RegisterClass::Integer);
    assert!(ri.is_some());
    assert_eq!(rf.available(RegisterClass::Float), 2);
}

// Further cases.

#[test]
fn register_text_of_each_class_and_width() {
    assert_eq!(Register::integer(7).to_string(), "r7");
    assert_eq!(Register::float(42).to_string(), "f42");
    assert_eq!(Register::new(255, RegisterClass::Vector).to_string(), "v255");
    assert_eq!(Register::new(100, RegisterClass::Integer).to_string(), "r100");
    assert_eq!(Register::new(10, RegisterClass::Float).to_string(), "f10");
}

#[test]
fn register_constructors_and_predicates() {
    let r = Register::new(5, RegisterClass::Vector);
    assert_eq!(r.number, 5);
    assert_eq!(r.class, RegisterClass::Vector);
    assert!(!r.is_int());
    assert!(!r.is_float());
    let f = Register::float(1);
    assert!(f.is_float());
    assert!(!f.is_int());
    assert_eq!(Register::integer(2), Register::new(2, RegisterClass::Integer));
}

#[test]
fn allocate_hands_out_first_free_in_order() {
    let mut rf = RegisterFile::new_int(3);
    assert_eq!(rf.allocate(RegisterClass::Integer), Some(Register::integer(0)));
    assert_eq!(rf.allocate(RegisterClass::Integer), Some(Register::integer(1)));
    rf.free(Register::integer(0));
    assert_eq!(rf.allocate(RegisterClass::Integer), Some(Register::integer(0)));
    assert_eq!(rf.allocate(RegisterClass::Integer), Some(Register::integer(2)));
    assert_eq!(rf.allocate(RegisterClass::Integer), None);
}

#[test]
fn allocate_of_absent_class_is_none() {
    let mut rf = RegisterFile::new_int(2);
    assert_eq!(rf.allocate(RegisterClass::Float), None);
    assert_eq!(rf.available(RegisterClass::Integer), 2);
    assert_eq!(rf.total(RegisterClass::Vector), 0);
}

#[test]
fn is_allocated_tracks_allocate_and_free() {
    let mut rf = RegisterFile::new_with_floats(1, 1);
    let f = rf.allocate(RegisterClass::Float).unwrap();
    assert_eq!(f, Register::float(0));
    assert!(rf.is_allocated(f));
    assert!(!rf.is_allocated(Register::integer(0)));
    assert!(!rf.is_allocated(Register::integer(9)));
    rf.free(f);
    assert!(!rf.is_allocated(f));
    // Freeing a register that is not in the file changes nothing.
    rf.free(Register::new(3, RegisterClass::Vector));
    assert_eq!(rf.available(RegisterClass::Float), 1);
}

#[test]
fn totals_and_register_list() {
    let rf = RegisterFile::new_with_floats(3, 2);
    assert_eq!(rf.total(RegisterClass::Integer), 3);
    assert_eq!(rf.total(RegisterClass::Float), 2);
    let regs = rf.registers();
    assert_eq!(regs.len(), 5);
    assert_eq!(regs[0], Register::integer(0));
    assert_eq!(regs[2], Register::integer(2));
    assert_eq!(regs[3], Register::float(0));
    assert_eq!(regs[4], Register::float(1));
    let empty = RegisterFile::new_int(0);
    assert_eq!(empty.registers().len(), 0);
}
