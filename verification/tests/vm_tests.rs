use quirl::vm_state::VMState;

#[test]
fn vm_test_in_out() {
    let mut vm = VMState::new();
    let in_val: u8 = 123;
    vm.load(in_val);
    let out_val = vm.store();
    assert_eq!(in_val, out_val);
}

#[test]
fn vm_test_inc_val() {
    let mut vm = VMState::new();
    vm.inc_val();
    assert_eq!(vm.store(), 1);
}

#[test]
fn vm_test_dec_val() {
    let mut vm = VMState::new();
    vm.load(2);
    vm.dec_val();
    assert_eq!(vm.store(), 1);
}

#[test]
fn vm_test_underflow_val() {
    let mut vm = VMState::new();
    vm.dec_val();
    assert_eq!(vm.store(), 255);
}

#[test]
fn vm_test_overflow_val() {
    let mut vm = VMState::new();
    vm.load(255);
    vm.inc_val();
    assert_eq!(vm.store(), 0);
}

#[test]
fn vm_test_inc_ptr() {
    let mut vm = VMState::new();
    // fill the first four cells with 0, 1, 2, 3
    vm.load(0);
    vm.inc_ptr();
    vm.load(1);
    vm.inc_ptr();
    vm.load(2);
    vm.inc_ptr();
    vm.load(3);
    // walk right from the first cell again
    vm.dec_ptr();
    vm.dec_ptr();
    vm.dec_ptr();
    vm.inc_ptr();
    assert_eq!(vm.store(), 1);
    vm.inc_ptr();
    assert_eq!(vm.store(), 2);
    vm.inc_ptr();
    assert_eq!(vm.store(), 3);
}

#[test]
fn vm_test_dec_ptr() {
    let mut vm = VMState::new();
    // fill the first four cells with 0, 1, 2, 3; the pointer ends on cell 3
    vm.load(0);
    vm.inc_ptr();
    vm.load(1);
    vm.inc_ptr();
    vm.load(2);
    vm.inc_ptr();
    vm.load(3);
    vm.dec_ptr();
    assert_eq!(vm.store(), 2);
    vm.dec_ptr();
    assert_eq!(vm.store(), 1);
    vm.dec_ptr();
    assert_eq!(vm.store(), 0);
}

#[test]
fn vm_test_ptr_bounds_refused() {
    let mut vm = VMState::new();
    // left from the first cell is refused and moves nothing
    assert!(!vm.dec_ptr());
    assert_eq!(vm.store(), 0);
    // right from the last cell is refused and moves nothing
    for _ in 0..29999 {
        assert!(vm.inc_ptr());
    }
    assert!(!vm.inc_ptr());
}
