use std::cell::RefCell;
use std::rc::Rc;

#[test]
fn rc_eq() {
    let a = Rc::new(RefCell::new(1));
    let b = Rc::new(RefCell::new(1));
    assert!(!a.as_ptr().eq(&b.as_ptr()));
    assert_eq!(a, b);
    assert_ne!(a.as_ptr(), b.as_ptr());
}
