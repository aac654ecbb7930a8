use fast_estimate::list::List;
use std::cell::RefCell;
use std::rc::Rc;

#[derive(Debug)]
struct Nd {
    n: Option<Rc<RefCell<Nd>>>,
    p: Option<Rc<RefCell<Nd>>>,
    v: u8,
}

fn print_list(head: &Rc<RefCell<Nd>>) -> String {
    let mut line = String::new();
    let mut i = Some(Rc::clone(&head));
    loop {
        let i_temp = match i {
            Some(ref nd) => {
                line.push_str(&format!("{:} -> ", nd.borrow().v));
                nd.borrow().n.clone()
            }
            None => break,
        };
        i = i_temp;
    }
    println!("{}", line);
    line
}

#[test]
fn list_can_report_size() {
    let mut l: List<u8> = List::new();
    for _ in 0..5 {
        l.push_front(5);
    }
    assert_eq!(l.size(), 5);
}

#[test]
fn list_can_pop() {
    let mut l: List<u8> = List::new();
    l.push_front(5);
    let v = l.pop_front();
    assert_eq!(v, Some(5));
}

#[test]
fn test_pointers_equality() {
    let a = Nd { n: None, p: None, v: 1 };
    let b = Nd { n: None, p: None, v: 2 };
    let c = Nd { n: None, p: None, v: 3 };

    let a_rc = Rc::new(RefCell::new(a));
    let b_rc = Rc::new(RefCell::new(b));
    let c_rc = Rc::new(RefCell::new(c));

    a_rc.borrow_mut().n = Some(Rc::clone(&c_rc));
    c_rc.borrow_mut().p = Some(Rc::clone(&a_rc));

    assert_eq!("1 -> 3 -> ", print_list(&a_rc));

    let before: Rc<RefCell<Nd>> = Rc::clone(&a_rc);
    let after: Rc<RefCell<Nd>> = Rc::clone(&a_rc.borrow().n.as_ref().expect("Ooops"));

    before.borrow_mut().n = Some(Rc::clone(&b_rc));
    after.borrow_mut().p = Some(Rc::clone(&b_rc));
    b_rc.borrow_mut().n = Some(Rc::clone(&c_rc));
    b_rc.borrow_mut().p = Some(Rc::clone(&c_rc));

    assert_eq!("1 -> 2 -> 3 -> ", print_list(&a_rc));
    assert!(c_rc.borrow().p.is_some());
}

#[test]
fn empty_list_has_no_size_and_nothing_to_pop() {
    let mut l: List<u8> = List::new();
    assert_eq!(l.size(), 0);
    assert_eq!(l.pop_front(), None);
    assert_eq!(l.size(), 0);
}

#[test]
fn list_pops_what_was_pushed_last() {
    let mut l: List<u32> = List::new();
    l.push_front(1);
    l.push_front(2);
    l.push_front(3);
    assert_eq!(l.size(), 3);
    assert_eq!(l.pop_front(), Some(3));
    assert_eq!(l.pop_front(), Some(2));
    assert_eq!(l.size(), 1);
    l.push_front(4);
    assert_eq!(l.pop_front(), Some(4));
    assert_eq!(l.pop_front(), Some(1));
    assert_eq!(l.pop_front(), None);
    assert_eq!(l.size(), 0);
}
