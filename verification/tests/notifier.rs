use std::cell::RefCell;
use std::rc::Rc;

use agui_core::notifier::{Listener, Notifier};

struct Recorder {
    name: &'static str,
    heard: Rc<RefCell<Vec<(&'static str, u32)>>>,
}

impl Listener<u32> for Recorder {
    fn on_notified(&mut self, value: &u32) {
        self.heard.borrow_mut().push((self.name, *value));
    }
}

fn recorder(name: &'static str, heard: &Rc<RefCell<Vec<(&'static str, u32)>>>) -> Box<dyn Listener<u32>> {
    Box::new(Recorder { name, heard: Rc::clone(heard) })
}

#[test]
fn every_listener_hears_each_value() {
    let heard = Rc::new(RefCell::new(Vec::new()));
    let mut notifier: Notifier<u32, Box<dyn Listener<u32>>> = Notifier::new();
    let _a = notifier.add_listener(recorder("a", &heard));
    let _b = notifier.add_listener(recorder("b", &heard));
    notifier.notify(&7);
    let mut got = heard.borrow().clone();
    got.sort();
    assert_eq!(got, vec![("a", 7), ("b", 7)]);
}

#[test]
fn a_removed_listener_hears_nothing_more() {
    let heard = Rc::new(RefCell::new(Vec::new()));
    let mut notifier: Notifier<u32, Box<dyn Listener<u32>>> = Notifier::new();
    let a = notifier.add_listener(recorder("a", &heard));
    let _b = notifier.add_listener(recorder("b", &heard));
    notifier.remove_listener(a);
    notifier.notify(&3);
    assert_eq!(*heard.borrow(), vec![("b", 3)]);
}

#[test]
fn a_notifier_without_listeners_tells_no_one() {
    let mut notifier: Notifier<u32, Box<dyn Listener<u32>>> = Notifier::new();
    notifier.notify(&1);
}

#[test]
fn each_listener_hears_each_value_once() {
    let heard = Rc::new(RefCell::new(Vec::new()));
    let mut notifier: Notifier<u32, Box<dyn Listener<u32>>> = Notifier::new();
    let _a = notifier.add_listener(recorder("a", &heard));
    let _b = notifier.add_listener(recorder("b", &heard));
    notifier.notify(&1);
    notifier.notify(&2);
    let mut got = heard.borrow().clone();
    got.sort();
    assert_eq!(got, vec![("a", 1), ("a", 2), ("b", 1), ("b", 2)]);
}
