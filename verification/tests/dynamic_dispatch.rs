use binary_tree::dynamic_dispatch::{strlen, Hei};
use std::cell::Cell;

/// Counts how often it was greeted.
struct Greeter {
    greeted: Cell<u32>,
}

impl Hei for Greeter {
    type Item = u32;

    fn hei(&self) {
        self.greeted.set(self.greeted.get() + 1);
    }

    fn weird(&self) -> u32 {
        self.greeted.get()
    }
}

#[test]
fn strlen_test() {
    strlen("hello world");
    strlen(&"hallo welt".to_string());
}

#[test]
fn strlen_counts_bytes() {
    assert_eq!(strlen("hello world"), 11);
    assert_eq!(strlen(&"hallo welt".to_string()), 10);
    assert_eq!(strlen(""), 0);
    assert_eq!(strlen("é"), 2);
}

#[test]
fn hei_is_offered_by_a_trait_object() {
    let greeter = Greeter { greeted: Cell::new(0) };
    let object: &dyn Hei<Item = u32> = &greeter;
    object.hei();
    object.hei();
    assert_eq!(greeter.weird(), 2);
}
