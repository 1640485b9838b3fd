use msweeper::square::{Square, SquareContent};

#[test]
fn new_square_is_hidden_empty_unmarked() {
    let s = Square::new();
    assert!(s.is_hidden());
    assert!(!s.is_marked());
    assert!(s.is_empty());
    assert!(!s.is_mine());
}

#[test]
fn setters_change_the_content() {
    let mut s = Square::new();
    s.set_mine();
    assert!(s.is_mine() && !s.is_empty());
    s.set_value(3);
    assert_eq!(s.content(), SquareContent::Value(3));
    assert!(!s.is_mine() && !s.is_empty());
    s.set_empty();
    assert!(s.is_empty());
}

#[test]
fn show_clears_the_mark() {
    let mut s = Square::new();
    s.mark();
    s.mark();
    assert!(s.is_marked() && s.is_hidden());
    s.show();
    assert!(!s.is_marked() && !s.is_hidden());
    s.show();
    assert!(!s.is_marked() && !s.is_hidden());
}
