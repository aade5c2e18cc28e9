use crossword_solver::domain::Domain;
use crossword_solver::dawg::Dawg;

#[test]
fn full_holds_every_letter() {
    let d = Domain::full();
    assert_eq!(d.count(), 26);
    assert!(d.contains('A'));
    assert!(d.contains('Z'));
    assert!(d.contains('m'));
    assert!(!d.contains('3'));
    assert!(!d.is_empty());
}

#[test]
fn empty_holds_nothing() {
    let d = Domain::empty();
    assert_eq!(d.count(), 0);
    assert!(d.is_empty());
    assert!(!d.contains('A'));
    assert_eq!(d.is_singleton(), None);
}

#[test]
fn from_char_folds_case() {
    let d = Domain::from_char('q');
    assert!(d.contains('Q'));
    assert!(d.contains('q'));
    assert_eq!(d.count(), 1);
    assert_eq!(d.is_singleton(), Some('Q'));
    let bad = Domain::from_char('!');
    assert!(bad.is_empty());
}

#[test]
fn intersect_and_union() {
    let a = Domain::from_char('A').union(Domain::from_char('B'));
    let b = Domain::from_char('B').union(Domain::from_char('C'));
    let i = a.intersect(b);
    assert_eq!(i.is_singleton(), Some('B'));
    let u = a.union(b);
    assert_eq!(u.count(), 3);
    assert!(u.contains('A') && u.contains('B') && u.contains('C'));
}

#[test]
fn remove_deletes_one_letter() {
    let mut d = Domain::full();
    d.remove('K');
    assert_eq!(d.count(), 25);
    assert!(!d.contains('K'));
    assert!(d.contains('J'));
    d.remove('?');
    assert_eq!(d.count(), 25);
}

#[test]
fn iter_is_sorted_and_complete() {
    let d = Domain::from_char('Z').union(Domain::from_char('A')).union(Domain::from_char('M'));
    let v = d.iter();
    assert_eq!(v, vec!['A', 'M', 'Z']);
    let all = Domain::full().iter();
    assert_eq!(all.len(), 26);
    assert_eq!(all[0], 'A');
    assert_eq!(all[25], 'Z');
}

#[test]
fn dawg_insert_and_is_word() {
    let mut d = Dawg::new();
    assert!(!d.is_word("cat"));
    d.insert("cat");
    d.insert("car");
    assert!(d.is_word("cat"));
    assert!(d.is_word("CAT"));
    assert!(d.is_word("CaR"));
    assert!(!d.is_word("ca"));
    assert!(!d.is_word("cats"));
    assert!(!d.is_word("dog"));
}

#[test]
fn dawg_insert_is_idempotent() {
    let mut d = Dawg::new();
    d.insert("tree");
    d.insert("tree");
    assert!(d.is_word("tree"));
    assert!(!d.is_word("tre"));
}

#[test]
fn dawg_prefixes() {
    let mut d = Dawg::new();
    d.insert("stone");
    assert!(d.is_valid_prefix(""));
    assert!(d.is_valid_prefix("st"));
    assert!(d.is_valid_prefix("stone"));
    assert!(!d.is_valid_prefix("sx"));
    assert!(!d.is_word("st"));
}

#[test]
fn dawg_next_chars_sorted() {
    let mut d = Dawg::new();
    d.insert("cat");
    d.insert("cot");
    d.insert("cub");
    let next = d.next_chars("c").expect("prefix exists");
    assert_eq!(next, vec!['A', 'O', 'U']);
    assert!(d.next_chars("x").is_none());
    let roots = d.next_chars("").expect("root exists");
    assert_eq!(roots, vec!['C']);
}
