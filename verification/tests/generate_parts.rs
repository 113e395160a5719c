use arkham_client::generate::counter::Counter as NameCounter;
use arkham_client::generate::ids::Counter as IdCounter;
use arkham_client::generate::logic::{parse_logic, LogicTerm};

#[test]
fn name_counter_finds_names_added_once() {
    let mut c: NameCounter<i64> = NameCounter::new();
    c.add(String::from("a"), 1);
    c.add(String::from("b"), 2);
    c.add(String::from("a"), 3);
    c.add(String::from("d"), 4);
    assert_eq!(c.unique(), vec![2, 4]);
    assert!(c.is_unique(&String::from("b")));
    assert!(!c.is_unique(&String::from("a")));
    assert!(!c.is_unique(&String::from("c")));
}

#[test]
fn id_counter_shifts_repeats() {
    let mut c = IdCounter::new(40);
    assert_eq!(c.get(5), 5);
    assert_eq!(c.get(5), 5 | (1 << 40));
    assert_eq!(c.get(7), 7);
    assert_eq!(c.get(5), 5 | (2 << 40));
    assert_eq!(c.get(7), 7 | (1 << 40));
}

#[test]
fn empty_rule_is_true() {
    let t = parse_logic("Night", "");
    assert!(matches!(t, LogicTerm::True));
    assert_eq!(t.as_rust_expr(), "true");
    assert_eq!(t.as_py_expr(), "True");
}

#[test]
fn single_unlock_is_trimmed() {
    let t = parse_logic("Night", " Key ");
    assert_eq!(t.as_rust_expr(), "state.has(\"Night\", \"Key\")");
    assert_eq!(t.as_py_expr(), "state.prog_items[player].get(\"Night - Key\",False)");
}

#[test]
fn alternatives_and_requirements() {
    let or = parse_logic("C", "Key|Lantern");
    assert_eq!(or.as_rust_expr(), "state.has(\"C\", \"Key\")||state.has(\"C\", \"Lantern\")");
    assert_eq!(or.as_py_expr(), "state.has_any((\"C - Key\",\"C - Lantern\"),player)");
    let and = parse_logic("C", "A&B");
    assert_eq!(and.as_rust_expr(), "(state.has(\"C\", \"A\"))&&(state.has(\"C\", \"B\"))");
    assert_eq!(and.as_py_expr(), "state.has_all((\"C - A\",\"C - B\"),player)");
}

#[test]
fn alternatives_bind_looser_than_requirements() {
    let t = parse_logic("X", "A|B&C");
    assert_eq!(t.as_rust_expr(), "state.has(\"X\", \"A\")||(state.has(\"X\", \"B\"))&&(state.has(\"X\", \"C\"))");
    assert_eq!(
        t.as_py_expr(),
        "state.prog_items[player].get(\"X - A\",False) or (state.has_all((\"X - B\",\"X - C\"),player))"
    );
}

#[test]
fn unlock_names_are_escaped() {
    let t = parse_logic("X", "Say \"hi\"");
    assert_eq!(t.as_rust_expr(), "state.has(\"X\", \"Say \\\"hi\\\"\")");
}

#[test]
fn copied_rule_reads_the_same() {
    let t = parse_logic("X", "A|B&C");
    assert_eq!(t.copy().as_py_expr(), t.as_py_expr());
}
