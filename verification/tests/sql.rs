use pagetree::btree::BTree;
use pagetree::sql::{
    delete_statement, do_select, insert_statement, parse_int, parse_meta, parse_statement,
    patterns_compile, select_statement, MetaCommand, Statement,
};
use pagetree::values::{Value, VarChar};

fn text(s: &str) -> Value {
    Value::VarChar(VarChar::new(s))
}

#[test]
fn the_patterns_compile() {
    assert!(patterns_compile());
}

#[test]
fn parses_an_insert() {
    match parse_statement("insert 1 'meiji163' 'meiji163@github.com'") {
        Some(Statement::Insert((id, vals))) => {
            assert_eq!(id, 1);
            assert_eq!(vals, vec![text("meiji163"), text("meiji163@github.com")]);
        }
        other => panic!("not an insert: {:?}", other),
    }
    match parse_statement("insert   -42\t''   'x y'") {
        Some(Statement::Insert((id, vals))) => {
            assert_eq!(id, -42);
            assert_eq!(vals, vec![text(""), text("x y")]);
        }
        other => panic!("not an insert: {:?}", other),
    }
}

#[test]
fn insert_texts_take_as_much_as_they_can() {
    match parse_statement("insert 1 'a' 'b' 'c'") {
        Some(Statement::Insert((id, vals))) => {
            assert_eq!(id, 1);
            assert_eq!(vals, vec![text("a' 'b"), text("c")]);
        }
        other => panic!("not an insert: {:?}", other),
    }
}

#[test]
fn parses_selects_and_deletes() {
    assert!(matches!(parse_statement("select *"), Some(Statement::SelectAll)));
    assert!(matches!(parse_statement("select 5"), Some(Statement::SelectOne(5))));
    assert!(matches!(parse_statement("select -5"), Some(Statement::SelectOne(-5))));
    assert!(matches!(parse_statement("select  007"), Some(Statement::SelectOne(7))));
    assert!(matches!(parse_statement("delete 7"), Some(Statement::Delete(7))));
    assert!(matches!(parse_statement("delete -2147483648"), Some(Statement::Delete(i32::MIN))));
    assert!(matches!(parse_statement("select 2147483647"), Some(Statement::SelectOne(i32::MAX))));
}

#[test]
fn rejects_what_is_no_statement() {
    for s in [
        "",
        "   ",
        "foo",
        "insert",
        "insert 1 'a'",
        "insert x 'a' 'b'",
        " insert 1 'a' 'b'",
        "INSERT 1 'a' 'b'",
        "Select *",
        "select",
        "select **",
        "select 1 2",
        "delete *",
        "delete",
        "delete 1 ",
        "select * ",
        "select +5",
    ] {
        assert!(parse_statement(s).is_none(), "{:?}", s);
    }
}

#[test]
fn rejects_keys_that_are_no_32_bit_numbers() {
    assert!(parse_statement("select 2147483648").is_none());
    assert!(parse_statement("delete -2147483649").is_none());
    assert!(parse_statement("insert 99999999999999999999999 'a' 'b'").is_none());
    assert!(parse_statement("select \u{0663}").is_none());
}

#[test]
fn statements_from_groups() {
    let some = |s: &str| Some(s.to_string());
    let groups = vec![some("insert 3 'a' 'b'"), some("3"), some("a"), some("b")];
    match insert_statement(&groups) {
        Some(Statement::Insert((id, vals))) => {
            assert_eq!(id, 3);
            assert_eq!(vals, vec![text("a"), text("b")]);
        }
        other => panic!("not an insert: {:?}", other),
    }
    assert!(insert_statement(&vec![some("x"), some("3"), some("a")]).is_none());
    assert!(insert_statement(&vec![some("x"), some("3"), None, some("b")]).is_none());
    assert!(insert_statement(&vec![some("x"), some("3x"), some("a"), some("b")]).is_none());
    assert!(matches!(select_statement(&vec![some("x"), some("*")]), Some(Statement::SelectAll)));
    assert!(matches!(select_statement(&vec![some("x"), some("12")]), Some(Statement::SelectOne(12))));
    assert!(select_statement(&vec![some("x"), some("**")]).is_none());
    assert!(select_statement(&vec![some("x"), None]).is_none());
    assert!(select_statement(&vec![some("x")]).is_none());
    assert!(matches!(delete_statement(&vec![some("x"), some("-9")]), Some(Statement::Delete(-9))));
    assert!(delete_statement(&vec![some("x"), some("*")]).is_none());
    assert!(delete_statement(&vec![]).is_none());
}

#[test]
fn parse_int_reads_decimal() {
    assert_eq!(parse_int(b"0"), Some(0));
    assert_eq!(parse_int(b"-0"), Some(0));
    assert_eq!(parse_int(b"163"), Some(163));
    assert_eq!(parse_int(b"-70"), Some(-70));
    assert_eq!(parse_int(b"0000000000000000000012"), Some(12));
    assert_eq!(parse_int(b"2147483647"), Some(i32::MAX));
    assert_eq!(parse_int(b"2147483648"), None);
    assert_eq!(parse_int(b"-2147483648"), Some(i32::MIN));
    assert_eq!(parse_int(b"-2147483649"), None);
    assert_eq!(parse_int(b"99999999999999999999"), None);
    assert_eq!(parse_int(b""), None);
    assert_eq!(parse_int(b"-"), None);
    assert_eq!(parse_int(b"+5"), None);
    assert_eq!(parse_int(b"1a"), None);
    assert_eq!(parse_int(b"--1"), None);
    assert_eq!(parse_int(b" 1"), None);
}

#[test]
fn parse_meta_knows_exit() {
    assert_eq!(parse_meta(".exit"), Some(MetaCommand::Exit));
    assert_eq!(parse_meta(".Exit"), None);
    assert_eq!(parse_meta(".exit "), None);
    assert_eq!(parse_meta("exit"), None);
    assert_eq!(parse_meta(""), None);
}

#[test]
fn do_select_gives_rows_of_key_and_values() {
    let mut bt: BTree<i32, Vec<Value>> = BTree::new(3, true);
    for k in [3, 1, 2, 5, 4] {
        let row = vec![text(&format!("user{}", k)), text(&format!("user{}@example.org", k))];
        assert!(bt.insert(k, row).is_ok());
    }
    assert!(bt.delete(&2).is_ok());
    let all = do_select(&mut bt, Statement::SelectAll);
    let expected: Vec<Vec<Value>> = [1, 3, 4, 5]
        .iter()
        .map(|&k| {
            vec![
                Value::Int(k),
                text(&format!("user{}", k)),
                text(&format!("user{}@example.org", k)),
            ]
        })
        .collect();
    assert_eq!(all, expected);
    let one = do_select(&mut bt, Statement::SelectOne(4));
    assert_eq!(one, vec![vec![Value::Int(4), text("user4"), text("user4@example.org")]]);
    assert_eq!(do_select(&mut bt, Statement::SelectOne(2)), Vec::<Vec<Value>>::new());
    assert_eq!(do_select(&mut bt, Statement::SelectOne(9)), Vec::<Vec<Value>>::new());
    assert_eq!(do_select(&mut bt, Statement::Delete(1)), Vec::<Vec<Value>>::new());
    assert_eq!(
        do_select(&mut bt, Statement::Insert((7, vec![]))),
        Vec::<Vec<Value>>::new()
    );
    assert_eq!(do_select(&mut bt, Statement::SelectAll).len(), 4);
}
