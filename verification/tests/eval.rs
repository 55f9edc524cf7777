use spreadsheet::evaluator;
use spreadsheet::types::{CellTable, Position};

fn pos(col: char, row: i32) -> Position {
    Position { col, row }
}

fn table(cells: &[(char, i32, &str)]) -> CellTable {
    let mut t = CellTable::new();
    for (col, row, text) in cells {
        t.insert(pos(*col, *row), text.to_string());
    }
    t
}

#[test]
fn literal_evaluates_to_itself() {
    let t = CellTable::new();
    assert_eq!(evaluator::run("5", &t), Some(5));
    assert_eq!(evaluator::run(" 12 ", &t), Some(12));
    assert_eq!(evaluator::run("0", &t), Some(0));
    assert_eq!(evaluator::run("2147483647", &t), Some(2147483647));
}

#[test]
fn reference_evaluates_to_cell_value() {
    let t = table(&[('A', 1, "5")]);
    assert_eq!(evaluator::run("=A1", &t), Some(5));
}

#[test]
fn self_reference_yields_no_value() {
    let t = table(&[('A', 1, "=A1")]);
    assert_eq!(evaluator::run("=A1", &t), None);
}

#[test]
fn mutual_cycle_yields_no_value() {
    let t = table(&[('A', 1, "=B1"), ('B', 1, "=A1")]);
    assert_eq!(evaluator::run("=A1", &t), None);
    assert_eq!(evaluator::run("=B1", &t), None);
}

#[test]
fn longer_cycle_yields_no_value() {
    let t = table(&[('A', 1, "=B1"), ('B', 1, "=C1"), ('C', 1, "=A1")]);
    assert_eq!(evaluator::run("=A1", &t), None);
}

#[test]
fn dangling_reference_yields_no_value() {
    let t = CellTable::new();
    assert_eq!(evaluator::run("=Z9", &t), None);
}

#[test]
fn arithmetic_evaluates() {
    let t = CellTable::new();
    assert_eq!(evaluator::run("=1+2", &t), Some(3));
    assert_eq!(evaluator::run("=4-1", &t), Some(3));
    assert_eq!(evaluator::run("=3*3", &t), Some(9));
    assert_eq!(evaluator::run("=8/2", &t), Some(4));
    assert_eq!(evaluator::run("=(1+2)", &t), Some(3));
}

#[test]
fn nested_reference_arithmetic() {
    let t = table(&[('A', 1, "=2"), ('B', 1, "=A1*5")]);
    assert_eq!(evaluator::run("=A1*5", &t), Some(10));
    assert_eq!(evaluator::run("=B1", &t), Some(10));
}

#[test]
fn malformed_input_yields_no_value() {
    let t = CellTable::new();
    assert_eq!(evaluator::run("=1+", &t), None);
    assert_eq!(evaluator::run("=+1", &t), None);
    assert_eq!(evaluator::run("abc", &t), None);
}

#[test]
fn evaluation_is_repeatable() {
    let t = table(&[('A', 1, "=B1+1"), ('B', 1, "3")]);
    let first = evaluator::run("=A1", &t);
    let second = evaluator::run("=A1", &t);
    assert_eq!(first, Some(4));
    assert_eq!(second, first);
    // a failing evaluation leaves no trace either
    let cyclic = table(&[('A', 1, "=A1")]);
    assert_eq!(evaluator::run("=A1", &cyclic), None);
    assert_eq!(evaluator::run("=A1", &cyclic), None);
}

#[test]
fn division_by_zero_yields_no_value() {
    let t = CellTable::new();
    assert_eq!(evaluator::run("=1/0", &t), None);
    assert_eq!(evaluator::run("=(1-8)/0", &t), None);
}

#[test]
fn diamond_reference_is_no_cycle() {
    let t = table(&[('A', 1, "5")]);
    assert_eq!(evaluator::run("=A1+A1", &t), Some(10));
}

#[test]
fn negative_results_and_truncating_division() {
    let t = CellTable::new();
    assert_eq!(evaluator::run("=1-2", &t), Some(-1));
    // -7 / 2 truncates toward zero
    assert_eq!(evaluator::run("=(1-8)/2", &t), Some(-3));
    assert_eq!(evaluator::run("=(0-8)/(0-2)", &t), Some(4));
}

#[test]
fn arithmetic_overflow_yields_no_value() {
    let t = CellTable::new();
    assert_eq!(evaluator::run("=2000000000+2000000000", &t), None);
    assert_eq!(evaluator::run("=2000000000*2", &t), None);
    assert_eq!(evaluator::run("=(0-2000000000)-2000000000", &t), None);
}

#[test]
fn empty_referenced_cell_yields_no_value() {
    let t = table(&[('A', 1, "")]);
    assert_eq!(evaluator::run("=A1", &t), None);
}

#[test]
fn reference_through_whitespace_formula() {
    let t = table(&[('A', 1, "=2")]);
    assert_eq!(evaluator::run("= A1* 5", &t), Some(10));
}

#[test]
fn multi_letter_reference_uses_first_letter() {
    let t = table(&[('A', 1, "7")]);
    assert_eq!(evaluator::run("=AA1", &t), Some(7));
}

#[test]
fn insert_replaces_cell_text() {
    let mut t = CellTable::new();
    t.insert(pos('A', 1), "5".to_string());
    assert_eq!(evaluator::run("=A1", &t), Some(5));
    t.insert(pos('A', 1), "6".to_string());
    assert_eq!(evaluator::run("=A1", &t), Some(6));
}

#[test]
fn get_reads_back_raw_text() {
    let t = table(&[('A', 1, "=B1")]);
    assert_eq!(t.get(pos('A', 1)).map(|s| s.as_str()), Some("=B1"));
    assert_eq!(t.get(pos('B', 1)), None);
}
