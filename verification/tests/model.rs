use spreadsheet::evaluator;
use spreadsheet::types::{Model, Msg, Position, ENTER_KEY_CODE};

fn pos(col: char, row: i32) -> Position {
    Position { col, row }
}

#[test]
fn init_builds_the_grid() {
    let m = Model::init();
    assert_eq!(m.rows, (1..=16).collect::<Vec<i32>>());
    assert_eq!(m.cols, ('A'..='L').collect::<Vec<char>>());
    assert_eq!(m.active, None);
    assert_eq!(m.cells.get(pos('A', 1)), None);
}

#[test]
fn start_edit_sets_active_cell() {
    let mut m = Model::init();
    m.update(Msg::StartEdit(pos('C', 3)));
    assert_eq!(m.active, Some(pos('C', 3)));
}

#[test]
fn enter_moves_active_cell_down() {
    let mut m = Model::init();
    m.update(Msg::StartEdit(pos('C', 3)));
    m.update(Msg::KeyDown(ENTER_KEY_CODE));
    assert_eq!(m.active, Some(pos('C', 4)));
}

#[test]
fn enter_wraps_at_the_last_row() {
    let mut m = Model::init();
    m.update(Msg::StartEdit(pos('B', 15)));
    m.update(Msg::KeyDown(ENTER_KEY_CODE));
    assert_eq!(m.active, Some(pos('B', 0)));
}

#[test]
fn enter_past_the_last_row_wraps_to_one() {
    let mut m = Model::init();
    m.update(Msg::StartEdit(pos('B', 16)));
    m.update(Msg::KeyDown(ENTER_KEY_CODE));
    assert_eq!(m.active, Some(pos('B', 1)));
}

#[test]
fn enter_on_a_negative_row_keeps_the_remainder_sign() {
    let mut m = Model::init();
    m.update(Msg::StartEdit(pos('B', -3)));
    m.update(Msg::KeyDown(ENTER_KEY_CODE));
    assert_eq!(m.active, Some(pos('B', -2)));
}

#[test]
fn other_keys_leave_the_model_alone() {
    let mut m = Model::init();
    m.update(Msg::StartEdit(pos('B', 2)));
    m.update(Msg::KeyDown(7));
    assert_eq!(m.active, Some(pos('B', 2)));
}

#[test]
fn enter_without_active_cell_does_nothing() {
    let mut m = Model::init();
    m.update(Msg::KeyDown(ENTER_KEY_CODE));
    assert_eq!(m.active, None);
}

#[test]
fn update_value_stores_cell_text() {
    let mut m = Model::init();
    m.update(Msg::UpdateValue(pos('A', 1), "2".to_string()));
    m.update(Msg::UpdateValue(pos('B', 1), "=A1*5".to_string()));
    assert_eq!(evaluator::run("=B1", &m.cells), Some(10));
}
