use sheet_engine::app_state::{App, Mode};
use sheet_engine::database::Database;

fn create_test_app(rows: u16, cols: u16) -> App<'static> {
    let db = Database::new(rows, cols);
    App::new(db)
}

#[test]
fn test_app_new() {
    let app = create_test_app(10, 5);

    assert_eq!(app.mode, Mode::Normal);
    assert_eq!(app.input_buffer, "");
    assert_eq!(app.file_name, "");
    assert_eq!(app.topleft, (0, 0));
    assert_eq!(app.selected, (0, 0));
    assert_eq!(app.dissz, (0, 0));
    assert_eq!(app.db.num_rows(), 10);
    assert_eq!(app.db.num_cols(), 5);
}

#[test]
fn test_move_up() {
    let mut app = create_test_app(10, 5);

    app.selected = (1, 0);
    app.dissz = (5, 5);
    app.move_up();
    assert_eq!(app.selected, (0, 0));
    assert_eq!(app.topleft, (0, 0));

    app.move_up();
    assert_eq!(app.selected, (0, 0));
    assert_eq!(app.topleft, (0, 0));

    let mut app_scroll = create_test_app(10, 5);
    app_scroll.selected = (5, 0);
    app_scroll.topleft = (5, 0);
    app_scroll.set_dissz((5, 5));

    app_scroll.move_up();
    assert_eq!(app_scroll.selected, (4, 0));
    assert_eq!(app_scroll.topleft, (4, 0));
}

#[test]
fn test_move_down() {
    let mut app = create_test_app(10, 5);

    app.selected = (8, 0);
    app.set_dissz((5, 5));
    app.topleft = (4, 0);

    app.move_down();
    assert_eq!(app.selected, (9, 0));
    assert_eq!(app.topleft, (4, 0));

    app.move_down();
    assert_eq!(app.selected, (9, 0));
    assert_eq!(app.topleft, (4, 0));

    app.selected = (4, 0);
    app.topleft = (0, 0);
    app.set_dissz((5, 5));

    app.move_down();
    assert_eq!(app.selected, (5, 0));
    assert_eq!(app.topleft, (0, 0));
}

#[test]
fn test_move_left() {
    let mut app = create_test_app(10, 5);
    app.selected = (0, 3);
    app.topleft = (0, 0);
    app.set_dissz((10, 5));

    app.move_left();
    assert_eq!(app.selected, (0, 2));
    assert_eq!(app.topleft, (0, 0));

    app.selected = (0, 1);
    app.move_left();
    assert_eq!(app.selected, (0, 0));
    assert_eq!(app.topleft, (0, 0));

    app.move_left();
    assert_eq!(app.selected, (0, 0));
    assert_eq!(app.topleft, (0, 0));

    let mut app_scroll = create_test_app(10, 5);
    app_scroll.selected = (0, 3);
    app_scroll.topleft = (0, 3);
    app_scroll.set_dissz((5, 3));

    app_scroll.move_left();
    assert_eq!(app_scroll.selected, (0, 2));
    assert_eq!(app_scroll.topleft, (0, 2));
}

#[test]
fn test_move_right() {
    let mut app = create_test_app(10, 5);
    app.selected = (0, 0);
    app.topleft = (0, 0);
    app.set_dissz((5, 3));

    app.move_right();
    assert_eq!(app.selected, (0, 1));
    assert_eq!(app.topleft, (0, 0));

    app.selected = (0, 3);
    app.set_dissz((5, 3));
    app.topleft = (0, 2);

    app.move_right();
    assert_eq!(app.selected, (0, 4));
    assert_eq!(app.topleft, (0, 2));

    app.move_right();
    assert_eq!(app.selected, (0, 4));
    assert_eq!(app.topleft, (0, 2));

    app.selected = (0, 2);
    app.topleft = (0, 0);
    app.set_dissz((5, 3));

    app.move_right();
    assert_eq!(app.selected, (0, 3));
    assert_eq!(app.topleft, (0, 0));
}

#[test]
fn test_set_dissz() {
    let mut app = create_test_app(10, 5);
    assert_eq!(app.dissz, (0, 0));

    app.set_dissz((20, 15));
    assert_eq!(app.dissz, (20, 15));

    app.set_dissz((5, 5));
    assert_eq!(app.dissz, (5, 5));
}

#[test]
fn scrolls_down_past_window() {
    let mut app = create_test_app(10, 5);
    app.selected = (3, 0);
    app.set_dissz((3, 3));
    app.move_down();
    assert_eq!(app.selected, (4, 0));
    assert_eq!(app.topleft, (1, 0));
}
