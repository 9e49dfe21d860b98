use ratatui_android::{AndroidBackend, Cell, Color};

#[test]
fn test_backend_new() {
    let backend = AndroidBackend::new(120, 40);
    assert_eq!(backend.width, 120);
    assert_eq!(backend.height, 40);
}

#[test]
fn test_backend_resize() {
    let mut backend = AndroidBackend::new(80, 24);
    backend.resize(100, 50);
    assert_eq!(backend.width, 100);
    assert_eq!(backend.height, 50);
}

#[test]
fn test_backend_get_cell() {
    let backend = AndroidBackend::new(80, 24);
    assert!(backend.get_cell(0, 0).is_some());
    assert!(backend.get_cell(79, 23).is_some());
    assert!(backend.get_cell(80, 24).is_none());
}

#[test]
fn test_backend_draw() {
    let mut backend = AndroidBackend::new(80, 24);
    let mut cell = Cell::blank();
    cell.set_char('X');
    cell.fg = Color::Red;

    backend.draw(vec![(5, 5, cell)]);

    let drawn_cell = backend.get_cell(5, 5).unwrap();
    assert_eq!(drawn_cell.symbol, vec!['X']);
    assert_eq!(drawn_cell.fg, Color::Red);
}

#[test]
fn test_backend_clear() {
    let mut backend = AndroidBackend::new(80, 24);
    let mut cell = Cell::blank();
    cell.set_char('X');

    backend.draw(vec![(0, 0, cell)]);
    backend.clear();

    let cleared_cell = backend.get_cell(0, 0).unwrap();
    assert_eq!(cleared_cell.symbol, vec![' ']);
}

#[test]
fn test_backend_size() {
    let backend = AndroidBackend::new(100, 50);
    let size = backend.size();
    assert_eq!(size.0, 100);
    assert_eq!(size.1, 50);
}

#[test]
fn test_backend_cells_iterator() {
    let backend = AndroidBackend::new(10, 10);
    let cells = backend.cells();
    assert_eq!(cells.len(), 100);
}

#[test]
fn resize_twice_gives_blank_grid_of_same_size() {
    let mut backend = AndroidBackend::new(4, 3);
    backend.draw(vec![(1, 1, Cell::from_char('Q', Color::Green, Color::Blue))]);
    backend.resize(6, 2);
    let first: Vec<Vec<char>> = backend.cells().into_iter().map(|(_, _, c)| c.symbol).collect();
    backend.resize(6, 2);
    let second: Vec<Vec<char>> = backend.cells().into_iter().map(|(_, _, c)| c.symbol).collect();
    assert_eq!(first.len(), 12);
    assert_eq!(first, second);
    assert!(second.iter().all(|s| s == &vec![' ']));
    assert_eq!(backend.size(), (6, 2));
}

#[test]
fn off_grid_reads_and_draws_are_ignored() {
    let mut backend = AndroidBackend::new(3, 2);
    assert!(backend.get_cell(3, 0).is_none());
    assert!(backend.get_cell(0, 2).is_none());
    backend.draw(vec![
        (3, 0, Cell::from_char('A', Color::Red, Color::Reset)),
        (0, 2, Cell::from_char('B', Color::Red, Color::Reset)),
        (2, 1, Cell::from_char('C', Color::Red, Color::Reset)),
    ]);
    let symbols: Vec<Vec<char>> = backend.cells().into_iter().map(|(_, _, c)| c.symbol).collect();
    assert_eq!(symbols[5], vec!['C']);
    assert_eq!(symbols.iter().filter(|s| *s == &vec![' ']).count(), 5);

    let mut empty = AndroidBackend::new(0, 0);
    assert!(empty.get_cell(0, 0).is_none());
    empty.draw(vec![(0, 0, Cell::from_char('Z', Color::Red, Color::Reset))]);
    assert_eq!(empty.cells().len(), 0);
}

#[test]
fn draw_later_entry_wins() {
    let mut backend = AndroidBackend::new(2, 2);
    backend.draw(vec![
        (1, 0, Cell::from_char('A', Color::Red, Color::Reset)),
        (1, 0, Cell::from_char('B', Color::Red, Color::Reset)),
    ]);
    assert_eq!(backend.get_cell(1, 0).unwrap().symbol, vec!['B']);
}

#[test]
fn cursor_and_window_size() {
    let mut backend = AndroidBackend::new(80, 24);
    assert_eq!(backend.get_cursor_position(), (0, 0));
    backend.set_cursor_position(7, 3);
    assert_eq!(backend.get_cursor_position(), (7, 3));
    let ws = backend.window_size();
    assert_eq!((ws.columns, ws.rows, ws.pixel_width, ws.pixel_height), (80, 24, 640, 384));
    let area = backend.buffer_area();
    assert_eq!((area.x, area.y, area.width, area.height), (0, 0, 80, 24));
}

#[test]
fn cells_are_row_major_with_coordinates() {
    let mut backend = AndroidBackend::new(3, 2);
    backend.draw(vec![(0, 1, Cell::from_char('R', Color::Red, Color::Reset))]);
    let cells = backend.cells();
    assert_eq!((cells[3].0, cells[3].1), (0, 1));
    assert_eq!(cells[3].2.symbol, vec!['R']);
    assert_eq!((cells[2].0, cells[2].1), (2, 0));
}

#[test]
fn get_cell_mut_changes_one_cell() {
    let mut backend = AndroidBackend::new(3, 2);
    {
        let cell = backend.get_cell_mut(2, 1).unwrap();
        cell.set_char('M');
        cell.bg = Color::Cyan;
    }
    assert!(backend.get_cell_mut(3, 1).is_none());
    assert!(backend.get_cell_mut(0, 2).is_none());
    let c = backend.get_cell(2, 1).unwrap();
    assert_eq!(c.symbol, vec!['M']);
    assert_eq!(c.bg, Color::Cyan);
    assert_eq!(backend.get_cell(1, 1).unwrap().symbol, vec![' ']);
}

#[test]
fn default_backend_is_80_by_24() {
    let backend = AndroidBackend::default();
    assert_eq!(backend.size(), (80, 24));
    assert_eq!(backend.cells().len(), 80 * 24);
}
