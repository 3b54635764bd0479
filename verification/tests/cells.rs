use minefair_field::{Cell, Field, Risk};

#[test]
fn cell_conversion() {
    for cell in [Cell::Hidden(true), Cell::Revealed(3)] {
        assert_eq!(cell.to_data().to_cell(), cell);
    }
}

#[test]
fn field_cell_conversion() {
    for cell in [Cell::Hidden(true), Cell::Revealed(3)] {
        assert_eq!(cell.to_data().to_cell(), cell);
    }
}

#[test]
fn field_permanence() {
    let mut field = Field::default();
    let cell = Cell::Revealed(3);
    let point = (0, 2);
    field.set(point, cell);
    assert_eq!(field.get(point), Some(cell));
}

#[test]
fn field_field_permanence() {
    let mut field = Field::default();
    let cell = Cell::Revealed(3);
    let point = (0, 2);
    field.set(point, cell);
    assert_eq!(field.get(point), Some(cell));
}

#[test]
fn uninitialized() {
    let field = Field::default();
    let point = (0, 2);
    assert_eq!(field.get(point), Some(Cell::new()));
}

#[test]
fn field_uninitialized() {
    let field = Field::default();
    let point = (0, 2);
    assert_eq!(field.get(point), Some(Cell::new()));
}

#[test]
fn negative_index() {
    let mut field = Field::default();
    let cell = Cell::Hidden(false);
    let point = (-2, 0);
    field.set(point, cell);
    assert_eq!(field.get(point), Some(cell));
}

#[test]
fn field_negative_index() {
    let mut field = Field::default();
    let cell = Cell::Hidden(false);
    let point = (-2, 0);
    field.set(point, cell);
    assert_eq!(field.get(point), Some(cell));
}

#[test]
fn barrage() {
    let mut field = Field::default();
    for x in -128..=128 {
        for y in -128..=128 {
            field.set((x, y), Cell::Revealed(0));
        }
    }
    for x in -128..=128 {
        for y in -128..=128 {
            assert_eq!(field.get((x, y)), Some(Cell::Revealed(0)));
        }
    }
}

#[test]
fn field_barrage() {
    let mut field = Field::default();
    for x in -128..=128 {
        for y in -128..=128 {
            field.set((x, y), Cell::Revealed(0));
        }
    }
    for x in -128..=128 {
        for y in -128..=128 {
            assert_eq!(field.get((x, y)), Some(Cell::Revealed(0)));
        }
    }
}

#[test]
fn toggle_flag_marks_hidden_cells_only() {
    let mut field = Field::default();
    field.toggle_flag((4, 4));
    assert_eq!(field.get((4, 4)), Some(Cell::Hidden(true)));
    field.toggle_flag((4, 4));
    assert_eq!(field.get((4, 4)), Some(Cell::Hidden(false)));
    field.set((5, 5), Cell::Revealed(2));
    field.toggle_flag((5, 5));
    assert_eq!(field.get((5, 5)), Some(Cell::Revealed(2)));
}

#[test]
fn risk_fraction_bounds() {
    assert!(Risk::new(0, 0).is_none());
    assert!(Risk::new(3, 2).is_none());
    let half = Risk::new(1, 2).unwrap();
    assert!(!half.is_zero());
    assert!(!half.is_one());
    assert!(Risk::new(0, 7).unwrap().is_zero());
    assert!(Risk::new(7, 7).unwrap().is_one());
}

#[test]
fn cell_counter_tracks_transitions() {
    let mut field = Field::default();
    assert_eq!(field.cells_revealed(), 0);
    field.set((0, 0), Cell::Revealed(1));
    assert_eq!(field.cells_revealed(), 1);
    field.set((0, 0), Cell::Revealed(4));
    assert_eq!(field.cells_revealed(), 1);
    field.set((0, 0), Cell::Hidden(false));
    assert_eq!(field.cells_revealed(), 0);
}
