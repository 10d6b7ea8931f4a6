use mazeweb::cell::{Cell, CellType, TYPE_MASK, WALL_E, WALL_MASK, WALL_N, WALL_S, WALL_W};

#[test]
fn new_cell_has_type_bits_and_no_walls() {
    let expected: [(CellType, u8); 9] = [
        (CellType::Default, 0x00),
        (CellType::Wall, 0x10),
        (CellType::Start, 0x20),
        (CellType::End, 0x30),
        (CellType::Path, 0x40),
        (CellType::Visited, 0x50),
        (CellType::LookingAt, 0x60),
        (CellType::Changing, 0x70),
        (CellType::Current, 0x80),
    ];
    for (t, bits) in expected.iter() {
        let c = Cell::new(*t);
        assert_eq!(c.raw(), *bits);
        assert_eq!(c.get_type(), *t);
        assert_eq!(t.bits(), *bits);
        assert_eq!(c.raw() & WALL_MASK, 0);
    }
}

#[test]
fn mask_constants() {
    assert_eq!(WALL_N | WALL_E | WALL_S | WALL_W, WALL_MASK);
    assert_eq!(WALL_MASK, 0x0f);
    assert_eq!(TYPE_MASK, 0xf0);
}

#[test]
fn unknown_type_numbers_read_as_default() {
    let mut c = Cell::new(CellType::Start);
    c.set_raw(0x9f);
    assert_eq!(c.get_type(), CellType::Default);
    c.set_raw(0xf3);
    assert_eq!(c.get_type(), CellType::Default);
    assert_eq!(c.raw(), 0xf3);
}

#[test]
fn set_type_keeps_walls() {
    let mut c = Cell::new(CellType::Path);
    c.add_wall(WALL_E | WALL_S);
    assert_eq!(c.raw(), 0x46);
    c.set_type(CellType::Visited);
    assert_eq!(c.raw(), 0x56);
    assert_eq!(c.get_type(), CellType::Visited);
    assert!(c.has_wall(WALL_E));
    assert!(c.has_wall(WALL_S));
    assert!(!c.has_wall(WALL_N));
    assert!(!c.has_wall(WALL_W));
}

#[test]
fn add_then_remove_wall() {
    let mut c = Cell::new(CellType::End);
    assert!(!c.has_wall(WALL_W));
    c.add_wall(WALL_W);
    assert!(c.has_wall(WALL_W));
    assert_eq!(c.raw(), 0x38);
    c.add_wall(WALL_N);
    c.remove_wall(WALL_W);
    assert!(!c.has_wall(WALL_W));
    assert!(c.has_wall(WALL_N));
    assert_eq!(c.get_type(), CellType::End);
    assert_eq!(c.raw(), 0x31);
}

#[test]
fn toggle_switches_empty_and_wall() {
    let mut c = Cell::new(CellType::Default);
    c.add_wall(WALL_N | WALL_S);
    c.toggle();
    assert_eq!(c.get_type(), CellType::Wall);
    assert_eq!(c.raw(), 0x15);
    c.toggle();
    assert_eq!(c.get_type(), CellType::Default);
    assert_eq!(c.raw(), 0x05);
}

#[test]
fn toggle_of_other_types_gives_default() {
    let mut c = Cell::new(CellType::Visited);
    c.add_wall(WALL_E);
    c.toggle();
    assert_eq!(c.get_type(), CellType::Default);
    assert_eq!(c.raw(), 0x02);
    let mut d = Cell::new(CellType::Start);
    d.set_raw(0x9a);
    d.toggle();
    assert_eq!(d.raw(), 0x1a);
    let mut e = Cell::new(CellType::Changing);
    e.toggle();
    assert_eq!(e.raw(), 0x00);
}

#[test]
fn cells_compare_by_byte() {
    let mut a = Cell::new(CellType::Path);
    let b = Cell::new(CellType::Path);
    assert_eq!(a, b);
    a.add_wall(WALL_N);
    assert_ne!(a, b);
    a.remove_wall(WALL_N);
    assert_eq!(a, b);
}
