//! A maze cell packed into one byte.
//!
//! Bits 0..=3 hold the walls (north, east, south, west; 1 = wall present),
//! bits 4..=7 hold the cell's type.
use vstd::prelude::*;

verus! {

pub const WALL_N: u8 = 0b00000001;

pub const WALL_E: u8 = 0b00000010;

pub const WALL_S: u8 = 0b00000100;

pub const WALL_W: u8 = 0b00001000;

pub const WALL_MASK: u8 = 0b00001111;

pub const TYPE_MASK: u8 = 0b11110000;

/// The kind of a cell, stored in the upper four bits of its byte: 0x00 an
/// empty cell (`Default`), 0x10 a wall, 0x20 start, 0x30 end, 0x40 path,
/// 0x50 visited, 0x60 looked at, 0x70 changing. The generators also need a
/// mark for the cell they are working on (`Current`); it takes the first
/// free number, 0x80. Numbers 0x90 to 0xF0 denote no type and read as
/// `Default`.
#[derive(Clone, Copy, Debug, PartialEq, Eq, Structural)]
pub enum CellType {
    Default,
    Wall,
    Start,
    End,
    Path,
    Visited,
    LookingAt,
    Changing,
    Current,
}

/// The byte pattern of a cell type (its number shifted into the upper nibble).
pub open spec fn type_bits(t: CellType) -> u8 {
    match t {
        CellType::Default => 0x00,
        CellType::Wall => 0x10,
        CellType::Start => 0x20,
        CellType::End => 0x30,
        CellType::Path => 0x40,
        CellType::Visited => 0x50,
        CellType::LookingAt => 0x60,
        CellType::Changing => 0x70,
        CellType::Current => 0x80,
    }
}

/// The type that a raw cell byte denotes; type numbers 9..=15 read as `Default`.
pub open spec fn type_of(v: u8) -> CellType {
    let t = v & TYPE_MASK;
    if t == 0x10 {
        CellType::Wall
    } else if t == 0x20 {
        CellType::Start
    } else if t == 0x30 {
        CellType::End
    } else if t == 0x40 {
        CellType::Path
    } else if t == 0x50 {
        CellType::Visited
    } else if t == 0x60 {
        CellType::LookingAt
    } else if t == 0x70 {
        CellType::Changing
    } else if t == 0x80 {
        CellType::Current
    } else {
        CellType::Default
    }
}

/// A raw byte with its type replaced by `t` and its walls kept.
pub open spec fn with_type(v: u8, t: CellType) -> u8 {
    (v & WALL_MASK) | type_bits(t)
}

/// The type that `toggle` switches a cell of type `t` to.
pub open spec fn toggled_type(t: CellType) -> CellType {
    match t {
        CellType::Default => CellType::Wall,
        _ => CellType::Default,
    }
}

impl CellType {
    /// The byte pattern of this type, as stored in a cell.
    pub fn bits(self) -> (b: u8)
        ensures
            b == type_bits(self),
    {
        match self {
            CellType::Default => 0x00,
            CellType::Wall => 0x10,
            CellType::Start => 0x20,
            CellType::End => 0x30,
            CellType::Path => 0x40,
            CellType::Visited => 0x50,
            CellType::LookingAt => 0x60,
            CellType::Changing => 0x70,
            CellType::Current => 0x80,
        }
    }
}

/// One cell of the maze: its walls and its type in a single byte.
#[derive(Clone, Copy, Debug, PartialEq, Eq, Structural)]
pub struct Cell {
    value: u8,
}

impl View for Cell {
    type V = u8;

    closed spec fn view(&self) -> u8 {
        self.value
    }
}

/// The cell whose byte is `v`.
pub closed spec fn cell_of(v: u8) -> Cell {
    Cell { value: v }
}

/// A cell is determined by its byte.
pub broadcast proof fn lemma_cell_view_injective(a: Cell, b: Cell)
    ensures
        #[trigger] a@ == #[trigger] b@ <==> a == b,
{
}

/// `cell_of` builds the cell with the given byte, and every cell is built so.
pub broadcast proof fn lemma_cell_of(v: u8, c: Cell)
    ensures
        #[trigger] cell_of(v)@ == v,
        cell_of(#[trigger] c@) == c,
{
}

pub broadcast group group_cell_lemmas {
    lemma_cell_view_injective,
    lemma_cell_of,
}

impl Cell {
    /// Get the cell type
    pub fn get_type(&self) -> (t: CellType)
        ensures
            t == type_of(self@),
    {
        let t = self.value & TYPE_MASK;
        if t == 0x00 {
            CellType::Default
        } else if t == 0x10 {
            CellType::Wall
        } else if t == 0x20 {
            CellType::Start
        } else if t == 0x30 {
            CellType::End
        } else if t == 0x40 {
            CellType::Path
        } else if t == 0x50 {
            CellType::Visited
        } else if t == 0x60 {
            CellType::LookingAt
        } else if t == 0x70 {
            CellType::Changing
        } else if t == 0x80 {
            CellType::Current
        } else {
            CellType::Default
        }
    }

    /// Create a new Cell with a specific type and no walls
    pub fn new(cell_type: CellType) -> (c: Cell)
        ensures
            c@ == type_bits(cell_type),
    {
        Cell { value: cell_type.bits() }
    }

    /// Get the raw u8 representation
    pub fn raw(&self) -> (v: u8)
        ensures
            v == self@,
    {
        self.value
    }

    /// Set the raw value (careful!)
    pub fn set_raw(&mut self, val: u8)
        ensures
            final(self)@ == val,
    {
        self.value = val;
    }

    /// Set the cell type
    pub fn set_type(&mut self, cell_type: CellType)
        ensures
            final(self)@ == with_type(old(self)@, cell_type),
    {
        self.value = (self.value & WALL_MASK) | cell_type.bits();
    }

    /// Toggle the cell between empty and wall: a `Default` cell becomes
    /// `Wall`, any other becomes `Default`. The wall bits are kept.
    pub fn toggle(&mut self)
        ensures
            final(self)@ == with_type(old(self)@, toggled_type(type_of(old(self)@))),
            type_of(old(self)@) == CellType::Default ==> final(self)@ == with_type(
                old(self)@,
                CellType::Wall,
            ),
            type_of(old(self)@) != CellType::Default ==> final(self)@ == with_type(
                old(self)@,
                CellType::Default,
            ),
    {
        let new_type = match self.get_type() {
            CellType::Default => CellType::Wall,
            _ => CellType::Default,
        };
        self.set_type(new_type);
    }

    /// Check if a wall exists
    pub fn has_wall(&self, wall: u8) -> (b: bool)
        ensures
            b == (self@ & wall != 0),
    {
        self.value & wall != 0
    }

    /// Add a wall
    pub fn add_wall(&mut self, wall: u8)
        ensures
            final(self)@ == old(self)@ | wall,
    {
        self.value = self.value | wall;
    }

    /// Remove a wall
    pub fn remove_wall(&mut self, wall: u8)
        ensures
            final(self)@ == old(self)@ & !wall,
    {
        self.value = self.value & !wall;
    }
}

/// Setting a type and reading it back gives that type, and the walls stay.
pub proof fn lemma_set_type_then_get_type(v: u8, t: CellType)
    ensures
        type_of(with_type(v, t)) == t,
        with_type(v, t) & WALL_MASK == v & WALL_MASK,
{
    let b = type_bits(t);
    assert(b & 0x0f == 0) by (bit_vector)
        requires
            b == 0x00 || b == 0x10 || b == 0x20 || b == 0x30 || b == 0x40 || b == 0x50 || b
                == 0x60 || b == 0x70 || b == 0x80,
    ;
    assert(((v & 0x0f) | b) & 0xf0 == b) by (bit_vector)
        requires
            b & 0x0f == 0,
    ;
    assert(((v & 0x0f) | b) & 0x0f == v & 0x0f) by (bit_vector)
        requires
            b & 0x0f == 0,
    ;
}

/// An added wall is present, a removed wall is absent.
pub proof fn lemma_add_remove_wall(v: u8, wall: u8)
    ensures
        wall != 0 ==> (v | wall) & wall != 0,
        (v & !wall) & wall == 0,
{
    assert(wall != 0 ==> (v | wall) & wall != 0) by (bit_vector);
    assert((v & !wall) & wall == 0) by (bit_vector);
}

/// Adding or removing walls leaves the cell's type unchanged.
pub proof fn lemma_wall_change_keeps_type(v: u8, wall: u8)
    requires
        wall & TYPE_MASK == 0,
    ensures
        (v | wall) & TYPE_MASK == v & TYPE_MASK,
        (v & !wall) & TYPE_MASK == v & TYPE_MASK,
        type_of(v | wall) == type_of(v),
        type_of(v & !wall) == type_of(v),
{
    assert((v | wall) & 0xf0 == v & 0xf0) by (bit_vector)
        requires
            wall & 0xf0 == 0,
    ;
    assert((v & !wall) & 0xf0 == v & 0xf0) by (bit_vector)
        requires
            wall & 0xf0 == 0,
    ;
}

/// What toggling does to a cell byte `v`: an empty cell (type `Default`)
/// becomes a wall, any other cell becomes empty, and the four wall bits stay
/// as they were. In bits: the result's type nibble is 0x10 when `v` reads as
/// `Default` and 0x00 otherwise, and its low nibble is `v`'s.
pub proof fn lemma_toggle_law(v: u8)
    ensures
        type_of(v) == CellType::Default ==> type_of(with_type(v, toggled_type(type_of(v))))
            == CellType::Wall,
        type_of(v) != CellType::Default ==> type_of(with_type(v, toggled_type(type_of(v))))
            == CellType::Default,
        with_type(v, toggled_type(type_of(v))) & 0xf0 == if type_of(v) == CellType::Default {
            0x10u8
        } else {
            0x00u8
        },
        with_type(v, toggled_type(type_of(v))) & 0x0f == v & 0x0f,
{
    let t = toggled_type(type_of(v));
    lemma_set_type_then_get_type(v, t);
    let b = type_bits(t);
    assert(((v & 0x0f) | b) & 0xf0 == b) by (bit_vector)
        requires
            b == 0x00 || b == 0x10,
    ;
}

/// Toggling twice gives back a cell whose type is `Default` or `Wall`
/// (stored with that type's own bit pattern).
pub proof fn lemma_toggle_twice(v: u8)
    requires
        v & TYPE_MASK == 0x00 || v & TYPE_MASK == 0x10,
    ensures
        with_type(
            with_type(v, toggled_type(type_of(v))),
            toggled_type(type_of(with_type(v, toggled_type(type_of(v))))),
        ) == v,
{
    lemma_set_type_then_get_type(v, toggled_type(type_of(v)));
    let w = with_type(v, toggled_type(type_of(v)));
    lemma_set_type_then_get_type(w, toggled_type(type_of(w)));
    assert(v & 0xf0 == 0x00 ==> (v & 0x0f) | 0x00 == v) by (bit_vector);
    assert(v & 0xf0 == 0x10 ==> (v & 0x0f) | 0x10 == v) by (bit_vector);
}

} // verus!
