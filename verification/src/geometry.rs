use vstd::prelude::*;

verus! {

/// A unit cell of the grid, identified by integer coordinates relative to the
/// fixed origin cell of the chain.
#[derive(Clone, Copy, Debug, PartialEq, Eq, Structural, Hash)]
pub struct Position {
    pub x: i8,
    pub y: i8,
    pub z: i8,
}

/// An axis-aligned vector, normally one of the six unit vectors along
/// plus or minus x, y and z.
#[derive(Clone, Copy, Debug, PartialEq, Eq, Structural, Hash)]
pub struct Direction {
    pub x: i8,
    pub y: i8,
    pub z: i8,
}

impl View for Position {
    type V = (int, int, int);

    open spec fn view(&self) -> (int, int, int) {
        (self.x as int, self.y as int, self.z as int)
    }
}

impl View for Direction {
    type V = (int, int, int);

    open spec fn view(&self) -> (int, int, int) {
        (self.x as int, self.y as int, self.z as int)
    }
}

/// The canonical direction table, in its fixed iteration order:
/// UP, DOWN, RIGHT, LEFT, OUT, IN.
pub open spec fn spec_dir(i: int) -> Direction {
    if i == 0 {
        Direction { x: 0, y: 1, z: 0 }
    } else if i == 1 {
        Direction { x: 0, y: -1i8, z: 0 }
    } else if i == 2 {
        Direction { x: 1, y: 0, z: 0 }
    } else if i == 3 {
        Direction { x: -1i8, y: 0, z: 0 }
    } else if i == 4 {
        Direction { x: 0, y: 0, z: 1 }
    } else {
        Direction { x: 0, y: 0, z: -1i8 }
    }
}

/// The table index of a unit direction (an arbitrary index for any other
/// vector).
pub open spec fn spec_dir_index(d: Direction) -> int {
    if d == spec_dir(0) {
        0
    } else if d == spec_dir(1) {
        1
    } else if d == spec_dir(2) {
        2
    } else if d == spec_dir(3) {
        3
    } else if d == spec_dir(4) {
        4
    } else {
        5
    }
}

/// True of the six canonical unit vectors and of nothing else.
pub open spec fn is_unit_dir(d: Direction) -> bool {
    ||| d == spec_dir(0)
    ||| d == spec_dir(1)
    ||| d == spec_dir(2)
    ||| d == spec_dir(3)
    ||| d == spec_dir(4)
    ||| d == spec_dir(5)
}

/// The index of the direction opposite to the one at index `i`: the table
/// pairs each direction with its opposite (UP/DOWN, RIGHT/LEFT, OUT/IN).
pub open spec fn spec_opp(i: int) -> int {
    if i % 2 == 0 {
        i + 1
    } else {
        i - 1
    }
}

/// Dot product of two direction vectors.
pub open spec fn spec_dot(a: Direction, b: Direction) -> int {
    a.x * b.x + a.y * b.y + a.z * b.z
}

/// Componentwise scalar multiple of a direction vector.
pub open spec fn spec_scale(d: Direction, k: i8) -> Direction {
    Direction { x: (d.x * k) as i8, y: (d.y * k) as i8, z: (d.z * k) as i8 }
}

/// The single-character abbreviation of a unit direction, keyed on the sign
/// of its components: R/L on x, U/D on y, O/I on z.
pub open spec fn spec_abbrev(d: Direction) -> char {
    if d.x > 0 {
        'R'
    } else if d.x < 0 {
        'L'
    } else if d.y > 0 {
        'U'
    } else if d.y < 0 {
        'D'
    } else if d.z > 0 {
        'O'
    } else {
        'I'
    }
}

/// Whether the direction at table index `j` looks for a maximum (the
/// positive directions sit at even indices) or a minimum: the further of
/// an extent `a` and a candidate coordinate `b` along that direction.
pub open spec fn further(j: int, a: int, b: int) -> int {
    if j % 2 == 0 {
        if b > a {
            b
        } else {
            a
        }
    } else {
        if b < a {
            b
        } else {
            a
        }
    }
}

/// The coordinate of `t` on the axis that the direction at index `i` moves
/// along: y for UP/DOWN, x for RIGHT/LEFT, z for OUT/IN.
pub open spec fn spec_axis_coord(i: int, t: (int, int, int)) -> int {
    if i == 0 || i == 1 {
        t.1
    } else if i == 2 || i == 3 {
        t.0
    } else {
        t.2
    }
}

/// The cell reached from `p` by `k` unit steps along `d`.
pub open spec fn cell_at(p: (int, int, int), d: Direction, k: int) -> (int, int, int) {
    (p.0 + d.x * k, p.1 + d.y * k, p.2 + d.z * k)
}

/// True of the six canonical direction names.
pub open spec fn is_dir_name(s: Seq<char>) -> bool {
    ||| s == "UP"@
    ||| s == "DOWN"@
    ||| s == "RIGHT"@
    ||| s == "LEFT"@
    ||| s == "OUT"@
    ||| s == "IN"@
}

/// The index of a canonical direction name in the fixed table order.
pub open spec fn spec_dir_name_index(s: Seq<char>) -> int {
    if s == "UP"@ {
        0
    } else if s == "DOWN"@ {
        1
    } else if s == "RIGHT"@ {
        2
    } else if s == "LEFT"@ {
        3
    } else if s == "OUT"@ {
        4
    } else {
        5
    }
}

/// Looks a canonical direction name up in the fixed table. The six names
/// start with six different letters, so the first byte decides.
pub fn dir_name_index(dir: &str) -> (i: usize)
    requires
        is_dir_name(dir@),
    ensures
        i == spec_dir_name_index(dir@),
        i < 6,
{
    proof {
        reveal_strlit("UP");
        reveal_strlit("DOWN");
        reveal_strlit("RIGHT");
        reveal_strlit("LEFT");
        reveal_strlit("OUT");
        reveal_strlit("IN");
        assert(vstd::utf8::is_ascii_chars(dir@));
        vstd::utf8::is_ascii_chars_encode_utf8(dir@);
    }
    let b = dir.as_bytes();
    let c = b[0];
    if c == 85 {
        // 'U'
        0
    } else if c == 68 {
        // 'D'
        1
    } else if c == 82 {
        // 'R'
        2
    } else if c == 76 {
        // 'L'
        3
    } else if c == 79 {
        // 'O'
        4
    } else {
        5
    }
}

/// The fixed direction table as an executable lookup.
pub fn direction_by_index(idx: usize) -> (d: Direction)
    requires
        idx < 6,
    ensures
        d == spec_dir(idx as int),
{
    if idx == 0 {
        Direction { x: 0, y: 1, z: 0 }
    } else if idx == 1 {
        Direction { x: 0, y: -1, z: 0 }
    } else if idx == 2 {
        Direction { x: 1, y: 0, z: 0 }
    } else if idx == 3 {
        Direction { x: -1, y: 0, z: 0 }
    } else if idx == 4 {
        Direction { x: 0, y: 0, z: 1 }
    } else {
        Direction { x: 0, y: 0, z: -1 }
    }
}

impl Position {
    /// The cell reached from this one by adding the vector `rhs`.
    pub fn add(self, rhs: Direction) -> (r: Position)
        requires
            i8::MIN <= self.x + rhs.x <= i8::MAX,
            i8::MIN <= self.y + rhs.y <= i8::MAX,
            i8::MIN <= self.z + rhs.z <= i8::MAX,
        ensures
            r@ == (self.x + rhs.x as int, self.y + rhs.y as int, self.z + rhs.z as int),
    {
        let x = self.x + rhs.x;
        let y = self.y + rhs.y;
        let z = self.z + rhs.z;
        Position { x, y, z }
    }

    /// The coordinate of this cell on the axis of the named canonical
    /// direction.
    pub fn coord_by_dir(&self, dir: &str) -> (r: i8)
        requires
            is_dir_name(dir@),
        ensures
            r == spec_axis_coord(spec_dir_name_index(dir@), self@),
    {
        let idx = dir_name_index(dir);
        self.coord_by_dir_idx(idx)
    }

    /// The coordinate of this cell on the axis of the direction at `idx`.
    pub fn coord_by_dir_idx(&self, idx: usize) -> (r: i8)
        requires
            idx < 6,
        ensures
            r == spec_axis_coord(idx as int, self@),
    {
        if idx < 2 {
            self.y
        } else if idx < 4 {
            self.x
        } else {
            self.z
        }
    }
}

impl Direction {
    /// Sum of the components: +1 or -1 for a unit direction.
    pub fn sign(&self) -> (r: i8)
        requires
            is_unit_dir(*self),
        ensures
            r == self.x + self.y + self.z,
            r == 1 || r == -1,
    {
        self.x + self.y + self.z
    }

    /// The fixed one-letter name of this unit direction.
    pub fn abbreviation(&self) -> (r: char)
        requires
            is_unit_dir(*self),
        ensures
            r == spec_abbrev(*self),
    {
        if self.x > 0 {
            'R'
        } else if self.x < 0 {
            'L'
        } else if self.y > 0 {
            'U'
        } else if self.y < 0 {
            'D'
        } else if self.z > 0 {
            'O'
        } else {
            'I'
        }
    }

    /// Componentwise scalar multiple, e.g. a direction times a segment
    /// length gives the whole move as an offset vector.
    pub fn scale(self, rhs: i8) -> (r: Direction)
        requires
            i8::MIN <= self.x * rhs <= i8::MAX,
            i8::MIN <= self.y * rhs <= i8::MAX,
            i8::MIN <= self.z * rhs <= i8::MAX,
        ensures
            r@ == (self.x * rhs as int, self.y * rhs as int, self.z * rhs as int),
            r == spec_scale(self, rhs),
    {
        let x = self.x * rhs;
        let y = self.y * rhs;
        let z = self.z * rhs;
        Direction { x, y, z }
    }

    /// Dot product with another unit direction: 1 when the directions are
    /// identical, -1 when they are opposite, 0 when they are perpendicular.
    pub fn dot(self, rhs: Direction) -> (r: i8)
        requires
            is_unit_dir(self),
            is_unit_dir(rhs),
        ensures
            r == spec_dot(self, rhs),
            -1 <= r <= 1,
    {
        proof {
            assert(-1 <= self.x <= 1 && -1 <= self.y <= 1 && -1 <= self.z <= 1);
            assert(-1 <= rhs.x <= 1 && -1 <= rhs.y <= 1 && -1 <= rhs.z <= 1);
            assert(-1 <= self.x * rhs.x <= 1 && -1 <= self.y * rhs.y <= 1 && -1 <= self.z
                * rhs.z <= 1) by (nonlinear_arith)
                requires
                    -1 <= self.x <= 1,
                    -1 <= self.y <= 1,
                    -1 <= self.z <= 1,
                    -1 <= rhs.x <= 1,
                    -1 <= rhs.y <= 1,
                    -1 <= rhs.z <= 1,
            ;
        }
        let x = self.x * rhs.x;
        let y = self.y * rhs.y;
        let z = self.z * rhs.z;
        x + y + z
    }
}

/// Directional algebra of the six unit vectors: the dot product is 1 exactly
/// on an identical pair, -1 exactly on an opposite pair and 0 exactly on a
/// perpendicular pair, and scalar multiplication by -1 carries each unit
/// direction to its opposite and back.
pub proof fn lemma_direction_algebra(a: Direction, b: Direction)
    requires
        is_unit_dir(a),
        is_unit_dir(b),
    ensures
        spec_dot(a, b) == if b == a {
            1int
        } else if b == spec_scale(a, -1i8) {
            -1int
        } else {
            0int
        },
        is_unit_dir(spec_scale(a, -1i8)),
        spec_scale(spec_scale(a, -1i8), -1i8) == a,
{
    if a == spec_dir(0) {
    } else if a == spec_dir(1) {
    } else if a == spec_dir(2) {
    } else if a == spec_dir(3) {
    } else if a == spec_dir(4) {
    } else {
    }
}

/// The opposite pairing of the direction table: scalar multiplication by -1
/// maps the direction at index `i` to the one at index `spec_opp(i)`.
pub proof fn lemma_opposite_index(i: int)
    requires
        0 <= i < 6,
    ensures
        spec_scale(spec_dir(i), -1i8) == spec_dir(spec_opp(i)),
        0 <= spec_opp(i) < 6,
        spec_opp(spec_opp(i)) == i,
{
}

} // verus!
