//! The faces of a box.

use vstd::prelude::*;

use crate::text;

verus! {

/// The direction that a face looks in.
#[derive(Clone, Copy, Debug, PartialEq, Eq, Structural)]
pub enum FaceDir {
    North,
    South,
    East,
    West,
    Up,
    Down,
}

/// The direction with a name.
pub open spec fn dir_named(name: Seq<char>) -> Option<FaceDir> {
    if name == "north"@ {
        Some(FaceDir::North)
    } else if name == "south"@ {
        Some(FaceDir::South)
    } else if name == "east"@ {
        Some(FaceDir::East)
    } else if name == "west"@ {
        Some(FaceDir::West)
    } else if name == "up"@ {
        Some(FaceDir::Up)
    } else if name == "down"@ {
        Some(FaceDir::Down)
    } else {
        None
    }
}

/// The axis that a face stands upright on: 0, 1 and 2 for `x`, `y` and `z`.
pub open spec fn axis_of(dir: FaceDir) -> int {
    match dir {
        FaceDir::East | FaceDir::West => 0,
        FaceDir::Up | FaceDir::Down => 1,
        FaceDir::North | FaceDir::South => 2,
    }
}

/// The two axes along which a face lies.
pub open spec fn plane_of(dir: FaceDir) -> (int, int) {
    match dir {
        FaceDir::North | FaceDir::South => (0, 1),
        FaceDir::East | FaceDir::West => (2, 1),
        FaceDir::Up | FaceDir::Down => (0, 2),
    }
}

/// Whether a face is at the end of its axis, and not at the start.
pub open spec fn at_end(dir: FaceDir) -> bool {
    match dir {
        FaceDir::South | FaceDir::East | FaceDir::Up => true,
        FaceDir::North | FaceDir::West | FaceDir::Down => false,
    }
}

/// Corner `k` of a face: for each axis whether it is at the end of the box.
pub open spec fn corner(dir: FaceDir, k: int) -> (bool, bool, bool) {
    let left = k == 0 || k == 3;
    let upper = k == 0 || k == 1;
    match dir {
        FaceDir::North => (left, upper, false),
        FaceDir::South => (!left, upper, true),
        FaceDir::East => (true, upper, !left),
        FaceDir::West => (false, upper, left),
        FaceDir::Up => (!left, true, !upper),
        FaceDir::Down => (!left, false, upper),
    }
}

/// One of three values by axis.
pub open spec fn along(c: (bool, bool, bool), axis: int) -> bool {
    if axis == 0 {
        c.0
    } else if axis == 1 {
        c.1
    } else {
        c.2
    }
}

impl FaceDir {
    /// The direction with a name.
    pub fn from_str(s: &str) -> (r: Option<FaceDir>)
        ensures
            r == dir_named(s@),
    {
        if text::same(s, "north") {
            Some(FaceDir::North)
        } else if text::same(s, "south") {
            Some(FaceDir::South)
        } else if text::same(s, "east") {
            Some(FaceDir::East)
        } else if text::same(s, "west") {
            Some(FaceDir::West)
        } else if text::same(s, "up") {
            Some(FaceDir::Up)
        } else if text::same(s, "down") {
            Some(FaceDir::Down)
        } else {
            None
        }
    }

    /// The axis that the face stands upright on.
    pub fn axis(self) -> (r: usize)
        ensures
            r == axis_of(self),
    {
        match self {
            FaceDir::East | FaceDir::West => 0,
            FaceDir::Up | FaceDir::Down => 1,
            FaceDir::North | FaceDir::South => 2,
        }
    }

    /// The two axes along which the face lies.
    pub fn plane(self) -> (r: (usize, usize))
        ensures
            (r.0 as int, r.1 as int) == plane_of(self),
    {
        match self {
            FaceDir::North | FaceDir::South => (0, 1),
            FaceDir::East | FaceDir::West => (2, 1),
            FaceDir::Up | FaceDir::Down => (0, 2),
        }
    }

    /// Whether the face is at the end of its axis, and not at the start. The
    /// inside of the box lies the other way.
    pub fn is_at_end(self) -> (r: bool)
        ensures
            r == at_end(self),
    {
        match self {
            FaceDir::South | FaceDir::East | FaceDir::Up => true,
            FaceDir::North | FaceDir::West | FaceDir::Down => false,
        }
    }

    /// Corner `k` of the face: for each axis whether it is at the end of the box.
    pub fn corner(self, k: usize) -> (r: (bool, bool, bool))
        requires
            k < 4,
        ensures
            r == corner(self, k as int),
    {
        let left: bool = k == 0 || k == 3;
        let upper: bool = k == 0 || k == 1;
        match self {
            FaceDir::North => (left, upper, false),
            FaceDir::South => (!left, upper, true),
            FaceDir::East => (true, upper, !left),
            FaceDir::West => (false, upper, left),
            FaceDir::Up => (!left, true, !upper),
            FaceDir::Down => (!left, false, upper),
        }
    }
}

/// The corners of a face lie on its side of the box and go round it: each
/// shares one of the two coordinates in the face with the next, and differs in
/// the other.
pub proof fn law_corners_go_round(dir: FaceDir, k: int)
    requires
        0 <= k < 4,
    ensures
        ({
            let here = corner(dir, k);
            let next = corner(dir, (k + 1) % 4);
            let (a, b) = plane_of(dir);
            &&& along(here, axis_of(dir)) == at_end(dir)
            &&& (along(here, a) == along(next, a)) != (along(here, b) == along(next, b))
        }),
{
}

/// The number of quarter turns that undo the rotation of a texture.
pub open spec fn undoing_turns(rotation: int) -> int {
    (4 - rotation / 90) % 4
}

/// The number of quarter turns that undo the rotation of a texture.
pub fn inverse_turns(rotation: u32) -> (r: usize)
    requires
        rotation / 90 <= 4,
    ensures
        r == undoing_turns(rotation as int),
{
    (4 - (rotation / 90) as usize) % 4
}

/// Turning a texture and undoing it are a number of full turns.
pub proof fn law_turns_undo(rotation: int)
    requires
        0 <= rotation / 90 <= 4,
    ensures
        (rotation / 90 + undoing_turns(rotation)) % 4 == 0,
        0 <= undoing_turns(rotation) < 4,
{
}

/// The tint of a face: that of its block, if the face asks for one.
pub fn face_tint(tintindex: Option<i32>, tint: [u8; 3]) -> (r: Option<[u8; 3]>)
    ensures
        r == if tintindex is Some {
            Some(tint)
        } else {
            None
        },
{
    match tintindex {
        Some(_) => Some(tint),
        None => None,
    }
}

/// The six directions have a name each, and no other name is one.
pub proof fn law_names_of_directions(name: Seq<char>)
    ensures
        dir_named(name) == Some(FaceDir::North) <==> name == "north"@,
        dir_named(name) == Some(FaceDir::South) <==> name == "south"@,
        dir_named(name) == Some(FaceDir::East) <==> name == "east"@,
        dir_named(name) == Some(FaceDir::West) <==> name == "west"@,
        dir_named(name) == Some(FaceDir::Up) <==> name == "up"@,
        dir_named(name) == Some(FaceDir::Down) <==> name == "down"@,
{
    reveal_strlit("north");
    reveal_strlit("south");
    reveal_strlit("east");
    reveal_strlit("west");
    reveal_strlit("up");
    reveal_strlit("down");
    assert("north"@[0] == 'n' && "south"@[0] == 's' && "east"@[0] == 'e' && "west"@[0] == 'w'
        && "up"@[0] == 'u' && "down"@[0] == 'd');
}

/// A face lies across its axis and along the two others, the height last. Faces of
/// one axis are at both of its ends. The corners of opposite faces are each other's
/// mirror images, the upper ones first, from one side to the other and back.
pub proof fn law_opposite_faces(k: int)
    requires
        0 <= k < 4,
    ensures
        forall|dir: FaceDir| #[trigger]
            axis_of(dir) != plane_of(dir).0 && axis_of(dir) != plane_of(dir).1 && plane_of(dir).0
                != plane_of(dir).1 && 0 <= axis_of(dir) < 3,
        forall|dir: FaceDir| #[trigger]
            axis_of(dir) != 1 ==> plane_of(dir).1 == 1,
        plane_of(FaceDir::Up) == (0int, 2int) && plane_of(FaceDir::Down) == (0int, 2int),
        axis_of(FaceDir::West) == 0 && axis_of(FaceDir::East) == 0,
        axis_of(FaceDir::Down) == 1 && axis_of(FaceDir::Up) == 1,
        axis_of(FaceDir::North) == 2 && axis_of(FaceDir::South) == 2,
        at_end(FaceDir::East) && at_end(FaceDir::Up) && at_end(FaceDir::South),
        !at_end(FaceDir::West) && !at_end(FaceDir::Down) && !at_end(FaceDir::North),
        corner(FaceDir::South, k) == (
            !corner(FaceDir::North, k).0,
            corner(FaceDir::North, k).1,
            !corner(FaceDir::North, k).2,
        ),
        corner(FaceDir::East, k) == (
            !corner(FaceDir::West, k).0,
            corner(FaceDir::West, k).1,
            !corner(FaceDir::West, k).2,
        ),
        corner(FaceDir::Up, k) == (
            corner(FaceDir::Down, k).0,
            !corner(FaceDir::Down, k).1,
            !corner(FaceDir::Down, k).2,
        ),
        corner(FaceDir::North, k).1 == (k < 2),
        corner(FaceDir::West, k).1 == (k < 2),
        corner(FaceDir::Down, k).2 == (k < 2),
        corner(FaceDir::North, k).0 == (k == 0 || k == 3),
        corner(FaceDir::West, k).2 == (k == 0 || k == 3),
        corner(FaceDir::Down, k).0 == (k == 1 || k == 2),
{
}

} // verus!
