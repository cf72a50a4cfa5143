use vstd::prelude::*;

verus! {

/// A 2D grid position: column `x` and row `y`, both non-negative.
#[derive(Clone, Copy, PartialEq, Eq, Hash, Structural)]
pub struct Coord {
    pub x: u32,
    pub y: u32,
}

/// Two positions are adjacent when they differ by exactly one step
/// along exactly one axis (4-connectivity, no diagonals).
pub open spec fn adjacent(a: Coord, b: Coord) -> bool {
    (a.x == b.x && (a.y + 1 == b.y || b.y + 1 == a.y)) || (a.y == b.y && (a.x + 1 == b.x
        || b.x + 1 == a.x))
}

/// A position that can enumerate its up-to-4 orthogonal neighbor candidates.
pub trait Adjacent: Sized {
    /// The candidate list as a mathematical sequence.
    spec fn candidate_neighbors(&self) -> Seq<Self>;

    /// Returns the candidate neighbors, discarding any whose coordinate
    /// would fall outside the representable range.
    fn potential_neighbors(&self) -> (v: Vec<Self>)
        ensures
            v@ == self.candidate_neighbors(),
    ;
}

impl Adjacent for Coord {
    open spec fn candidate_neighbors(&self) -> Seq<Coord> {
        let s0 = Seq::<Coord>::empty();
        let s1 = if self.y > 0 {
            s0.push(Coord { x: self.x, y: (self.y - 1) as u32 })
        } else {
            s0
        };
        let s2 = if self.y < u32::MAX {
            s1.push(Coord { x: self.x, y: (self.y + 1) as u32 })
        } else {
            s1
        };
        let s3 = if self.x > 0 {
            s2.push(Coord { x: (self.x - 1) as u32, y: self.y })
        } else {
            s2
        };
        if self.x < u32::MAX {
            s3.push(Coord { x: (self.x + 1) as u32, y: self.y })
        } else {
            s3
        }
    }

    fn potential_neighbors(&self) -> (v: Vec<Coord>) {
        let mut v: Vec<Coord> = Vec::new();
        if self.y > 0 {
            v.push(Coord { x: self.x, y: self.y - 1 });
        }
        if self.y < u32::MAX {
            v.push(Coord { x: self.x, y: self.y + 1 });
        }
        if self.x > 0 {
            v.push(Coord { x: self.x - 1, y: self.y });
        }
        if self.x < u32::MAX {
            v.push(Coord { x: self.x + 1, y: self.y });
        }
        assert(v@ =~= self.candidate_neighbors());
        v
    }
}

/// A position stands in another's candidate list exactly when the two
/// are adjacent; adjacency itself is symmetric.
pub proof fn lemma_candidates_are_adjacent(a: Coord, b: Coord)
    ensures
        a.candidate_neighbors().contains(b) <==> adjacent(a, b),
        adjacent(a, b) <==> adjacent(b, a),
{
    let c = a.candidate_neighbors();
    let l1: int = if a.y > 0 { 1 } else { 0 };
    let l2: int = if a.y < u32::MAX { 1 } else { 0 };
    let l3: int = if a.x > 0 { 1 } else { 0 };
    if adjacent(a, b) {
        assert(exists|i: int| 0 <= i < c.len() && c[i] == b) by {
            if a.x == b.x && b.y + 1 == a.y {
                assert(c[0] == b);
            } else if a.x == b.x && a.y + 1 == b.y {
                assert(c[l1] == b);
            } else if a.y == b.y && b.x + 1 == a.x {
                assert(c[l1 + l2] == b);
            } else {
                assert(c[l1 + l2 + l3] == b);
            }
        }
    }
}

} // verus!
