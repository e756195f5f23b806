use vstd::prelude::*;

verus! {

/// An integer position or displacement on the plane.
#[derive(Clone, Copy, Debug, PartialEq, Eq, Hash, Structural)]
pub struct Vector2d(pub i32, pub i32);

/// The orthogonal unit steps, in the fixed order that every neighbour walk uses.
pub open spec fn spec_direction(i: int) -> (int, int) {
    if i == 0 {
        (1, 0)
    } else if i == 1 {
        (0, -1)
    } else if i == 2 {
        (-1, 0)
    } else {
        (0, 1)
    }
}

/// `|x| + |y|` of a pair of integers.
pub open spec fn spec_manhattan(x: int, y: int) -> int {
    (if x < 0 { -x } else { x }) + (if y < 0 { -y } else { y })
}

/// Whether an integer fits an `i32`.
pub open spec fn fits_i32(n: int) -> bool {
    i32::MIN <= n <= i32::MAX
}

impl Vector2d {
    /// The vector as a pair of mathematical integers.
    pub open spec fn spec_pair(self) -> (int, int) {
        (self.0 as int, self.1 as int)
    }

    /// Component-wise sum, where it is representable.
    pub open spec fn spec_add(self, o: Vector2d) -> Vector2d {
        Vector2d((self.0 + o.0) as i32, (self.1 + o.1) as i32)
    }

    /// Component-wise difference, where it is representable.
    pub open spec fn spec_sub(self, o: Vector2d) -> Vector2d {
        Vector2d((self.0 - o.0) as i32, (self.1 - o.1) as i32)
    }

    /// The quarter turn `(x, y) -> (-y, x)`.
    pub open spec fn spec_rotate(self) -> Vector2d {
        Vector2d((-self.1) as i32, self.0)
    }

    /// Whether `self + o` is representable.
    pub open spec fn can_add(self, o: Vector2d) -> bool {
        fits_i32(self.0 + o.0) && fits_i32(self.1 + o.1)
    }

    /// Whether `-self` is representable.
    pub open spec fn can_neg(self) -> bool {
        self.0 != i32::MIN && self.1 != i32::MIN
    }

    pub fn from_pair(value: (i32, i32)) -> (r: Vector2d)
        ensures
            r.0 == value.0,
            r.1 == value.1,
    {
        Vector2d(value.0, value.1)
    }

    /// Component-wise sum.
    pub fn add(self, rhs: Vector2d) -> (r: Vector2d)
        requires
            self.can_add(rhs),
        ensures
            r == self.spec_add(rhs),
    {
        Vector2d(self.0 + rhs.0, self.1 + rhs.1)
    }

    /// Adds `rhs` in place.
    pub fn add_assign(&mut self, rhs: Vector2d)
        requires
            old(self).can_add(rhs),
        ensures
            *final(self) == old(self).spec_add(rhs),
    {
        *self = self.add(rhs);
    }

    /// Component-wise negation.
    pub fn neg(self) -> (r: Vector2d)
        requires
            self.can_neg(),
        ensures
            r.0 == -self.0,
            r.1 == -self.1,
    {
        Vector2d(-self.0, -self.1)
    }

    /// `self + (-rhs)`.
    pub fn sub(self, rhs: Vector2d) -> (r: Vector2d)
        requires
            rhs.can_neg(),
            fits_i32(self.0 - rhs.0),
            fits_i32(self.1 - rhs.1),
        ensures
            r == self.spec_sub(rhs),
    {
        self.add(rhs.neg())
    }

    /// The quarter turn `(x, y) -> (-y, x)`.
    pub fn rotate(self) -> (r: Vector2d)
        requires
            self.1 != i32::MIN,
        ensures
            r == self.spec_rotate(),
    {
        Vector2d(-self.1, self.0)
    }

    /// `|x| + |y|`, which always fits an `i64`.
    pub fn manhattan(self) -> (r: i64)
        ensures
            r == spec_manhattan(self.0 as int, self.1 as int),
    {
        let x: i64 = if self.0 < 0 { -(self.0 as i64) } else { self.0 as i64 };
        let y: i64 = if self.1 < 0 { -(self.1 as i64) } else { self.1 as i64 };
        x + y
    }

    /// The orthogonal unit step with index `i` (0 to 3).
    pub fn direction(i: usize) -> (r: Vector2d)
        requires
            i < 4,
        ensures
            r.spec_pair() == spec_direction(i as int),
    {
        if i == 0 {
            Vector2d(1, 0)
        } else if i == 1 {
            Vector2d(0, -1)
        } else if i == 2 {
            Vector2d(-1, 0)
        } else {
            Vector2d(0, 1)
        }
    }

    /// The four orthogonal neighbours of `self`, in the order of the directions.
    pub fn neighbours(self) -> (r: Vec<Vector2d>)
        requires
            i32::MIN < self.0 < i32::MAX,
            i32::MIN < self.1 < i32::MAX,
        ensures
            r@.len() == 4,
            forall|i: int|
                0 <= i < 4 ==> r@[i].0 == self.0 + spec_direction(i).0 && r@[i].1 == self.1
                    + spec_direction(i).1,
    {
        let mut r: Vec<Vector2d> = Vec::new();
        for i in 0..4usize
            invariant
                i32::MIN < self.0 < i32::MAX,
                i32::MIN < self.1 < i32::MAX,
                r@.len() == i,
                forall|k: int|
                    0 <= k < i ==> r@[k].0 == self.0 + spec_direction(k).0 && r@[k].1 == self.1
                        + spec_direction(k).1,
        {
            r.push(self.add(Vector2d::direction(i)));
        }
        r
    }
}

/// Subtracting what was added gives back the first vector.
pub proof fn lemma_add_then_subtract(a: Vector2d, b: Vector2d)
    requires
        a.can_add(b),
    ensures
        a.spec_add(b).spec_sub(b) == a,
{
}

/// Four quarter turns bring every vector back to itself.
pub proof fn lemma_rotate_four_times(a: Vector2d)
    requires
        a.can_neg(),
    ensures
        a.spec_rotate().spec_rotate().spec_rotate().spec_rotate() == a,
{
}

/// The Manhattan length is never negative, and it is zero exactly at the origin.
pub proof fn lemma_manhattan_zero(x: int, y: int)
    ensures
        spec_manhattan(x, y) >= 0,
        spec_manhattan(x, y) == 0 <==> (x == 0 && y == 0),
{
}

} // verus!
