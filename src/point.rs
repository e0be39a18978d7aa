use vstd::prelude::*;

verus! {

/// What a location is to the routing problem.
#[derive(Clone, Copy, Debug, PartialEq, Eq, Structural)]
pub enum Role {
    Customer,
    Depot,
    SecurityPoint,
}

/// A location of the instance. Its `id` indexes the distance matrix.
#[derive(Clone, Copy, Debug, PartialEq, Eq, Structural)]
pub struct Point {
    pub id: usize,
    pub role: Role,
}

impl Point {
    pub fn new_customer(id: usize) -> (r: Point)
        ensures
            r == (Point { id, role: Role::Customer }),
    {
        Point { id, role: Role::Customer }
    }

    pub fn new_depo(id: usize) -> (r: Point)
        ensures
            r == (Point { id, role: Role::Depot }),
    {
        Point { id, role: Role::Depot }
    }

    pub fn new_security_point(id: usize) -> (r: Point)
        ensures
            r == (Point { id, role: Role::SecurityPoint }),
    {
        Point { id, role: Role::SecurityPoint }
    }
}

} // verus!
