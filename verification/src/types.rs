//! The map model: positions, stargates, systems, and a path of systems
//! travelled one after the other.
//!
//! Positions are whole astronomical units: the universe data gives
//! coordinates in metres, and they are divided by the astronomical unit
//! in integer arithmetic before use.
use vstd::prelude::*;

verus! {

/// Index of the largest of three values: 0 for the first, 1 for the
/// second, 2 for the third; a tie goes to the later axis except that the
/// first beats the second only when strictly larger.
pub open spec fn largest_axis_of(x: int, y: int, z: int) -> nat {
    if x > y {
        if x > z {
            0
        } else {
            2
        }
    } else if y > z {
        1
    } else {
        2
    }
}

/// The axis `largest_axis_of` picks holds a value no smaller than the other
/// two: x only when strictly larger than both, y only when strictly larger
/// than z and no smaller than x, and z when no smaller than both.
pub proof fn law_largest_axis_is_largest(x: int, y: int, z: int)
    ensures
        largest_axis_of(x, y, z) < 3,
        largest_axis_of(x, y, z) == 0 ==> x > y && x > z,
        largest_axis_of(x, y, z) == 1 ==> y > z && y >= x,
        largest_axis_of(x, y, z) == 2 ==> z >= x && z >= y,
{
}

/// Executable `largest_axis_of`.
pub fn largest_axis(x: i64, y: i64, z: i64) -> (axis: usize)
    ensures
        axis == largest_axis_of(x as int, y as int, z as int),
{
    if x > y {
        if x > z {
            0
        } else {
            2
        }
    } else if y > z {
        1
    } else {
        2
    }
}

/// A point in space, in whole astronomical units.
#[derive(Clone, Copy, Debug, PartialEq, Eq, Structural)]
pub struct Vector3 {
    pub x: i32,
    pub y: i32,
    pub z: i32,
}

/// The coordinate of `v` along `axis` (0 is x, 1 is y, anything else z).
pub open spec fn coord(v: Vector3, axis: nat) -> int {
    if axis == 0 {
        v.x as int
    } else if axis == 1 {
        v.y as int
    } else {
        v.z as int
    }
}

/// Squared Euclidean distance between two points.
pub open spec fn dist_sq(a: Vector3, b: Vector3) -> int {
    (a.x - b.x) * (a.x - b.x) + (a.y - b.y) * (a.y - b.y) + (a.z - b.z) * (a.z - b.z)
}

proof fn lemma_square_bound(d: int)
    requires
        -0x1_0000_0000 < d < 0x1_0000_0000,
    ensures
        0 <= d * d <= 0x1_0000_0000 * 0x1_0000_0000,
{
    assert(0 <= d * d <= 0x1_0000_0000 * 0x1_0000_0000) by (nonlinear_arith)
        requires
            -0x1_0000_0000 < d < 0x1_0000_0000,
    ;
}

proof fn lemma_product_bound(a: int, b: int)
    requires
        -0x8000_0000 <= a < 0x8000_0000,
        -0x8000_0000 <= b < 0x8000_0000,
    ensures
        -0x4000_0000_0000_0000 <= a * b <= 0x4000_0000_0000_0000,
{
    assert(-0x4000_0000_0000_0000 <= a * b <= 0x4000_0000_0000_0000) by (nonlinear_arith)
        requires
            -0x8000_0000 <= a < 0x8000_0000,
            -0x8000_0000 <= b < 0x8000_0000,
    ;
}

impl Vector3 {
    /// The point with the given coordinates.
    pub fn new(x: i32, y: i32, z: i32) -> (v: Self)
        ensures
            v == (Vector3 { x, y, z }),
    {
        Vector3 { x, y, z }
    }

    /// The origin.
    pub fn zero() -> (v: Self)
        ensures
            v == (Vector3 { x: 0, y: 0, z: 0 }),
    {
        Vector3 { x: 0, y: 0, z: 0 }
    }

    /// The point with every coordinate 1.
    pub fn one() -> (v: Self)
        ensures
            v == (Vector3 { x: 1, y: 1, z: 1 }),
    {
        Vector3 { x: 1, y: 1, z: 1 }
    }

    /// The point whose coordinates are the array's, in order.
    pub fn from_array(arr: [i32; 3]) -> (v: Self)
        ensures
            v == (Vector3 { x: arr@[0], y: arr@[1], z: arr@[2] }),
    {
        Vector3 { x: arr[0], y: arr[1], z: arr[2] }
    }

    /// The axis along which this vector is largest (see `largest_axis_of`).
    pub fn max_dimension(&self) -> (axis: usize)
        ensures
            axis == largest_axis_of(self.x as int, self.y as int, self.z as int),
    {
        largest_axis(self.x as i64, self.y as i64, self.z as i64)
    }

    /// Dot product.
    pub fn dot(&self, other: &Vector3) -> (r: i128)
        ensures
            r == self.x * other.x + self.y * other.y + self.z * other.z,
    {
        proof {
            lemma_product_bound(self.x as int, other.x as int);
            lemma_product_bound(self.y as int, other.y as int);
            lemma_product_bound(self.z as int, other.z as int);
        }
        let x = (self.x as i128) * (other.x as i128);
        let y = (self.y as i128) * (other.y as i128);
        let z = (self.z as i128) * (other.z as i128);
        x + y + z
    }

    /// Squared Euclidean distance to `other`.
    pub fn distance_squared(&self, other: &Vector3) -> (r: i128)
        ensures
            r == dist_sq(*self, *other),
            r >= 0,
    {
        let dx = self.x as i128 - other.x as i128;
        let dy = self.y as i128 - other.y as i128;
        let dz = self.z as i128 - other.z as i128;
        proof {
            lemma_square_bound(dx as int);
            lemma_square_bound(dy as int);
            lemma_square_bound(dz as int);
        }
        dx * dx + dy * dy + dz * dz
    }
}

/// A one-way gate link from `origin` to `destination`.
#[derive(Clone, Copy, Debug, PartialEq, Eq, Structural)]
pub struct Stargate {
    pub origin: u32,
    pub destination: u32,
}

/// A solar system: its id, name, outgoing gates and position.
#[derive(Debug)]
pub struct System {
    pub id: u32,
    pub name: String,
    pub stargates: Vec<Stargate>,
    pub position: Vector3,
}

/// A sequence of systems to travel through, with the index of the system
/// the traveller is at.
#[derive(Debug)]
pub struct SystemPath {
    systems: Vec<u32>,
    current_system: usize,
}

impl Clone for SystemPath {
    fn clone(&self) -> (r: Self)
        ensures
            r.spec_systems() == self.spec_systems(),
            r.spec_current() == self.spec_current(),
    {
        let systems = self.systems.clone();
        assert(systems@ =~= self.systems@);
        SystemPath { systems, current_system: self.current_system }
    }
}

/// The systems after one system is put right after the current one.
pub open spec fn inserted_after(systems: Seq<u32>, current: nat, new_system: u32) -> Seq<u32> {
    systems.insert(current as int + 1, new_system)
}

/// The systems after several systems are put, in order, right after the
/// current one.
pub open spec fn extended_after(systems: Seq<u32>, current: nat, new_systems: Seq<u32>) -> Seq<
    u32,
> {
    systems.subrange(0, current as int + 1) + new_systems + systems.subrange(
        current as int + 1,
        systems.len() as int,
    )
}

/// Whether the index `current` stands on the path: on one of its systems,
/// or at 0 when the path is empty.
pub open spec fn cursor_on_path(systems: Seq<u32>, current: nat) -> bool {
    if systems.len() == 0 {
        current == 0
    } else {
        current < systems.len()
    }
}

/// `s` without its first element (empty stays empty).
pub open spec fn after_first(s: Seq<u32>) -> Seq<u32> {
    if s.len() == 0 {
        s
    } else {
        s.subrange(1, s.len() as int)
    }
}

/// The systems a detour passes through after the current one: the route to
/// the first stop and the route from there to the second, each without its
/// starting system.
pub open spec fn detour_of(to_first: Seq<u32>, to_second: Seq<u32>) -> Seq<u32> {
    after_first(to_first) + after_first(to_second)
}

/// The system at index `current`, if there is one.
pub open spec fn system_at(systems: Seq<u32>, current: nat) -> Option<u32> {
    if current < systems.len() {
        Some(systems[current as int])
    } else {
        None
    }
}

impl SystemPath {
    /// The systems of the path, in travel order.
    pub closed spec fn spec_systems(&self) -> Seq<u32> {
        self.systems@
    }

    /// The index of the current system.
    pub closed spec fn spec_current(&self) -> nat {
        self.current_system as nat
    }

    /// Whether the current index stands on the path.
    pub open spec fn wf(&self) -> bool {
        cursor_on_path(self.spec_systems(), self.spec_current())
    }

    /// A path over `systems`, standing at the first one.
    pub fn new(systems: Vec<u32>) -> (p: Self)
        ensures
            p.spec_systems() == systems@,
            p.spec_current() == 0,
            p.wf(),
    {
        SystemPath { systems, current_system: 0 }
    }

    /// Number of systems on the path.
    pub fn len(&self) -> (n: usize)
        ensures
            n == self.spec_systems().len(),
    {
        self.systems.len()
    }

    /// The system the traveller is at, if the index is on the path.
    pub fn current_system(&self) -> (r: Option<u32>)
        ensures
            r == system_at(self.spec_systems(), self.spec_current()),
    {
        if self.current_system < self.systems.len() {
            Some(self.systems[self.current_system])
        } else {
            None
        }
    }

    /// Moves to the next system and returns it; at the last system (or on
    /// an empty path) nothing moves and `None` is returned.
    pub fn next_system_id(&mut self) -> (r: Option<u32>)
        ensures
            final(self).spec_systems() == old(self).spec_systems(),
            if old(self).spec_current() + 1 < old(self).spec_systems().len() {
                &&& final(self).spec_current() == old(self).spec_current() + 1
                &&& r == Some(old(self).spec_systems()[old(self).spec_current() as int + 1])
            } else {
                &&& final(self).spec_current() == old(self).spec_current()
                &&& r is None
            },
            old(self).wf() ==> final(self).wf(),
    {
        if self.systems.len() > 0 && self.current_system < self.systems.len() - 1 {
            self.current_system = self.current_system + 1;
            self.current_system()
        } else {
            None
        }
    }

    /// Puts `new_system` right after the current system. The current
    /// system must be on the path (else the insertion point is past the
    /// end).
    pub fn insert_after_current(&mut self, new_system: u32)
        requires
            old(self).spec_current() < old(self).spec_systems().len(),
        ensures
            final(self).wf(),
            final(self).spec_current() == old(self).spec_current(),
            final(self).spec_systems() == inserted_after(
                old(self).spec_systems(),
                old(self).spec_current(),
                new_system,
            ),
    {
        let n = self.systems.len();
        assert(self.current_system < n);
        let insert_index = self.current_system + 1;
        self.systems.insert(insert_index, new_system);
    }

    /// Puts `new_systems`, in order, right after the current system. The
    /// current system must be on the path.
    pub fn extend_after_current(&mut self, new_systems: Vec<u32>)
        requires
            old(self).spec_current() < old(self).spec_systems().len(),
        ensures
            final(self).wf(),
            final(self).spec_current() == old(self).spec_current(),
            final(self).spec_systems() == extended_after(
                old(self).spec_systems(),
                old(self).spec_current(),
                new_systems@,
            ),
    {
        let n = self.systems.len();
        assert(self.current_system < n);
        let insert_index = self.current_system + 1;
        let mut result: Vec<u32> = Vec::new();
        let mut i: usize = 0;
        while i < insert_index
            invariant
                insert_index <= self.systems.len(),
                i <= insert_index,
                result@ == self.systems@.subrange(0, i as int),
            decreases insert_index - i,
        {
            result.push(self.systems[i]);
            assert(result@ =~= self.systems@.subrange(0, i + 1));
            i = i + 1;
        }
        let mut j: usize = 0;
        while j < new_systems.len()
            invariant
                insert_index <= self.systems.len(),
                result@ == self.systems@.subrange(0, insert_index as int) + new_systems@.subrange(
                    0,
                    j as int,
                ),
                j <= new_systems.len(),
            decreases new_systems.len() - j,
        {
            result.push(new_systems[j]);
            assert(result@ =~= self.systems@.subrange(0, insert_index as int)
                + new_systems@.subrange(0, j + 1));
            j = j + 1;
        }
        let mut k: usize = insert_index;
        while k < self.systems.len()
            invariant
                insert_index <= k <= self.systems.len(),
                result@ == self.systems@.subrange(0, insert_index as int) + new_systems@
                    + self.systems@.subrange(insert_index as int, k as int),
            decreases self.systems.len() - k,
        {
            result.push(self.systems[k]);
            assert(result@ =~= self.systems@.subrange(0, insert_index as int) + new_systems@
                + self.systems@.subrange(insert_index as int, k + 1));
            k = k + 1;
        }
        assert(new_systems@.subrange(0, new_systems@.len() as int) =~= new_systems@);
        self.systems = result;
    }
}

impl SystemPath {
    /// Takes a detour: the systems of `to_first` and then of `to_second`,
    /// each route without its starting system, are put right after the
    /// current system, and the traveller moves on to the first of them
    /// (staying put when the detour is empty and the current system is the
    /// last). Returns the number of systems added, the jumps the detour
    /// costs.
    pub fn take_detour(&mut self, to_first: &Vec<u32>, to_second: &Vec<u32>) -> (added: usize)
        requires
            old(self).spec_current() < old(self).spec_systems().len(),
        ensures
            added == detour_of(to_first@, to_second@).len(),
            final(self).spec_systems() == extended_after(
                old(self).spec_systems(),
                old(self).spec_current(),
                detour_of(to_first@, to_second@),
            ),
            final(self).spec_current() == if old(self).spec_current() + 1 < final(self).spec_systems().len() {
                old(self).spec_current() + 1
            } else {
                old(self).spec_current()
            },
            final(self).wf(),
    {
        let mut detour: Vec<u32> = Vec::new();
        let mut i: usize = 1;
        while i < to_first.len()
            invariant
                1 <= i,
                to_first@.len() > 0 ==> i <= to_first@.len(),
                to_first@.len() > 0 ==> detour@ == to_first@.subrange(1, i as int),
                to_first@.len() == 0 ==> detour@.len() == 0,
            decreases to_first@.len() - i,
        {
            detour.push(to_first[i]);
            assert(detour@ =~= to_first@.subrange(1, i + 1));
            i = i + 1;
        }
        assert(detour@ =~= after_first(to_first@));
        let mut j: usize = 1;
        while j < to_second.len()
            invariant
                1 <= j,
                to_second@.len() > 0 ==> j <= to_second@.len(),
                to_second@.len() > 0 ==> detour@ == after_first(to_first@) + to_second@.subrange(
                    1,
                    j as int,
                ),
                to_second@.len() == 0 ==> detour@ == after_first(to_first@),
            decreases to_second@.len() - j,
        {
            detour.push(to_second[j]);
            assert(detour@ =~= after_first(to_first@) + to_second@.subrange(1, j + 1));
            j = j + 1;
        }
        assert(detour@ =~= detour_of(to_first@, to_second@));
        let added = detour.len();
        self.extend_after_current(detour);
        self.next_system_id();
        added
    }
}

/// Putting a system after the current one and then moving on reaches
/// that system: after `insert_after_current(x)`, `next_system_id()` gives
/// `x`.
pub proof fn law_insert_then_next(systems: Seq<u32>, current: nat, x: u32)
    requires
        current < systems.len(),
    ensures
        current + 1 < inserted_after(systems, current, x).len(),
        inserted_after(systems, current, x)[current as int + 1] == x,
        system_at(inserted_after(systems, current, x), current) == system_at(systems, current),
{
}

/// Putting a nonempty list of systems after the current one and then
/// moving on reaches the first of them, and the path grows by exactly the
/// list, with everything before and after the insertion point kept.
pub proof fn law_extend_then_next(systems: Seq<u32>, current: nat, xs: Seq<u32>)
    requires
        current < systems.len(),
        xs.len() > 0,
    ensures
        current + 1 < extended_after(systems, current, xs).len(),
        extended_after(systems, current, xs)[current as int + 1] == xs[0],
        extended_after(systems, current, xs).len() == systems.len() + xs.len(),
        extended_after(systems, current, xs).subrange(0, current as int + 1) == systems.subrange(
            0,
            current as int + 1,
        ),
        extended_after(systems, current, xs).subrange(
            current as int + 1 + xs.len(),
            systems.len() + xs.len() as int,
        ) == systems.subrange(current as int + 1, systems.len() as int),
{
    let e = extended_after(systems, current, xs);
    assert(e.subrange(0, current as int + 1) =~= systems.subrange(0, current as int + 1));
    assert(e.subrange(current as int + 1 + xs.len(), systems.len() + xs.len() as int) =~= systems.subrange(
        current as int + 1,
        systems.len() as int,
    ));
}

/// On a path whose index stands on it (as on every path made by `new` and
/// changed only by `next_system_id`, `insert_after_current` and
/// `extend_after_current`), there is a current system exactly when the path
/// is not empty.
pub proof fn law_current_exists_iff_nonempty(p: SystemPath)
    requires
        p.wf(),
    ensures
        system_at(p.spec_systems(), p.spec_current()) is Some <==> p.spec_systems().len() > 0,
{
}

/// Inserting one system is extending by a list of one.
pub proof fn law_insert_is_extend_by_one(systems: Seq<u32>, current: nat, x: u32)
    requires
        current < systems.len(),
    ensures
        inserted_after(systems, current, x) == extended_after(systems, current, seq![x]),
{
    assert(inserted_after(systems, current, x) =~= extended_after(systems, current, seq![x]));
}

} // verus!
