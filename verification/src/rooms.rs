//! Rooms: rectangles of floor, the overlap of their extents, and the order
//! in which corridors join them.

use vstd::prelude::*;

verus! {

/// What [`determine_overlap`] returns for two ranges that share nothing.
pub const NO_OVERLAP: usize = 1000;

/// An axis-aligned rectangle of floor. `x` is its first row and `y` its
/// first column; it spans `width` rows and `length` columns.
#[derive(Clone, Copy, Debug, PartialEq, Eq, Structural)]
pub struct Room {
    pub x: usize,
    pub y: usize,
    pub length: usize,
    pub width: usize,
}

impl Room {
    /// Whether the cell `(r, c)` belongs to the room.
    pub open spec fn covers(self, r: int, c: int) -> bool {
        self.x <= r < self.x + self.width && self.y <= c < self.y + self.length
    }

    /// Whether the room has at least one cell and lies within a grid of the
    /// given shape.
    pub open spec fn fits(self, rows: int, cols: int) -> bool {
        &&& 1 <= self.width
        &&& 1 <= self.length
        &&& self.x + self.width <= rows
        &&& self.y + self.length <= cols
    }

    /// Whether the room has at least one cell and keeps clear of the
    /// outermost rows and columns of a grid of the given shape.
    pub open spec fn inside(self, rows: int, cols: int) -> bool {
        &&& 1 <= self.width
        &&& 1 <= self.length
        &&& 1 <= self.x
        &&& 1 <= self.y
        &&& self.x + self.width < rows
        &&& self.y + self.length < cols
    }
}

/// Whether two ranges, each given as first and last position, share a
/// position: the one that ends later starts no later than the other ends.
pub open spec fn ranges_share(first: (int, int), second: (int, int)) -> bool {
    if second.1 < first.1 {
        first.0 <= second.1
    } else {
        second.0 <= first.1
    }
}

/// The midpoint of what two ranges share, each given as first and last
/// position: the mean, rounded down, of the later start and the earlier
/// end. Where they share nothing it is [`NO_OVERLAP`].
pub open spec fn overlap_midpoint(first: (int, int), second: (int, int)) -> int {
    let lo = if first.0 >= second.0 {
        first.0
    } else {
        second.0
    };
    let hi = if second.1 < first.1 {
        second.1
    } else {
        first.1
    };
    if ranges_share(first, second) {
        (lo + hi) / 2
    } else {
        NO_OVERLAP as int
    }
}

/// Whether two ranges share a position.
pub fn ranges_overlap(first: (usize, usize), second: (usize, usize)) -> (shared: bool)
    ensures
        shared == ranges_share(
            (first.0 as int, first.1 as int),
            (second.0 as int, second.1 as int),
        ),
{
    if second.1 < first.1 {
        first.0 <= second.1
    } else {
        second.0 <= first.1
    }
}

/// Midpoint of the overlap of two ranges, or [`NO_OVERLAP`] where they
/// share nothing. A midpoint of 1000 or more cannot be told from that by
/// the result alone: [`ranges_overlap`] tells.
pub fn determine_overlap(overlap: Vec<(usize, usize)>) -> (mid: usize)
    requires
        overlap@.len() == 2,
    ensures
        mid == overlap_midpoint(
            (overlap@[0].0 as int, overlap@[0].1 as int),
            (overlap@[1].0 as int, overlap@[1].1 as int),
        ),
{
    let first: (usize, usize) = overlap[0];
    let second: (usize, usize) = overlap[1];
    if ranges_overlap(first, second) {
        let lo: usize = if first.0 >= second.0 {
            first.0
        } else {
            second.0
        };
        let hi: usize = if second.1 < first.1 {
            second.1
        } else {
            first.1
        };
        lo / 2 + hi / 2 + (lo % 2 + hi % 2) / 2
    } else {
        NO_OVERLAP
    }
}

/// Where two well-formed ranges share a position, the midpoint lies in
/// both of them.
pub proof fn lemma_midpoint_in_both(first: (int, int), second: (int, int))
    requires
        first.0 <= first.1,
        second.0 <= second.1,
        ranges_share(first, second),
    ensures
        first.0 <= overlap_midpoint(first, second) <= first.1,
        second.0 <= overlap_midpoint(first, second) <= second.1,
{
}

/// `room` put into `s` behind the last room whose first column is not
/// greater than its own.
pub open spec fn insert_by_col(s: Seq<Room>, room: Room) -> Seq<Room>
    decreases s.len(),
{
    if s.len() == 0 {
        seq![room]
    } else if s.last().y <= room.y {
        s.push(room)
    } else {
        insert_by_col(s.drop_last(), room).push(s.last())
    }
}

/// The rooms in ascending order of their first column; rooms with the same
/// first column keep the order they came in.
pub open spec fn sorted_by_col(s: Seq<Room>) -> Seq<Room>
    decreases s.len(),
{
    if s.len() == 0 {
        Seq::empty()
    } else {
        insert_by_col(sorted_by_col(s.drop_last()), s.last())
    }
}

/// Whether the first columns never decrease along `s`.
pub open spec fn ascending_by_col(s: Seq<Room>) -> bool {
    forall|i: int, j: int| 0 <= i <= j < s.len() ==> s[i].y <= s[j].y
}

/// Where the insertion lands: behind a prefix that ends in a room not to
/// the right of `room`, before a suffix of rooms that all are.
pub proof fn lemma_insert_position(s: Seq<Room>, room: Room, j: int)
    requires
        0 <= j <= s.len(),
        forall|k: int| j <= k < s.len() ==> s[k].y > room.y,
        j == 0 || s[j - 1].y <= room.y,
    ensures
        insert_by_col(s, room) == s.subrange(0, j).push(room) + s.subrange(j, s.len() as int),
    decreases s.len() - j,
{
    let n = s.len() as int;
    if j == n {
        assert(s.subrange(0, n) =~= s);
        assert(s.subrange(n, n) =~= Seq::<Room>::empty());
        if n == 0 {
            assert(insert_by_col(s, room) =~= s.push(room) + Seq::<Room>::empty());
        } else {
            assert(s.push(room) + Seq::<Room>::empty() =~= s.push(room));
        }
    } else {
        let t = s.drop_last();
        lemma_insert_position(t, room, j);
        assert(t.subrange(0, j) =~= s.subrange(0, j));
        assert((t.subrange(0, j).push(room) + t.subrange(j, n - 1)).push(s.last()) =~= s.subrange(
            0,
            j,
        ).push(room) + s.subrange(j, n));
    }
}

/// Inserting adds one room, keeps the order ascending, and the result
/// holds the inserted room and the rooms of `s`, and nothing else.
pub proof fn lemma_insert_properties(s: Seq<Room>, room: Room)
    ensures
        insert_by_col(s, room).len() == s.len() + 1,
        ascending_by_col(s) ==> ascending_by_col(insert_by_col(s, room)),
        insert_by_col(s, room).contains(room),
        forall|i: int| 0 <= i < s.len() ==> insert_by_col(s, room).contains(#[trigger] s[i]),
        forall|i: int|
            0 <= i < insert_by_col(s, room).len() ==> (#[trigger] insert_by_col(s, room)[i])
                == room || s.contains(insert_by_col(s, room)[i]),
    decreases s.len(),
{
    let out = insert_by_col(s, room);
    if s.len() == 0 {
        assert(out[0] == room);
    } else if s.last().y <= room.y {
        assert(out[s.len() as int] == room);
        assert forall|i: int| 0 <= i < s.len() implies out.contains(#[trigger] s[i]) by {
            assert(out[i] == s[i]);
        }
        assert forall|i: int| 0 <= i < out.len() implies (#[trigger] out[i]) == room || s.contains(
            out[i],
        ) by {
            if i < s.len() {
                assert(s[i] == out[i]);
            }
        }
    } else {
        let t = s.drop_last();
        let inner = insert_by_col(t, room);
        lemma_insert_properties(t, room);
        let n = s.len() as int;
        assert(out.len() == n + 1);
        assert(out[n] == s.last());
        assert forall|i: int| 0 <= i < n implies out[i] == inner[i] by {}
        let w = choose|w: int| 0 <= w < inner.len() && inner[w] == room;
        assert(out[w] == room);
        assert forall|i: int| 0 <= i < s.len() implies out.contains(#[trigger] s[i]) by {
            if i < n - 1 {
                assert(t[i] == s[i]);
                let k = choose|k: int| 0 <= k < inner.len() && inner[k] == t[i];
                assert(out[k] == s[i]);
            } else {
                assert(out[n] == s[i]);
            }
        }
        assert forall|i: int| 0 <= i < out.len() implies (#[trigger] out[i]) == room || s.contains(
            out[i],
        ) by {
            if i < n {
                assert(out[i] == inner[i]);
                if inner[i] != room {
                    let k = choose|k: int| 0 <= k < t.len() && t[k] == inner[i];
                    assert(s[k] == out[i]);
                }
            } else {
                assert(s[n - 1] == out[i]);
            }
        }
        if ascending_by_col(s) {
            assert forall|i: int, j: int| 0 <= i <= j < t.len() implies t[i].y <= t[j].y by {
                assert(s[i].y <= s[j].y);
            }
            assert forall|i: int, j: int| 0 <= i <= j < out.len() implies out[i].y
                <= out[j].y by {
                if j < n {
                    assert(inner[i].y <= inner[j].y);
                } else if i < n {
                    assert(out[i] == inner[i]);
                    if inner[i] != room {
                        let k = choose|k: int| 0 <= k < t.len() && t[k] == inner[i];
                        assert(s[k].y <= s[n - 1].y);
                    }
                }
            }
        }
    }
}

/// The sorted rooms are as many as were given, every given room is among
/// them, each of them was given, and their first columns ascend.
pub proof fn lemma_sorted_properties(s: Seq<Room>)
    ensures
        sorted_by_col(s).len() == s.len(),
        ascending_by_col(sorted_by_col(s)),
        forall|i: int| 0 <= i < s.len() ==> sorted_by_col(s).contains(#[trigger] s[i]),
        forall|i: int|
            0 <= i < sorted_by_col(s).len() ==> s.contains(#[trigger] sorted_by_col(s)[i]),
    decreases s.len(),
{
    let out = sorted_by_col(s);
    if s.len() > 0 {
        let t = s.drop_last();
        let inner = sorted_by_col(t);
        lemma_sorted_properties(t);
        lemma_insert_properties(inner, s.last());
        let n = s.len() as int;
        assert forall|i: int| 0 <= i < s.len() implies out.contains(#[trigger] s[i]) by {
            if i < n - 1 {
                assert(t[i] == s[i]);
                let k = choose|k: int| 0 <= k < inner.len() && inner[k] == t[i];
                assert(out.contains(inner[k]));
            }
        }
        assert forall|i: int| 0 <= i < out.len() implies s.contains(#[trigger] out[i]) by {
            if out[i] == s.last() {
                assert(s[n - 1] == out[i]);
            } else {
                let k = choose|k: int| 0 <= k < inner.len() && inner[k] == out[i];
                let m = choose|m: int| 0 <= m < t.len() && t[m] == inner[k];
                assert(s[m] == out[i]);
            }
        }
    }
}

/// Puts `room` into the ascending `out`, behind the rooms that do not
/// start to its right.
fn insert_room(out: &mut Vec<Room>, room: Room)
    ensures
        final(out)@ == insert_by_col(old(out)@, room),
{
    let n: usize = out.len();
    out.push(room);
    let mut j: usize = n;
    while j > 0 && out[j - 1].y > room.y
        invariant
            0 <= j <= n,
            n == old(out)@.len(),
            out@ == old(out)@.subrange(0, j as int).push(room) + old(out)@.subrange(
                j as int,
                n as int,
            ),
            forall|k: int| j <= k < n ==> old(out)@[k].y > room.y,
        decreases j,
    {
        let ghost before = out@;
        let left: Room = out[j - 1];
        assert(left == old(out)@[j - 1]);
        out.set(j, left);
        out.set(j - 1, room);
        j -= 1;
        assert(out@ =~= old(out)@.subrange(0, j as int).push(room) + old(out)@.subrange(
            j as int,
            n as int,
        ));
    }
    proof {
        if j > 0 {
            assert(out@[j - 1] == old(out)@[j - 1]);
        }
        lemma_insert_position(old(out)@, room, j as int);
    }
}

/// The rooms in ascending order of their first column; rooms that start in
/// the same column keep their order.
pub fn sort_rooms(rooms: &Vec<Room>) -> (sorted: Vec<Room>)
    ensures
        sorted@ == sorted_by_col(rooms@),
{
    let mut sorted: Vec<Room> = Vec::new();
    let mut i: usize = 0;
    while i < rooms.len()
        invariant
            i <= rooms@.len(),
            sorted@ == sorted_by_col(rooms@.subrange(0, i as int)),
        decreases rooms@.len() - i,
    {
        insert_room(&mut sorted, rooms[i]);
        proof {
            let upto = rooms@.subrange(0, i + 1);
            assert(upto.drop_last() =~= rooms@.subrange(0, i as int));
            assert(upto.last() == rooms@[i as int]);
        }
        i += 1;
    }
    proof {
        assert(rooms@.subrange(0, rooms@.len() as int) =~= rooms@);
    }
    sorted
}

} // verus!
