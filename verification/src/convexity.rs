//! Convexity of rooms: finding concave corners, and where a convex piece can
//! be cut off a concave room.
use vstd::prelude::*;
use crate::geometry::{rot, rotate, lemma_rotate, succ, GeometryError, WorldGeometry};
use crate::ids::{lemma_wall_id_eq, RoomId, WallId};
use crate::validation::{wedge, wedge_positive};

verus! {

/// Whether the corner after `wall` is concave.
pub fn is_next_vertex_concave(geometry: &WorldGeometry, wall: WallId) -> (concave: bool)
    requires
        geometry.wf(),
        geometry.has_wall(wall.key()),
    ensures
        concave == geometry.concave_after(wall.key()),
{
    proof {
        geometry.lemma_wall_ok(wall.key());
    }
    let current_direction = geometry.wall_direction(wall);
    let next_direction = geometry.wall_direction(wall.next_wall(geometry));
    wedge_positive(current_direction, next_direction)
}

/// The first wall with a concave corner after it, walking the room's loop from
/// `start_wall`; `None` when the room is convex.
pub fn find_concave_wall(geometry: &WorldGeometry, start_wall: WallId) -> (found: Option<WallId>)
    requires
        geometry.wf(),
        geometry.has_wall(start_wall.key()),
    ensures
        ({
            let u = geometry.loop_from(start_wall.key());
            match found {
                Some(w) => exists|i: int| geometry.first_concave_at(u, i) && #[trigger] u[i] == w.key(),
                None => forall|i: int| 0 <= i < u.len() ==> !geometry.concave_after(#[trigger] u[i]),
            }
        }),
{
    let ghost u = geometry.loop_from(start_wall.key());
    proof {
        geometry.lemma_loop_from(start_wall.key());
    }
    let mut current_wall = start_wall;
    let mut found: Option<WallId> = None;
    let ghost mut k: int = 0;
    loop
        invariant_except_break
            found is None,
            0 <= k < u.len(),
            current_wall.key() == u[k],
            forall|j: int| 0 <= j < k ==> !geometry.concave_after(#[trigger] u[j]),
        invariant
            geometry.wf(),
            u.len() > 0,
            u[0] == start_wall.key(),
            u.no_duplicates(),
            forall|j: int|
                0 <= j < u.len() ==> {
                    &&& geometry.has_wall(#[trigger] u[j])
                    &&& geometry.next_of(u[j]) == u[succ(j, u.len() as int)]
                },
        ensures
            match found {
                Some(w) => exists|i: int| geometry.first_concave_at(u, i) && #[trigger] u[i] == w.key(),
                None => forall|i: int| 0 <= i < u.len() ==> !geometry.concave_after(#[trigger] u[i]),
            },
        decreases u.len() - k,
    {
        proof {
            assert(geometry.has_wall(u[k]));
        }
        if is_next_vertex_concave(geometry, current_wall) {
            proof {
                assert(geometry.first_concave_at(u, k));
            }
            found = Some(current_wall);
            break;
        }
        let next_wall = current_wall.next_wall(geometry);
        proof {
            lemma_wall_id_eq(next_wall, start_wall);
            if k + 1 == u.len() {
                assert(succ(k, u.len() as int) == 0);
            } else {
                assert(succ(k, u.len() as int) == k + 1);
            }
        }
        if next_wall == start_wall {
            proof {
                assert(k + 1 == u.len()) by {
                    if k + 1 < u.len() {
                        assert(u[k + 1] == u[0]);
                    }
                }
                assert forall|j: int| 0 <= j < u.len() implies !geometry.concave_after(#[trigger] u[j]) by {
                    if j < k {
                        assert(!geometry.concave_after(u[j]));
                    }
                }
            }
            break;
        }
        current_wall = next_wall;
        proof {
            k = k + 1;
        }
    }
    found
}

/// Whether no corner of `room` is concave.
pub fn room_is_convex(geometry: &WorldGeometry, room: RoomId) -> (convex: bool)
    requires
        geometry.wf(),
        geometry.has_room(room.key()),
    ensures
        convex == geometry.room_convex(room.key()),
{
    let ghost r = room.key();
    let ghost s = geometry.room_loop(r);
    proof {
        geometry.lemma_room_ok(r);
        assert(s.index_of(s[0]) == 0) by {
            assert(s.contains(s[0]));
        }
        lemma_rotate(s, 0);
        assert(geometry.has_wall(s[0]));
        assert(geometry.room_of(s[0]) == r);
        assert(rotate(s, 0) =~= s) by {
            assert forall|j: int| 0 <= j < s.len() implies #[trigger] rotate(s, 0)[j] == s[j] by {
                assert(rot(0, j, s.len() as int) == j);
            }
        }
        assert(geometry.loop_from(s[0]) == s);
    }
    let found = find_concave_wall(geometry, room.first_wall(geometry));
    found.is_none()
}

impl WorldGeometry {
    /// A cut from the start of wall `t` to the concave corner after `pre` would
    /// not leave a convex piece behind: `t`'s start lies to the left of `pre`'s
    /// direction as seen from that corner, or the corner after `t` is concave.
    pub open spec fn blocks_cut(&self, pre: u64, t: u64) -> bool {
        let c = self.start_of(self.next_of(pre));
        let p = self.start_of(t);
        let d = self.direction_of(pre);
        wedge(d.0, d.1, p.0 - c.0, p.1 - c.1) > 0 || self.concave_after(t)
    }

    /// Walking back from the wall before `pre`, no wall blocks the cut before
    /// the search comes round to the wall after `pre`.
    pub open spec fn cut_never_blocked(&self, pre: u64) -> bool {
        let u = self.loop_from(pre);
        forall|j: int| 1 < j < u.len() ==> !self.blocks_cut(pre, #[trigger] u[j])
    }

    /// Already the wall before `pre` blocks the cut.
    pub open spec fn cut_blocked_right_away(&self, pre: u64) -> bool {
        let u = self.loop_from(pre);
        u.len() >= 3 && self.blocks_cut(pre, u[u.len() - 1])
    }

    /// Walking back from the wall before `pre`, the first wall that blocks the
    /// cut is `loop_from(pre)[k]`, and it is not the wall before `pre`.
    pub open spec fn cut_blocked_at(&self, pre: u64, k: int) -> bool {
        let u = self.loop_from(pre);
        &&& 2 <= k < u.len() - 1
        &&& self.blocks_cut(pre, u[k])
        &&& forall|j: int| k < j < u.len() ==> !self.blocks_cut(pre, #[trigger] u[j])
    }

    /// Walking the room of `w` round from `w`, no corner is concave, or the cut
    /// from the first concave corner is blocked right away: nothing is cut
    /// from `w`.
    pub open spec fn cut_settled_from(&self, w: u64) -> bool {
        let u = self.loop_from(w);
        ||| forall|i: int| 0 <= i < u.len() ==> !self.concave_after(#[trigger] u[i])
        ||| exists|i: int| #[trigger] self.first_concave_at(u, i) && self.cut_blocked_right_away(u[i])
    }

    /// From some wall of room `r` nothing is cut.
    pub open spec fn room_settled(&self, r: u64) -> bool {
        exists|w: u64| self.has_wall(w) && self.room_of(w) == r && #[trigger] self.cut_settled_from(w)
    }

    /// From every room nothing is cut.
    pub open spec fn all_rooms_settled(&self) -> bool {
        forall|r: u64| #[trigger] self.has_room(r) ==> self.room_settled(r)
    }
}

/// The three ways the search for a cut from `pre` can end exclude each other,
/// and the wall where it stops is unique.
pub proof fn lemma_cut_cases(g: WorldGeometry, pre: u64)
    ensures
        g.cut_never_blocked(pre) ==> !g.cut_blocked_right_away(pre),
        g.cut_never_blocked(pre) ==> forall|k: int| !#[trigger] g.cut_blocked_at(pre, k),
        g.cut_blocked_right_away(pre) ==> forall|k: int| !#[trigger] g.cut_blocked_at(pre, k),
        forall|k1: int, k2: int| #[trigger] g.cut_blocked_at(pre, k1) && #[trigger] g.cut_blocked_at(pre, k2) ==> k1 == k2,
{
    let u = g.loop_from(pre);
    let n = u.len() as int;
    if g.cut_never_blocked(pre) && g.cut_blocked_right_away(pre) {
        assert(!g.blocks_cut(pre, u[n - 1]));
    }
    assert forall|k: int| g.cut_never_blocked(pre) implies !#[trigger] g.cut_blocked_at(pre, k) by {
        if g.cut_blocked_at(pre, k) {
            assert(!g.blocks_cut(pre, u[k]));
        }
    }
    assert forall|k: int| g.cut_blocked_right_away(pre) implies !#[trigger] g.cut_blocked_at(pre, k) by {
        if g.cut_blocked_at(pre, k) {
            assert(!g.blocks_cut(pre, u[n - 1]));
        }
    }
    assert forall|k1: int, k2: int| #[trigger] g.cut_blocked_at(pre, k1) && #[trigger] g.cut_blocked_at(pre, k2) implies k1 == k2 by {
        if k1 < k2 {
            assert(!g.blocks_cut(pre, u[k2]));
        } else if k2 < k1 {
            assert(!g.blocks_cut(pre, u[k1]));
        }
    }
}

/// Looks for where to cut a convex piece off the room of `pre_concave_wall`,
/// whose corner after it is concave. Walking back from the wall before it, the
/// search stops at the first wall that blocks the cut (see
/// [`WorldGeometry::blocks_cut`]); the piece then runs from the wall after that
/// one up to `pre_concave_wall`. Returns `None` when already the wall before
/// `pre_concave_wall` blocks, and refuses when no wall does before the search
/// comes round to the wall after `pre_concave_wall`.
pub fn find_split_wall(geometry: &WorldGeometry, pre_concave_wall: WallId) -> (res: Result<Option<WallId>, GeometryError>)
    requires
        geometry.wf(),
        geometry.has_wall(pre_concave_wall.key()),
    ensures
        ({
            let u = geometry.loop_from(pre_concave_wall.key());
            let n = u.len() as int;
            let pre = pre_concave_wall.key();
            match res {
                Err(e) => e == GeometryError::FullyConcave(pre_concave_wall)
                    && forall|j: int| 1 < j < n ==> !geometry.blocks_cut(pre, #[trigger] u[j]),
                Ok(None) => n >= 3 && geometry.blocks_cut(pre, u[n - 1]),
                Ok(Some(t)) => exists|k: int|
                    #![trigger u[k]]
                    2 <= k < n - 1 && geometry.blocks_cut(pre, u[k]) && t.key() == u[k + 1]
                        && forall|j: int| k < j < n ==> !geometry.blocks_cut(pre, #[trigger] u[j]),
            }
        }),
{
    let ghost pre = pre_concave_wall.key();
    let ghost u = geometry.loop_from(pre);
    let ghost n = u.len() as int;
    proof {
        geometry.lemma_loop_from(pre);
        geometry.lemma_wall_ok(pre);
        geometry.lemma_wall_ok(geometry.next_of(pre));
        assert(geometry.prev_of(pre) == u[n - 1]);
    }
    let pre_next = pre_concave_wall.next_wall(geometry);
    let start_position = pre_next.vertex(geometry).position(geometry);
    let start_direction = geometry.wall_direction(pre_concave_wall);
    let pre_prev = pre_concave_wall.prev_wall(geometry);
    let mut test_wall = pre_prev;
    let ghost mut k: int = n - 1;
    loop
        invariant
            geometry.wf(),
            u == geometry.loop_from(pre),
            n == u.len(),
            n > 0,
            u[0] == pre,
            pre == pre_concave_wall.key(),
            u.no_duplicates(),
            forall|j: int|
                0 <= j < n ==> {
                    &&& geometry.has_wall(#[trigger] u[j])
                    &&& geometry.next_of(u[j]) == u[succ(j, n)]
                    &&& geometry.prev_of(u[j]) == u[if j > 0 { j - 1 } else { n - 1 }]
                },
            pre_next.key() == u[succ(0, n)],
            pre_prev.key() == u[n - 1],
            start_position.x == geometry.start_of(u[succ(0, n)]).0,
            start_position.y == geometry.start_of(u[succ(0, n)]).1,
            start_direction.0 == geometry.direction_of(pre).0,
            start_direction.1 == geometry.direction_of(pre).1,
            (n == 1 && k == 0) || (1 <= k <= n - 1),
            test_wall.key() == u[k],
            forall|j: int| k < j < n ==> !geometry.blocks_cut(pre, #[trigger] u[j]),
        decreases k,
    {
        proof {
            lemma_wall_id_eq(test_wall, pre_next);
            assert(geometry.has_wall(u[k]));
            geometry.lemma_wall_ok(u[k]);
            if n == 1 {
                assert(succ(0, n) == 0);
            } else {
                assert(succ(0, n) == 1);
            }
        }
        if test_wall == pre_next {
            return Err(GeometryError::FullyConcave(pre_concave_wall));
        }
        proof {
            assert(k != succ(0, n));
            assert(n >= 3 && 2 <= k);
        }
        let test_position = test_wall.vertex(geometry).position(geometry);
        let offset = (
            test_position.x as i64 - start_position.x as i64,
            test_position.y as i64 - start_position.y as i64,
        );
        let wall_crosses_start_vector = wedge_positive(start_direction, offset);
        let is_target_vertex_concave = is_next_vertex_concave(geometry, test_wall);
        if wall_crosses_start_vector || is_target_vertex_concave {
            proof {
                assert(geometry.blocks_cut(pre, u[k]));
            }
            proof {
                lemma_wall_id_eq(test_wall, pre_prev);
            }
            if test_wall == pre_prev {
                return Ok(None);
            }
            let next = test_wall.next_wall(geometry);
            proof {
                assert(succ(k, n) == k + 1);
            }
            return Ok(Some(next));
        }
        test_wall = test_wall.prev_wall(geometry);
        proof {
            k = k - 1;
        }
    }
}

/// A wall with a concave corner after it leaves its room concave.
pub proof fn lemma_concave_wall(g: WorldGeometry, w: u64)
    requires
        g.wf(),
        g.has_wall(w),
        g.concave_after(w),
    ensures
        !g.all_rooms_convex(),
{
    g.lemma_wall_ok(w);
    let r = g.room_of(w);
    g.lemma_wf_basics();
    assert(g.has_room(r));
    let s = g.room_loop(r);
    let i = choose|i: int| 0 <= i < s.len() && s[i] == w;
    assert(!g.room_convex(r));
}

} // verus!
