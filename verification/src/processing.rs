//! Preparing a geometry for play: concave rooms are cut into convex pieces (see
//! [`crate::convexity`]), and each piece remembers which room of the source
//! geometry it came from.
use vstd::prelude::*;
use crate::convexity::{find_concave_wall, find_split_wall, lemma_concave_wall, lemma_cut_cases, is_next_vertex_concave};
use crate::geometry::{succ, GeometryError, WorldGeometry};
use crate::geometry_lemmas::in_arc;
use crate::ids::{is_key, lemma_room_id_eq, slot_index, RoomId, WallId};
use crate::validation::validate_geometry;
use crate::slots::{
    key_stack, key_stack_new, key_stack_pop, key_stack_push, room_links, room_links_entries, room_links_get, room_links_insert,
    room_links_len, room_links_new, RoomLinks, MAX_SLOT_COUNT,
};

verus! {

/// What a room key of the processed geometry stands for in the source
/// geometry: its entry in `m`, or itself when it has none.
pub open spec fn origin(m: Map<u64, u64>, r: u64) -> u64 {
    if m.dom().contains(r) {
        m[r]
    } else {
        r
    }
}

/// For each room made by cutting rooms into convex pieces, the room of the
/// source geometry it was cut from.
pub struct RoomSourceMap {
    links: RoomLinks,
}

impl RoomSourceMap {
    /// The entries, from room key to room key.
    pub closed spec fn view(&self) -> Map<u64, u64> {
        room_links(self.links)
    }

    #[verifier::type_invariant]
    spec fn inv(self) -> bool {
        forall|k: u64| #[trigger] room_links(self.links).dom().contains(k) ==> is_key(k) && is_key(room_links(self.links)[k])
    }

    /// An empty map.
    pub fn new() -> (m: RoomSourceMap)
        ensures
            m.view() == Map::<u64, u64>::empty(),
    {
        let m = RoomSourceMap { links: room_links_new() };
        assert(m.view() =~= Map::<u64, u64>::empty());
        m
    }

    /// Number of entries.
    pub fn len(&self) -> (n: usize)
        ensures
            n == self.view().len(),
    {
        room_links_len(&self.links)
    }

    /// Whether the map has no entry.
    pub fn is_empty(&self) -> (b: bool)
        ensures
            b == (self.view().len() == 0),
    {
        room_links_len(&self.links) == 0
    }

    /// The source room of `room`, if it has an entry.
    pub fn get(&self, room: RoomId) -> (r: Option<RoomId>)
        ensures
            r is Some <==> self.view().dom().contains(room.key()),
            r matches Some(s) ==> s.key() == self.view()[room.key()],
    {
        proof {
            use_type_invariant(self);
        }
        match room_links_get(&self.links, room.raw()) {
            Some(k) => Some(RoomId::from_key(k)),
            None => None,
        }
    }
}

/// The rooms of `entries` whose source is `source`, in order.
pub open spec fn rooms_from(entries: Seq<(u64, u64)>, source: u64) -> Seq<u64>
    decreases entries.len(),
{
    if entries.len() == 0 {
        Seq::<u64>::empty()
    } else {
        let rest = rooms_from(entries.drop_last(), source);
        if entries.last().1 == source {
            rest.push(entries.last().0)
        } else {
            rest
        }
    }
}

/// `entries` lists the entries of `m`, each once, in increasing slot order of
/// their keys.
pub open spec fn lists_entries(m: Map<u64, u64>, entries: Seq<(u64, u64)>) -> bool {
    &&& forall|i: int| 0 <= i < entries.len() ==> m.dom().contains(#[trigger] entries[i].0) && m[entries[i].0] == entries[i].1
    &&& forall|k: u64| #[trigger] m.dom().contains(k) ==> exists|i: int| 0 <= i < entries.len() && #[trigger] entries[i].0 == k
    &&& forall|i: int, j: int| 0 <= i < j < entries.len() ==> slot_index(#[trigger] entries[i].0) < slot_index(#[trigger] entries[j].0)
}

/// Every room that `rooms_from` lists has an entry, and its entry is `source`.
proof fn lemma_rooms_from_sound(m: Map<u64, u64>, entries: Seq<(u64, u64)>, source: u64)
    requires
        forall|i: int| 0 <= i < entries.len() ==> m.dom().contains(#[trigger] entries[i].0) && m[entries[i].0] == entries[i].1,
    ensures
        forall|x: u64| #[trigger] rooms_from(entries, source).contains(x) ==> m.dom().contains(x) && m[x] == source,
    decreases entries.len(),
{
    if entries.len() > 0 {
        let rest = entries.drop_last();
        assert forall|i: int| 0 <= i < rest.len() implies m.dom().contains(#[trigger] rest[i].0) && m[rest[i].0] == rest[i].1 by {
            assert(rest[i] == entries[i]);
        }
        lemma_rooms_from_sound(m, rest, source);
        assert(m.dom().contains(entries[entries.len() - 1].0));
        let last = entries[entries.len() - 1];
        assert(entries.last() == last);
        assert forall|x: u64| #[trigger] rooms_from(entries, source).contains(x) implies m.dom().contains(x) && m[x] == source by {
            let s = rooms_from(entries, source);
            let k = choose|k: int| 0 <= k < s.len() && s[k] == x;
            if last.1 == source {
                if k < s.len() - 1 {
                    assert(rooms_from(rest, source)[k] == x);
                    assert(rooms_from(rest, source).contains(x));
                } else {
                    assert(x == last.0);
                }
            } else {
                assert(rooms_from(rest, source)[k] == x);
                assert(rooms_from(rest, source).contains(x));
            }
        }
    }
}

/// Every entry whose source is `source` is listed by `rooms_from`.
proof fn lemma_rooms_from_complete(entries: Seq<(u64, u64)>, source: u64, i: int)
    requires
        0 <= i < entries.len(),
        entries[i].1 == source,
    ensures
        rooms_from(entries, source).contains(entries[i].0),
    decreases entries.len(),
{
    let rest = entries.drop_last();
    if i < entries.len() - 1 {
        assert(rest[i] == entries[i]);
        lemma_rooms_from_complete(rest, source, i);
        let k = choose|k: int| 0 <= k < rooms_from(rest, source).len() && rooms_from(rest, source)[k] == entries[i].0;
        if entries.last().1 == source {
            assert(rooms_from(entries, source)[k] == entries[i].0);
        }
    } else {
        let s = rooms_from(entries, source);
        assert(s[s.len() - 1] == entries[i].0);
    }
}

/// Each room is among the rooms listed for the room it stands for: whatever it
/// was cut from lists it, and a room that was not cut lists itself.
pub proof fn law_room_among_pieces_of_its_source(m: Map<u64, u64>, entries: Seq<(u64, u64)>, r: u64)
    requires
        lists_entries(m, entries),
    ensures
        rooms_from(entries, origin(m, r)).push(origin(m, r)).contains(r),
{
    let s = rooms_from(entries, origin(m, r)).push(origin(m, r));
    if m.dom().contains(r) {
        let i = choose|i: int| 0 <= i < entries.len() && #[trigger] entries[i].0 == r;
        lemma_rooms_from_complete(entries, origin(m, r), i);
        let k = choose|k: int| 0 <= k < rooms_from(entries, origin(m, r)).len() && rooms_from(entries, origin(m, r))[k] == r;
        assert(s[k] == r);
    } else {
        assert(s[s.len() - 1] == r);
    }
}

/// Every room listed for a room without an entry of its own stands for that
/// room.
pub proof fn law_pieces_map_back(m: Map<u64, u64>, entries: Seq<(u64, u64)>, source: u64)
    requires
        lists_entries(m, entries),
        !m.dom().contains(source),
    ensures
        forall|x: u64| #[trigger] rooms_from(entries, source).push(source).contains(x) ==> origin(m, x) == source,
{
    lemma_rooms_from_sound(m, entries, source);
    assert forall|x: u64| #[trigger] rooms_from(entries, source).push(source).contains(x) implies origin(m, x) == source by {
        let s = rooms_from(entries, source).push(source);
        let k = choose|k: int| 0 <= k < s.len() && s[k] == x;
        if k < s.len() - 1 {
            assert(rooms_from(entries, source)[k] == x);
            assert(rooms_from(entries, source).contains(x));
        } else {
            assert(x == source);
        }
    }
}

impl RoomSourceMap {
    /// The room of the source geometry that `processed_room` stands for: its
    /// entry, or itself when it has none (it was in the source geometry).
    pub fn to_source_room(&self, geometry: &WorldGeometry, processed_room: RoomId) -> (r: RoomId)
        requires
            geometry.has_room(processed_room.key()),
        ensures
            r.key() == origin(self.view(), processed_room.key()),
    {
        match self.get(processed_room) {
            Some(source) => source,
            None => processed_room,
        }
    }

    /// The rooms of the processed geometry that stand for `source_room`: the
    /// rooms cut from it, in slot order, then the room itself.
    pub fn to_processed_rooms(&self, source_room: RoomId) -> (rooms: Vec<RoomId>)
        ensures
            exists|entries: Seq<(u64, u64)>|
                lists_entries(self.view(), entries) && rooms@.map_values(|r: RoomId| r.key()) == rooms_from(
                    entries,
                    source_room.key(),
                ).push(source_room.key()),
    {
        proof {
            use_type_invariant(self);
        }
        let entries = room_links_entries(&self.links);
        let mut rooms: Vec<RoomId> = Vec::new();
        let mut i: usize = 0;
        while i < entries.len()
            invariant
                0 <= i <= entries@.len(),
                forall|j: int| 0 <= j < entries@.len() ==> room_links(self.links).dom().contains(#[trigger] entries@[j].0)
                    && room_links(self.links)[entries@[j].0] == entries@[j].1,
                forall|k: u64| #[trigger] room_links(self.links).dom().contains(k) ==> is_key(k) && is_key(room_links(self.links)[k]),
                rooms@.map_values(|r: RoomId| r.key()) == rooms_from(entries@.take(i as int), source_room.key()),
            decreases entries@.len() - i,
        {
            proof {
                assert(entries@.take(i as int + 1).drop_last() =~= entries@.take(i as int));
                assert(room_links(self.links).dom().contains(entries@[i as int].0));
            }
            let (processed, source) = entries[i];
            if source == source_room.to_ffi() {
                rooms.push(RoomId::from_ffi(processed));
            }
            proof {
                assert(rooms@.map_values(|r: RoomId| r.key()) =~= rooms_from(entries@.take(i as int + 1), source_room.key()));
            }
            i = i + 1;
        }
        rooms.push(source_room);
        proof {
            assert(lists_entries(self.view(), entries@));
            assert(entries@.take(entries@.len() as int) =~= entries@);
            assert(rooms@.map_values(|r: RoomId| r.key()) =~= rooms_from(entries@, source_room.key()).push(source_room.key()));
        }
        rooms
    }

    /// Records that `room` was cut from `source`.
    fn insert(&mut self, room: RoomId, source: RoomId)
        requires
            slot_index(room.key()) < 0xffff_ffff,
            forall|j: u64| #[trigger] old(self).view().dom().contains(j) ==> slot_index(j) != slot_index(room.key()),
        ensures
            final(self).view() == old(self).view().insert(room.key(), source.key()),
    {
        proof {
            use_type_invariant(&*self);
        }
        let room_key = room.raw();
        let source_key = source.raw();
        let mut links = room_links_new();
        std::mem::swap(&mut links, &mut self.links);
        assert(room_links(links) == old(self).view());
        room_links_insert(&mut links, room_key, source_key);
        self.links = links;
    }
}

/// A sequence of distinct elements of a finite set is no longer than the set.
proof fn lemma_distinct_len(s: Seq<u64>, d: Set<u64>)
    requires
        s.no_duplicates(),
        d.finite(),
        forall|i: int| 0 <= i < s.len() ==> d.contains(#[trigger] s[i]),
    ensures
        s.len() <= d.len(),
{
    s.unique_seq_to_set();
    assert(s.to_set().subset_of(d));
    vstd::set_lib::lemma_len_subset(s.to_set(), d);
}

/// Every wall of `g0` outside room `cr` is in `g` too, in the same room, with
/// the same next wall and the same start, and every other room of `g0` has the
/// same loop in `g`.
pub open spec fn kept_outside(g: WorldGeometry, g0: WorldGeometry, cr: u64) -> bool {
    &&& forall|x: u64|
        #[trigger] g0.has_wall(x) && g0.room_of(x) != cr ==> {
            &&& g.has_wall(x)
            &&& g.room_of(x) == g0.room_of(x)
            &&& g.next_of(x) == g0.next_of(x)
            &&& g.start_of(x) == g0.start_of(x)
        }
    &&& forall|rr: u64| #[trigger] g0.has_room(rr) && rr != cr ==> g.room_loop(rr) == g0.room_loop(rr)
}

/// A wall outside the changed room keeps its loop, its direction and its
/// corner.
proof fn lemma_kept_wall(g: WorldGeometry, g0: WorldGeometry, cr: u64, x: u64)
    requires
        g0.wf(),
        kept_outside(g, g0, cr),
        g0.has_wall(x),
        g0.room_of(x) != cr,
    ensures
        g.loop_from(x) == g0.loop_from(x),
        g.start_of(x) == g0.start_of(x),
        g.next_of(x) == g0.next_of(x),
        g.direction_of(x) == g0.direction_of(x),
        g.concave_after(x) == g0.concave_after(x),
{
    g0.lemma_loop_from(x);
    let r = g0.room_of(x);
    let u = g0.loop_from(x);
    let n = u.len() as int;
    assert(u[0] == x);
    let y = g0.next_of(x);
    assert(y == u[succ(0, n)]);
    assert(g0.has_wall(y) && g0.room_of(y) == r);
    g0.lemma_loop_from(y);
    let v = g0.loop_from(y);
    assert(v[0] == y);
    let z = g0.next_of(y);
    assert(z == v[succ(0, v.len() as int)]);
    assert(g0.has_wall(z) && g0.room_of(z) == r);
    assert(g.room_loop(r) == g0.room_loop(r));
}

/// A room outside the changed room from which nothing was cut stays so.
proof fn lemma_settled_kept(g: WorldGeometry, g0: WorldGeometry, cr: u64, r: u64)
    requires
        g0.wf(),
        kept_outside(g, g0, cr),
        r != cr,
        g0.room_settled(r),
    ensures
        g.room_settled(r),
{
    let w = choose|w: u64| g0.has_wall(w) && g0.room_of(w) == r && #[trigger] g0.cut_settled_from(w);
    g0.lemma_loop_from(w);
    let u = g0.loop_from(w);
    let n = u.len() as int;
    lemma_kept_wall(g, g0, cr, w);
    assert forall|j: int| 0 <= j < n implies g.concave_after(#[trigger] u[j]) == g0.concave_after(u[j]) by {
        lemma_kept_wall(g, g0, cr, u[j]);
    }
    if !(forall|i: int| 0 <= i < u.len() ==> !g0.concave_after(#[trigger] u[i])) {
        let i = choose|i: int| #[trigger] g0.first_concave_at(u, i) && g0.cut_blocked_right_away(u[i]);
        let pre = u[i];
        lemma_kept_wall(g, g0, cr, pre);
        g0.lemma_loop_from(pre);
        let v = g0.loop_from(pre);
        let m = v.len() as int;
        let t = v[m - 1];
        lemma_kept_wall(g, g0, cr, t);
        lemma_kept_wall(g, g0, cr, g0.next_of(pre));
        assert(g0.room_of(g0.next_of(pre)) == r) by {
            assert(g0.next_of(v[0]) == v[succ(0, m)]);
        }
        assert(g.blocks_cut(pre, t) == g0.blocks_cut(pre, t));
        assert(g.first_concave_at(u, i));
        assert(g.cut_blocked_right_away(pre));
    }
    assert(g.cut_settled_from(w));
}

/// Cuts one convex piece off the room of `start_wall` when that room is
/// concave: finds the first concave corner from `start_wall` on, looks for
/// where to cut (see [`find_split_wall`]), splits the room there and records
/// the new room's source room. Returns the two walls that close the cut (the
/// new room's first), or `None` when nothing was cut.
#[verifier::rlimit(60)]
fn cut_convex_piece(geometry: &mut WorldGeometry, sources: &mut RoomSourceMap, start_wall: WallId)
    -> (res: Result<Option<(WallId, WallId)>, GeometryError>)
    requires
        old(geometry).wf(),
        old(geometry).has_wall(start_wall.key()),
        old(geometry).num_walls_spec() + 2 < MAX_SLOT_COUNT,
        old(geometry).num_rooms_spec() + 1 < MAX_SLOT_COUNT,
        forall|k: u64| #[trigger] old(sources).view().dom().contains(k) ==> old(geometry).has_room(k),
    ensures
        final(geometry).wf(),
        !(res matches Ok(Some(_))) ==> *final(geometry) == *old(geometry) && final(sources).view() == old(sources).view(),
        res matches Err(e) ==> e matches GeometryError::FullyConcave(w) && old(geometry).has_wall(w.key())
            && old(geometry).concave_after(w.key()) && old(geometry).cut_never_blocked(w.key()),
        res matches Ok(None) ==> old(geometry).cut_settled_from(start_wall.key()),
        res matches Ok(Some(cut)) ==> kept_outside(*final(geometry), *old(geometry), old(geometry).room_of(start_wall.key()))
            && final(geometry).room_of(cut.1.key()) == old(geometry).room_of(start_wall.key()),
        res matches Ok(Some(cut)) ==> {
            let g0 = *old(geometry);
            let g1 = *final(geometry);
            let nr = g1.room_of(cut.0.key());
            forall|x: u64|
                #[trigger] g0.has_wall(x) ==> (g1.room_of(x) == nr && g0.room_of(x) == g0.room_of(start_wall.key())) || (
                g1.room_of(x) == g0.room_of(x) && g1.room_of(x) != nr)
        },
        res matches Ok(Some(cut)) ==> {
            let g0 = *old(geometry);
            let g1 = *final(geometry);
            let nr = g1.room_of(cut.0.key());
            &&& g1.vertex_map() == g0.vertex_map()
            &&& !g0.has_room(nr)
            &&& g1.room_map().dom() == g0.room_map().dom().insert(nr)
            &&& forall|x: u64| #[trigger] g1.has_wall(x) <==> (g0.has_wall(x) || x == cut.0.key() || x == cut.1.key())
            &&& g1.num_walls_spec() == g0.num_walls_spec() + 2
            &&& g1.num_rooms_spec() == g0.num_rooms_spec() + 1
            &&& final(sources).view() == old(sources).view().insert(
                nr,
                origin(old(sources).view(), g0.room_of(start_wall.key())),
            )
        },
        ({
            let g0 = *old(geometry);
            let u0 = g0.loop_from(start_wall.key());
            &&& (forall|i: int| 0 <= i < u0.len() ==> !g0.concave_after(#[trigger] u0[i])) ==> (res matches Ok(None))
            &&& forall|i: int|
                #[trigger] g0.first_concave_at(u0, i) ==> {
                    let pre = u0[i];
                    &&& g0.cut_never_blocked(pre) ==> (res matches Err(e) && e matches GeometryError::FullyConcave(w)
                        && w.key() == pre)
                    &&& g0.cut_blocked_right_away(pre) ==> (res matches Ok(None))
                    &&& forall|k: int|
                        #[trigger] g0.cut_blocked_at(pre, k) ==> (res matches Ok(Some(cut)) && final(geometry).split_room_done(
                            &g0,
                            g0.loop_from(pre)[k + 1],
                            pre,
                            cut.0.key(),
                        ))
                }
        }),
{
    let ghost g0 = *old(geometry);
    let ghost u0 = g0.loop_from(start_wall.key());
    let pre_concave_wall = match find_concave_wall(geometry, start_wall) {
        None => {
            proof {
                assert forall|i: int| !#[trigger] g0.first_concave_at(u0, i) by {
                    if g0.first_concave_at(u0, i) {
                        assert(!g0.concave_after(u0[i]));
                    }
                }
            }
            return Ok(None);
        },
        Some(w) => w,
    };
    let ghost pre = pre_concave_wall.key();
    proof {
        geometry.lemma_loop_from(start_wall.key());
        let u = geometry.loop_from(start_wall.key());
        let i = choose|i: int| geometry.first_concave_at(u, i) && #[trigger] u[i] == pre;
        assert(geometry.has_wall(u[i]));
        assert(geometry.room_of(u[i]) == geometry.room_of(start_wall.key()));
        // The first concave corner is unique.
        assert forall|i2: int| #[trigger] g0.first_concave_at(u0, i2) implies u0[i2] == pre by {
            if i2 < i {
                assert(!g0.concave_after(u0[i2]));
            } else if i < i2 {
                assert(!g0.concave_after(u0[i]));
            }
        }
        assert(g0.concave_after(u0[i]));
        lemma_cut_cases(g0, pre);
    }
    let current_room = start_wall.room(geometry);
    let test_wall = match find_split_wall(geometry, pre_concave_wall) {
        Err(e) => {
            proof {
                assert(g0.cut_never_blocked(pre));
            }
            return Err(e);
        },
        Ok(None) => {
            proof {
                assert(g0.cut_blocked_right_away(pre));
                let i = choose|i: int| g0.first_concave_at(u0, i) && #[trigger] u0[i] == pre;
                assert(g0.first_concave_at(u0, i) && g0.cut_blocked_right_away(u0[i]));
            }
            return Ok(None);
        },
        Ok(Some(t)) => t,
    };
    proof {
        geometry.lemma_loop_from(pre);
        let u = geometry.loop_from(pre);
        let n = u.len() as int;
        let k = choose|k: int|
            #![trigger u[k]]
            2 <= k < n - 1 && geometry.blocks_cut(pre, u[k]) && test_wall.key() == u[k + 1]
                && forall|j: int| k < j < n ==> !geometry.blocks_cut(pre, #[trigger] u[j]);
        assert(g0.cut_blocked_at(pre, k));
        assert forall|k2: int| #[trigger] g0.cut_blocked_at(pre, k2) implies g0.loop_from(pre)[k2 + 1] == test_wall.key() by {
            assert(g0.cut_blocked_at(pre, k) && g0.cut_blocked_at(pre, k2));
        }
        assert(geometry.has_wall(u[k + 1]));
        assert(geometry.room_of(u[k + 1]) == geometry.room_of(pre));
        assert(geometry.next_of(u[0]) == u[succ(0, n)]);
        assert(succ(0, n) == 1);
        assert(u[k + 1] != u[1]);
        assert(u[k + 1] != u[0]);
        geometry.lemma_wf_basics();
    }
    let new_wall = match geometry.split_room(test_wall, pre_concave_wall) {
        Ok(w) => w,
        Err(e) => {
            proof {
                assert(false);
            }
            return Err(e);
        },
    };
    proof {
        assert(geometry.split_room_done(&g0, test_wall.key(), pre, new_wall.key()));
        let t = test_wall.key();
        let u = g0.loop_from(t);
        let e = u.index_of(pre);
        let nr = geometry.room_of(new_wall.key());
        g0.lemma_loop_from(t);
        let r = g0.room_of(t);
        g0.lemma_room_ok(r);
        assert forall|x: u64| #[trigger] g0.has_wall(x) implies (geometry.room_of(x) == nr && g0.room_of(x) == g0.room_of(
            start_wall.key(),
        )) || (geometry.room_of(x) == g0.room_of(x) && geometry.room_of(x) != nr) by {
            if in_arc(u, e, x) {
                let sub = u.subrange(0, e + 1);
                let j = choose|j: int| 0 <= j < sub.len() && #[trigger] sub[j] == x;
                assert(u[j] == x);
                assert(u.contains(x));
                assert(g0.room_loop(r).contains(x));
                let rl = g0.room_loop(r);
                let k = choose|k: int| 0 <= k < rl.len() && #[trigger] rl[k] == x;
                assert(g0.has_wall(rl[k]));
            } else {
                g0.lemma_wall_ok(x);
                assert(g0.has_room(g0.room_of(x)));
            }
        }
    }
    proof {
        let t = test_wall.key();
        let u = g0.loop_from(t);
        let n = u.len() as int;
        let e = u.index_of(pre);
        let cr = g0.room_of(start_wall.key());
        g0.lemma_loop_from(t);
        assert(g0.room_of(t) == cr);
        assert forall|x: u64| #[trigger] g0.has_wall(x) && g0.room_of(x) != cr implies {
            &&& geometry.has_wall(x)
            &&& geometry.room_of(x) == g0.room_of(x)
            &&& geometry.next_of(x) == g0.next_of(x)
            &&& geometry.start_of(x) == g0.start_of(x)
        } by {
            if u.contains(x) {
                let j = choose|j: int| 0 <= j < n && u[j] == x;
                assert(g0.room_of(u[j]) == cr);
            }
            if in_arc(u, e, x) {
                let sub = u.subrange(0, e + 1);
                let j = choose|j: int| 0 <= j < sub.len() && #[trigger] sub[j] == x;
                assert(u[j] == x);
            }
            assert(u[e] == pre);
            assert(g0.room_of(u[e]) == cr);
            assert(g0.room_of(u[n - 1]) == cr);
        }
        assert forall|rr: u64| #[trigger] g0.has_room(rr) && rr != cr implies geometry.room_loop(rr) == g0.room_loop(rr) by {
            assert(rr != geometry.room_of(new_wall.key()));
        }
    }
    let new_room = new_wall.room(geometry);
    let old_wall = match new_wall.connected_wall(geometry) {
        Some(c) => c,
        None => {
            proof {
                assert(false);
            }
            return Ok(None);
        },
    };
    let source = match sources.get(current_room) {
        Some(s) => s,
        None => current_room,
    };
    proof {
        lemma_room_id_eq(new_room, current_room);
    }
    sources.insert(new_room, source);
    Ok(Some((new_wall, old_wall)))
}

/// Every room of `g` is one from which nothing is cut, or has a wall in `q`.
pub open spec fn rooms_covered(g: WorldGeometry, q: Seq<u64>) -> bool {
    forall|r: u64|
        #[trigger] g.has_room(r) ==> g.room_settled(r) || exists|j: int| 0 <= j < q.len() && g.room_of(#[trigger] q[j]) == r
}

/// `s` is the wall of `g` in the highest slot among those with a concave corner
/// after them.
pub open spec fn last_concave_wall(g: WorldGeometry, s: u64) -> bool {
    &&& g.has_wall(s)
    &&& g.concave_after(s)
    &&& forall|w: u64| #[trigger] g.has_wall(w) && g.concave_after(w) ==> slot_index(w) <= slot_index(s)
}

/// Cuts every concave room into convex pieces, and records for each new room
/// the room of the source geometry it was cut from. Walls with a concave corner
/// after them are queued, and the new walls of each cut are queued in turn; a
/// room is cut where [`find_split_wall`] says. At most 1000 walls are taken
/// from the queue. At the end the whole geometry is validated.
#[verifier::rlimit(40)]
pub fn split_concave_rooms(geometry: &mut WorldGeometry, processed_to_source_rooms: &mut RoomSourceMap)
    -> (res: Result<(), GeometryError>)
    requires
        old(geometry).wf(),
        old(geometry).num_walls_spec() + 2000 < MAX_SLOT_COUNT,
        old(geometry).num_rooms_spec() + 1000 < MAX_SLOT_COUNT,
        forall|k: u64| #[trigger] old(processed_to_source_rooms).view().dom().contains(k) ==> old(geometry).has_room(k),
    ensures
        final(geometry).wf(),
        final(geometry).vertex_map() == old(geometry).vertex_map(),
        forall|r: u64| #[trigger] old(geometry).has_room(r) ==> final(geometry).has_room(r),
        forall|w: u64| #[trigger] old(geometry).has_wall(w) ==> final(geometry).has_wall(w),
        final(geometry).num_rooms_spec() >= old(geometry).num_rooms_spec(),
        final(geometry).num_walls_spec() == old(geometry).num_walls_spec() + 2 * (
            final(geometry).num_rooms_spec() - old(geometry).num_rooms_spec()),
        forall|k: u64|
            #[trigger] final(processed_to_source_rooms).view().dom().contains(k) <==> (
                old(processed_to_source_rooms).view().dom().contains(k) || (final(geometry).has_room(k)
                    && !old(geometry).has_room(k))),
        forall|k: u64|
            #[trigger] old(processed_to_source_rooms).view().dom().contains(k) ==> final(processed_to_source_rooms).view()[k] == old(processed_to_source_rooms).view()[k],
        forall|k: u64|
            #[trigger] final(processed_to_source_rooms).view().dom().contains(k) && !old(processed_to_source_rooms).view().dom().contains(k) ==> exists|r0: u64|
                old(geometry).has_room(r0) && #[trigger] origin(old(processed_to_source_rooms).view(), r0)
                    == final(processed_to_source_rooms).view()[k],
        res is Ok ==> final(geometry).all_rooms_convex(),
        res matches Err(e) ==> e == GeometryError::StepLimit || (e matches GeometryError::FullyConcave(w)
            && final(geometry).has_wall(w.key()) && final(geometry).concave_after(w.key())) || (
        e matches GeometryError::Concave(a, b) && final(geometry).has_wall(a.key()) && final(geometry).concave_after(a.key()) && b == final(geometry).wall(a.key()).next_wall),
        old(geometry).all_rooms_convex() ==> res is Ok && *final(geometry) == *old(geometry) && final(processed_to_source_rooms).view() == old(processed_to_source_rooms).view(),
        res == Err::<(), GeometryError>(GeometryError::StepLimit) ==> old(geometry).num_walls_spec() + 2 * (
        final(geometry).num_rooms_spec() - old(geometry).num_rooms_spec()) > 1000,
        res matches Err(e) ==> (e matches GeometryError::FullyConcave(w) ==> final(geometry).cut_never_blocked(w.key())),
        forall|w: u64|
            #[trigger] old(geometry).has_wall(w) ==> origin(final(processed_to_source_rooms).view(), final(geometry).room_of(w))
                == origin(old(processed_to_source_rooms).view(), old(geometry).room_of(w)),
        forall|sw: u64, k: int|
            last_concave_wall(*old(geometry), sw) && #[trigger] old(geometry).cut_blocked_at(sw, k)
                ==> final(geometry).num_rooms_spec() > old(geometry).num_rooms_spec(),
        (res is Ok || (res matches Err(GeometryError::Concave(_, _)))) ==> final(geometry).all_rooms_settled(),
{
    let ghost g0 = *old(geometry);
    let ghost m0 = old(processed_to_source_rooms).view();
    let walls = geometry.wall_ids();
    proof {
        g0.lemma_wf_basics();
        lemma_distinct_len(walls@.map_values(|w: WallId| w.key()), g0.wall_map().dom());
    }
    let mut wall_queue = key_stack_new();
    let mut i: usize = 0;
    while i < walls.len()
        invariant
            *geometry == g0,
            g0.wf(),
            0 <= i <= walls.len(),
            forall|j: int| 0 <= j < walls@.len() ==> g0.has_wall(#[trigger] walls@[j].key()),
            key_stack(wall_queue).len() <= i,
            forall|j: int|
                0 <= j < key_stack(wall_queue).len() ==> g0.has_wall(#[trigger] key_stack(wall_queue)[j])
                    && g0.concave_after(key_stack(wall_queue)[j]),
            g0.all_rooms_convex() ==> key_stack(wall_queue).len() == 0,
            key_stack(wall_queue).len() > 0 ==> exists|j: int|
                0 <= j < i && #[trigger] walls@[j].key() == key_stack(wall_queue).last() && g0.concave_after(walls@[j].key())
                    && forall|j2: int| j < j2 < i ==> !g0.concave_after(#[trigger] walls@[j2].key()),
            forall|j: int| 0 <= j < i && g0.concave_after(#[trigger] walls@[j].key()) ==> key_stack(wall_queue).len() > 0,
            forall|j: int| 0 <= j < i && g0.concave_after(#[trigger] walls@[j].key()) ==> key_stack(wall_queue).contains(
                walls@[j].key(),
            ),
        decreases walls.len() - i,
    {
        let ghost q = key_stack(wall_queue);
        if is_next_vertex_concave(geometry, walls[i]) {
            proof {
                lemma_concave_wall(g0, walls@[i as int].key());
            }
            key_stack_push(&mut wall_queue, walls[i].raw());
            proof {
                assert(key_stack(wall_queue).last() == walls@[i as int].key());
                let q2 = key_stack(wall_queue);
                assert forall|j: int| 0 <= j < i + 1 && g0.concave_after(#[trigger] walls@[j].key()) implies q2.contains(
                    walls@[j].key(),
                ) by {
                    if j < i {
                        let x = choose|x: int| 0 <= x < q.len() && q[x] == walls@[j].key();
                        assert(q2[x] == q[x]);
                    } else {
                        assert(q2[q.len() as int] == walls@[j].key());
                    }
                }
            }
        } else {
            proof {
                if q.len() > 0 {
                    let j = choose|j: int|
                        0 <= j < i && #[trigger] walls@[j].key() == q.last() && g0.concave_after(walls@[j].key())
                            && forall|j2: int| j < j2 < i ==> !g0.concave_after(#[trigger] walls@[j2].key());
                    assert forall|j2: int| j < j2 < i + 1 implies !g0.concave_after(#[trigger] walls@[j2].key()) by {
                        if j2 < i {
                        }
                    }
                }
            }
        }
        i = i + 1;
    }
    let ghost q_init = key_stack(wall_queue);
    proof {
        assert forall|r: u64| #[trigger] g0.has_room(r) implies g0.room_settled(r) || exists|j: int|
            0 <= j < q_init.len() && g0.room_of(#[trigger] q_init[j]) == r by {
            g0.lemma_room_ok(r);
            let fw = g0.room_loop(r)[0];
            assert(g0.has_wall(fw) && g0.room_of(fw) == r);
            g0.lemma_loop_from(fw);
            let u = g0.loop_from(fw);
            if exists|i2: int| 0 <= i2 < u.len() && g0.concave_after(#[trigger] u[i2]) {
                let i2 = choose|i2: int| 0 <= i2 < u.len() && g0.concave_after(#[trigger] u[i2]);
                assert(g0.has_wall(u[i2]) && g0.room_of(u[i2]) == r);
                let jw = choose|jw: int| 0 <= jw < walls@.len() && #[trigger] walls@[jw].key() == u[i2];
                assert(q_init.contains(walls@[jw].key()));
                let x = choose|x: int| 0 <= x < q_init.len() && q_init[x] == u[i2];
                assert(g0.room_of(q_init[x]) == r);
            } else {
                assert(g0.cut_settled_from(fw));
            }
        }
        assert(rooms_covered(g0, q_init));
    }
    proof {
        assert forall|sw: u64, k: int| last_concave_wall(g0, sw) && #[trigger] g0.cut_blocked_at(sw, k) implies q_init.len() > 0
            && q_init.last() == sw by {
            let js = choose|j: int| 0 <= j < walls@.len() && #[trigger] walls@[j].key() == sw;
            assert(g0.concave_after(walls@[js].key()));
            let j = choose|j: int|
                0 <= j < walls@.len() && #[trigger] walls@[j].key() == q_init.last() && g0.concave_after(walls@[j].key())
                    && forall|j2: int| j < j2 < walls@.len() ==> !g0.concave_after(#[trigger] walls@[j2].key());
            assert(g0.has_wall(walls@[j].key()));
            if js < j {
                assert(slot_index(walls@[js].key()) < slot_index(walls@[j].key()));
            }
        }
    }
    let mut loop_guard: u32 = 1000;
    let ghost mut started = false;
    loop
        invariant
            !started ==> *geometry == g0 && key_stack(wall_queue) == q_init && loop_guard == 1000
                && processed_to_source_rooms.view() == m0,
            forall|sw: u64, k: int|
                last_concave_wall(g0, sw) && #[trigger] g0.cut_blocked_at(sw, k) ==> q_init.len() > 0 && q_init.last() == sw,
            started ==> forall|sw: u64, k: int|
                last_concave_wall(g0, sw) && #[trigger] g0.cut_blocked_at(sw, k) ==> geometry.num_rooms_spec() > g0.num_rooms_spec(),
            g0.wf(),
            g0 == *old(geometry),
            geometry.wf(),
            m0 == old(processed_to_source_rooms).view(),
            geometry.vertex_map() == g0.vertex_map(),
            forall|r: u64| #[trigger] g0.has_room(r) ==> geometry.has_room(r),
            forall|w: u64| #[trigger] g0.has_wall(w) ==> geometry.has_wall(w),
            geometry.num_rooms_spec() >= g0.num_rooms_spec(),
            geometry.num_walls_spec() == g0.num_walls_spec() + 2 * (geometry.num_rooms_spec() - g0.num_rooms_spec()),
            geometry.num_rooms_spec() - g0.num_rooms_spec() + loop_guard <= 1000,
            g0.num_walls_spec() + 2000 < MAX_SLOT_COUNT,
            g0.num_rooms_spec() + 1000 < MAX_SLOT_COUNT,
            forall|k: u64| #[trigger] m0.dom().contains(k) ==> g0.has_room(k),
            forall|k: u64| #[trigger] processed_to_source_rooms.view().dom().contains(k) ==> geometry.has_room(k),
            forall|k: u64|
                #[trigger] processed_to_source_rooms.view().dom().contains(k) <==> (m0.dom().contains(k) || (
                    geometry.has_room(k) && !g0.has_room(k))),
            forall|k: u64| #[trigger] m0.dom().contains(k) ==> processed_to_source_rooms.view()[k] == m0[k],
            forall|k: u64|
                #[trigger] processed_to_source_rooms.view().dom().contains(k) && !m0.dom().contains(k) ==> exists|r0: u64|
                    g0.has_room(r0) && #[trigger] origin(m0, r0) == processed_to_source_rooms.view()[k],
            forall|j: int| 0 <= j < key_stack(wall_queue).len() ==> geometry.has_wall(#[trigger] key_stack(wall_queue)[j]),
            key_stack(wall_queue).len() <= geometry.num_walls_spec(),
            g0.all_rooms_convex() ==> key_stack(wall_queue).len() == 0 && *geometry == g0
                && processed_to_source_rooms.view() == m0,
            loop_guard <= 1000,
            key_stack(wall_queue).len() + (1000 - loop_guard) <= g0.num_walls_spec() + 2 * (geometry.num_rooms_spec()
                - g0.num_rooms_spec()),
            forall|w: u64|
                #[trigger] g0.has_wall(w) ==> origin(processed_to_source_rooms.view(), geometry.room_of(w)) == origin(
                    m0,
                    g0.room_of(w),
                ),
            rooms_covered(*geometry, key_stack(wall_queue)),
        ensures
            geometry.all_rooms_settled(),
            geometry.wf(),
            geometry.vertex_map() == g0.vertex_map(),
            forall|r: u64| #[trigger] g0.has_room(r) ==> geometry.has_room(r),
            forall|w: u64| #[trigger] g0.has_wall(w) ==> geometry.has_wall(w),
            geometry.num_rooms_spec() >= g0.num_rooms_spec(),
            geometry.num_walls_spec() == g0.num_walls_spec() + 2 * (geometry.num_rooms_spec() - g0.num_rooms_spec()),
            forall|k: u64|
                #[trigger] processed_to_source_rooms.view().dom().contains(k) <==> (m0.dom().contains(k) || (
                    geometry.has_room(k) && !g0.has_room(k))),
            forall|k: u64| #[trigger] m0.dom().contains(k) ==> processed_to_source_rooms.view()[k] == m0[k],
            forall|k: u64|
                #[trigger] processed_to_source_rooms.view().dom().contains(k) && !m0.dom().contains(k) ==> exists|r0: u64|
                    g0.has_room(r0) && #[trigger] origin(m0, r0) == processed_to_source_rooms.view()[k],
            g0.all_rooms_convex() ==> *geometry == g0 && processed_to_source_rooms.view() == m0,
            forall|w: u64|
                #[trigger] g0.has_wall(w) ==> origin(processed_to_source_rooms.view(), geometry.room_of(w)) == origin(
                    m0,
                    g0.room_of(w),
                ),
            forall|sw: u64, k: int|
                last_concave_wall(g0, sw) && #[trigger] g0.cut_blocked_at(sw, k) ==> geometry.num_rooms_spec() > g0.num_rooms_spec(),
        decreases loop_guard,
    {
        let ghost q = key_stack(wall_queue);
        let popped = key_stack_pop(&mut wall_queue);
        let start_key = match popped {
            None => {
                proof {
                    assert forall|r: u64| #[trigger] geometry.has_room(r) implies geometry.room_settled(r) by {
                        assert(rooms_covered(*geometry, q));
                    }
                }
                break;
            },
            Some(k) => k,
        };
        match loop_guard.checked_sub(1) {
            Some(next) => loop_guard = next,
            None => return Err(GeometryError::StepLimit),
        }
        proof {
            assert(geometry.has_wall(q[q.len() - 1]));
            geometry.lemma_wf_basics();
        }
        let start_wall = WallId::from_key(start_key);
        let ghost g1 = *geometry;
        let ghost m1 = processed_to_source_rooms.view();
        proof {
            if !started {
                assert forall|sw: u64, k: int| last_concave_wall(g0, sw) && #[trigger] g0.cut_blocked_at(sw, k) implies start_key == sw
                    && g1.first_concave_at(g1.loop_from(start_key), 0) by {
                    g0.lemma_loop_from(sw);
                }
            }
        }
        let cut_result = cut_convex_piece(geometry, processed_to_source_rooms, start_wall);
        proof {
            assert(geometry.num_rooms_spec() >= g1.num_rooms_spec());
            if !started {
                assert forall|sw: u64, k: int| last_concave_wall(g0, sw) && #[trigger] g0.cut_blocked_at(sw, k) implies (
                cut_result matches Ok(Some(_)) && geometry.num_rooms_spec() > g0.num_rooms_spec()) by {
                    let u0 = g1.loop_from(start_key);
                    assert(q_init.len() > 0 && q_init.last() == sw);
                    assert(q == q_init);
                    assert(start_key == sw);
                    g1.lemma_loop_from(start_key);
                    assert(g1.first_concave_at(u0, 0));
                    assert(u0[0] == sw);
                    assert(g1.cut_blocked_at(u0[0], k));
                }
            }
        }
        match cut_result {
            Err(e) => return Err(e),
            Ok(None) => {
                proof {
                    let q1 = key_stack(wall_queue);
                    assert forall|r: u64| #[trigger] geometry.has_room(r) implies geometry.room_settled(r) || exists|j: int|
                        0 <= j < q1.len() && geometry.room_of(#[trigger] q1[j]) == r by {
                        assert(rooms_covered(g1, q));
                        if !g1.room_settled(r) {
                            let j = choose|j: int| 0 <= j < q.len() && g1.room_of(#[trigger] q[j]) == r;
                            if j == q.len() - 1 {
                                assert(g1.has_wall(start_key) && g1.room_of(start_key) == r && g1.cut_settled_from(start_key));
                            } else {
                                assert(q1[j] == q[j]);
                            }
                        }
                    }
                }
            },
            Ok(Some(cut)) => {
                let ghost nr = geometry.room_of(cut.0.key());
                proof {
                    let m2 = processed_to_source_rooms.view();
                    assert forall|w: u64| #[trigger] g0.has_wall(w) implies origin(m2, geometry.room_of(w)) == origin(
                        m0,
                        g0.room_of(w),
                    ) by {
                        assert(g1.has_wall(w));
                        assert(origin(m1, g1.room_of(w)) == origin(m0, g0.room_of(w)));
                    }
                    g1.lemma_wall_ok(start_key);
                    let cr = g1.room_of(start_key);
                    assert(g1.has_room(cr));
                    assert forall|k: u64|
                        #[trigger] processed_to_source_rooms.view().dom().contains(k) && !m0.dom().contains(k) implies exists|r0: u64|
                            g0.has_room(r0) && #[trigger] origin(m0, r0) == processed_to_source_rooms.view()[k] by {
                        if k == nr {
                            if m1.dom().contains(cr) {
                                if m0.dom().contains(cr) {
                                    assert(origin(m0, cr) == processed_to_source_rooms.view()[k]);
                                } else {
                                    assert(m1.dom().contains(cr) && !m0.dom().contains(cr));
                                }
                            } else {
                                assert(g0.has_room(cr));
                                assert(origin(m0, cr) == processed_to_source_rooms.view()[k]);
                            }
                        } else {
                            assert(m1.dom().contains(k));
                        }
                    }
                }
                let ghost q1 = key_stack(wall_queue);
                key_stack_push(&mut wall_queue, cut.0.raw());
                key_stack_push(&mut wall_queue, cut.1.raw());
                proof {
                    let q2 = key_stack(wall_queue);
                    let cr = g1.room_of(start_key);
                    assert(q2[q1.len() as int] == cut.0.key());
                    assert(q2[q1.len() as int + 1] == cut.1.key());
                    assert forall|r: u64| #[trigger] geometry.has_room(r) implies geometry.room_settled(r) || exists|j: int|
                        0 <= j < q2.len() && geometry.room_of(#[trigger] q2[j]) == r by {
                        assert(rooms_covered(g1, q));
                        if r == nr {
                            assert(geometry.room_of(q2[q1.len() as int]) == r);
                        } else if r == cr {
                            assert(geometry.room_of(q2[q1.len() as int + 1]) == r);
                        } else {
                            assert(g1.has_room(r));
                            if g1.room_settled(r) {
                                lemma_settled_kept(*geometry, g1, cr, r);
                            } else {
                                let j = choose|j: int| 0 <= j < q.len() && g1.room_of(#[trigger] q[j]) == r;
                                assert(j != q.len() - 1);
                                assert(g1.has_wall(q[j]));
                                assert(q2[j] == q[j]);
                                assert(geometry.room_of(q2[j]) == r);
                            }
                        }
                    }
                }
            },
        }
        proof {
            started = true;
        }
    }
    match validate_geometry(geometry) {
        Ok(()) => Ok(()),
        Err(e) => Err(e),
    }
}

} // verus!
