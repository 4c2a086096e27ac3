//! Proofs that the edits of a world geometry keep it well-formed.
use vstd::prelude::*;
use crate::defs::{Color, RoomDef, Vec2i, VertexDef, WallDef};
use crate::geometry::{pred, split_wall_walls, succ, WorldGeometry};
use crate::ids::{is_key, slot_index, RoomId, VertexId, WallId};
use crate::slots::MAX_SLOT_COUNT;

verus! {

pub proof fn lemma_loop_insert(s: Seq<u64>, i: int, x: u64)
    requires
        0 <= i < s.len(),
    ensures
        ({
            let t = s.insert(i + 1, x);
            &&& t.len() == s.len() + 1
            &&& t[i + 1] == x
            &&& forall|j: int| 0 <= j <= i ==> #[trigger] t[j] == s[j]
            &&& forall|j: int| i + 1 < j < t.len() ==> #[trigger] t[j] == s[j - 1]
        }),
{
    s.insert_ensures(i + 1, x);
}

/// What a wall split changed, element by element.
pub open spec fn split_wall_facts(
    g: WorldGeometry,
    g0: WorldGeometry,
    c: u64,
    nk: u64,
    nw: u64,
    nv: u64,
    r: u64,
    t: Seq<u64>,
) -> bool {
    &&& forall|w: u64| #[trigger] g.has_wall(w) <==> (g0.has_wall(w) || w == nw)
    &&& forall|w: u64| g0.has_wall(w) && w != c && w != nk ==> #[trigger] g.wall(w) == g0.wall(w)
    &&& forall|v: u64| #[trigger] g.has_vertex(v) <==> (g0.has_vertex(v) || v == nv)
    &&& forall|v: u64| g0.has_vertex(v) ==> #[trigger] g.vertex(v) == g0.vertex(v)
    &&& g.room_map() == g0.room_map()
    &&& g.room_loops() == g0.room_loops().insert(r, t)
    &&& g0.has_wall(c)
    &&& nk == g0.next_of(c)
    &&& r == g0.room_of(c)
    &&& !g0.has_wall(nw)
    &&& !g0.has_vertex(nv)
    &&& is_key(nw)
    &&& is_key(nv)
    &&& g.wall(nw).source_vertex.key() == nv
    &&& g.wall(nw).next_wall.key() == nk
    &&& g.wall(nw).prev_wall.key() == c
    &&& g.wall(nw).room.key() == r
    &&& g.wall(nw).connected_wall is None
    &&& g.vertex(nv).outgoing_wall.key() == nw
    &&& g.wall(c).next_wall.key() == nw
    &&& g.wall(c).prev_wall.key() == (if c == nk { nw } else { g0.prev_of(c) })
    &&& g.wall(c).source_vertex == g0.wall(c).source_vertex
    &&& g.wall(c).room == g0.wall(c).room
    &&& g.wall(c).connected_wall == g0.wall(c).connected_wall
    &&& g.wall(nk).prev_wall.key() == nw
    &&& (c != nk ==> g.wall(nk).next_wall == g0.wall(nk).next_wall)
    &&& g.wall(nk).source_vertex == g0.wall(nk).source_vertex
    &&& g.wall(nk).room == g0.wall(nk).room
    &&& g.wall(nk).connected_wall == g0.wall(nk).connected_wall
}

pub proof fn lemma_split_wall_facts(
    g: WorldGeometry,
    g0: WorldGeometry,
    current_wall: WallId,
    new_wall: WallId,
    new_vertex: VertexId,
    position: Vec2i,
)
    requires
        g0.has_wall(current_wall.key()),
        !g0.has_wall(new_wall.key()),
        !g0.has_vertex(new_vertex.key()),
        is_key(new_wall.key()),
        is_key(new_vertex.key()),
        g.vertex_map() == g0.vertex_map().insert(
            new_vertex.key(),
            VertexDef { outgoing_wall: new_wall, position },
        ),
        g.wall_map() == split_wall_walls(g0.wall_map(), current_wall, new_wall, new_vertex),
        g.room_map() == g0.room_map(),
        g.room_loops() == g0.room_loops().insert(
            g0.room_of(current_wall.key()),
            g0.room_loop(g0.room_of(current_wall.key())).insert(
                g0.room_loop(g0.room_of(current_wall.key())).index_of(current_wall.key()) + 1,
                new_wall.key(),
            ),
        ),
        g0.has_wall(g0.next_of(current_wall.key())),
    ensures
        split_wall_facts(
            g,
            g0,
            current_wall.key(),
            g0.next_of(current_wall.key()),
            new_wall.key(),
            new_vertex.key(),
            g0.room_of(current_wall.key()),
            g0.room_loop(g0.room_of(current_wall.key())).insert(
                g0.room_loop(g0.room_of(current_wall.key())).index_of(current_wall.key()) + 1,
                new_wall.key(),
            ),
        ),
{
    assert forall|w: u64| #[trigger] g.has_wall(w) <==> (g0.has_wall(w) || w == new_wall.key()) by {}
    assert forall|v: u64| #[trigger] g.has_vertex(v) <==> (g0.has_vertex(v) || v == new_vertex.key()) by {}
}

#[verifier::rlimit(30)]
pub proof fn lemma_split_wall_keys(g: WorldGeometry, g0: WorldGeometry, c: u64, nk: u64, nw: u64, nv: u64, r: u64, t: Seq<u64>)
    requires
        split_wall_facts(g, g0, c, nk, nw, nv, r, t),
        g0.wf(),
        g0.num_vertices_spec() + 1 < MAX_SLOT_COUNT,
        g0.num_walls_spec() + 1 < MAX_SLOT_COUNT,
    ensures
        g.keys_wf(),
        g.num_walls_spec() == g0.num_walls_spec() + 1,
        g.num_vertices_spec() == g0.num_vertices_spec() + 1,
{
    reveal(WorldGeometry::keys_wf);
    assert forall|x: u64| g.wall_map().dom().contains(x) <==> g0.wall_map().dom().insert(nw).contains(x) by {
        assert(g.has_wall(x) <==> (g0.has_wall(x) || x == nw));
    }
    assert forall|x: u64| g.vertex_map().dom().contains(x) <==> g0.vertex_map().dom().insert(nv).contains(x) by {
        assert(g.has_vertex(x) <==> (g0.has_vertex(x) || x == nv));
    }
    assert(g.wall_map().dom() =~= g0.wall_map().dom().insert(nw));
    assert(g.vertex_map().dom() =~= g0.vertex_map().dom().insert(nv));
    assert forall|k: u64| #[trigger] g.has_wall(k) implies is_key(k) by {
        if k != nw {
            assert(g0.has_wall(k));
        }
    }
    assert forall|k: u64| #[trigger] g.has_vertex(k) implies is_key(k) by {
        if k != nv {
            assert(g0.has_vertex(k));
        }
    }
    assert forall|a: u64, b: u64|
        #[trigger] g.has_room(a) && #[trigger] g.has_room(b) && a != b implies slot_index(a)
            != slot_index(b) by {
        assert(g0.has_room(a) && g0.has_room(b));
    }
    assert forall|k: u64| #[trigger] g.has_room(k) implies is_key(k) by {
        assert(g0.has_room(k));
    }
    assert(g0.room_loops().dom().contains(r)) by {
        reveal(WorldGeometry::walls_wf);
        assert(g0.wall_ok(c));
    }
    assert(g.room_loops().dom() =~= g.room_map().dom());
}

#[verifier::rlimit(30)]
pub proof fn lemma_split_wall_walls(g: WorldGeometry, g0: WorldGeometry, c: u64, nk: u64, nw: u64, nv: u64, r: u64, t: Seq<u64>)
    requires
        split_wall_facts(g, g0, c, nk, nw, nv, r, t),
        g0.wf(),
        ({
            let s = g0.room_loop(r);
            let i = s.index_of(c);
            &&& 0 <= i < s.len()
            &&& s[i] == c
            &&& t == s.insert(i + 1, nw)
        }),
    ensures
        g.walls_wf(),
{
    reveal(WorldGeometry::walls_wf);
    let s = g0.room_loop(r);
    let i = s.index_of(c);
    lemma_loop_insert(s, i, nw);
    assert(g0.wall_ok(c));
    assert(g0.wall_ok(nk));
    assert(g.room_loop(r) == t);
    assert forall|w: u64| #[trigger] g.has_wall(w) implies g.wall_ok(w) by {
        if w == nw {
            assert(t[i + 1] == nw);
        } else {
            assert(g0.has_wall(w));
            assert(g0.wall_ok(w));
            let dw = g0.wall(w);
            let wn = dw.next_wall.key();
            let wp = dw.prev_wall.key();
            assert(g0.wall_ok(wn));
            assert(g0.wall_ok(wp));
            if w != c && w != nk {
                assert(wn != nk) by {
                    if wn == nk {
                        assert(g0.prev_of(nk) == c);
                    }
                }
                assert(wp != c) by {
                    if wp == c {
                        assert(g0.next_of(c) == nk);
                    }
                }
            } else if w == c {
                if c != nk {
                    assert(wp != c);
                }
            } else {
                assert(wn != nk) by {
                    if wn == nk {
                        assert(g0.prev_of(nk) == c);
                    }
                }
            }
            let wr = dw.room.key();
            assert(g0.room_loop(wr).contains(w));
            if wr == r {
                let k = choose|k: int| 0 <= k < s.len() && s[k] == w;
                if k <= i {
                    assert(t[k] == w);
                } else {
                    assert(t[k + 1] == w);
                }
            }
            if let Some(tw) = dw.connected_wall {
                assert(g0.has_wall(tw.key()));
                assert(g0.wall_ok(tw.key()));
            }
        }
    }
}

#[verifier::rlimit(30)]
pub proof fn lemma_split_wall_rooms(g: WorldGeometry, g0: WorldGeometry, c: u64, nk: u64, nw: u64, nv: u64, r: u64, t: Seq<u64>)
    requires
        split_wall_facts(g, g0, c, nk, nw, nv, r, t),
        g0.wf(),
        ({
            let s = g0.room_loop(r);
            let i = s.index_of(c);
            &&& 0 <= i < s.len()
            &&& s[i] == c
            &&& t == s.insert(i + 1, nw)
        }),
    ensures
        g.rooms_wf(),
{
    reveal(WorldGeometry::rooms_wf);
    let s = g0.room_loop(r);
    let i = s.index_of(c);
    let n = s.len() as int;
    lemma_loop_insert(s, i, nw);
    assert(g0.room_ok(r)) by {
        reveal(WorldGeometry::walls_wf);
        assert(g0.wall_ok(c));
    }
    assert(s[succ(i, n)] == nk);
    assert forall|rr: u64| #[trigger] g.has_room(rr) implies g.room_ok(rr) by {
        assert(g0.has_room(rr));
        assert(g0.room_ok(rr));
        if rr == r {
            assert(t.no_duplicates()) by {
                assert forall|a: int, b: int| 0 <= a < t.len() && 0 <= b < t.len() && a != b implies t[a] != t[b] by {
                    if a != i + 1 && b != i + 1 {
                        let sa = if a <= i { a } else { a - 1 };
                        let sb = if b <= i { b } else { b - 1 };
                        assert(t[a] == s[sa]);
                        assert(t[b] == s[sb]);
                    } else if a == i + 1 {
                        let sb = if b <= i { b } else { b - 1 };
                        assert(t[b] == s[sb]);
                        assert(g0.has_wall(s[sb]));
                    } else {
                        let sa = if a <= i { a } else { a - 1 };
                        assert(t[a] == s[sa]);
                        assert(g0.has_wall(s[sa]));
                    }
                }
            }
            assert forall|j: int| 0 <= j < t.len() implies {
                &&& g.has_wall(#[trigger] t[j])
                &&& g.room_of(t[j]) == rr
                &&& g.next_of(t[j]) == t[succ(j, t.len() as int)]
            } by {
                if j < i {
                    assert(t[j] == s[j]);
                    assert(t[j + 1] == s[j + 1]);
                    assert(g0.next_of(s[j]) == s[j + 1]);
                    assert(s[j] != c);
                } else if j == i {
                } else if j == i + 1 {
                    if i + 1 < n {
                        assert(t[i + 2] == s[i + 1]);
                    } else {
                        assert(t[0] == s[0]);
                    }
                } else {
                    let sj = j - 1;
                    assert(t[j] == s[sj]);
                    assert(s[sj] != c);
                    assert(g0.next_of(s[sj]) == s[succ(sj, n)]);
                    if j + 1 < t.len() {
                        assert(t[j + 1] == s[j]);
                    } else {
                        assert(t[0] == s[0]);
                    }
                }
            }
        } else {
            let sr = g0.room_loop(rr);
            assert forall|j: int| 0 <= j < sr.len() implies {
                &&& g.has_wall(#[trigger] sr[j])
                &&& g.room_of(sr[j]) == rr
                &&& g.next_of(sr[j]) == sr[succ(j, sr.len() as int)]
            } by {
                assert(g0.has_wall(sr[j]));
                assert(g0.room_of(sr[j]) == rr);
                assert(sr[j] != c && sr[j] != nk);
            }
        }
    }
}

#[verifier::rlimit(30)]
pub proof fn lemma_split_wall_vertices(g: WorldGeometry, g0: WorldGeometry, c: u64, nk: u64, nw: u64, nv: u64, r: u64, t: Seq<u64>)
    requires
        split_wall_facts(g, g0, c, nk, nw, nv, r, t),
        g0.wf(),
    ensures
        g.vertices_wf(),
{
    reveal(WorldGeometry::vertices_wf);
    assert forall|v: u64| #[trigger] g.has_vertex(v) implies g.vertex_ok(v) by {
        if v != nv {
            assert(g0.vertex_ok(v));
            let o = g0.vertex(v).outgoing_wall.key();
            assert(g0.has_wall(o)) ;
            assert(g.has_wall(o));
        }
    }
}

/// Facts about a wall and vertex freshly made for a room.
pub open spec fn new_wall_facts(
    nw: Map<u64, WallDef>,
    nv: Map<u64, VertexDef>,
    w: u64,
    v: u64,
    room: u64,
    position: Vec2i,
) -> bool {
    &&& is_key(w)
    &&& is_key(v)
    &&& nw.dom().contains(w)
    &&& nv.dom().contains(v)
    &&& nw[w].source_vertex.key() == v
    &&& nw[w].room.key() == room
    &&& nw[w].connected_wall is None
    &&& nw[w].color == Color::white_spec()
    &&& nw[w].vertical_offset == 0
    &&& nw[w].horizontal_offset == 0
    &&& nv[v].outgoing_wall.key() == w
    &&& nv[v].position == position
}

pub proof fn lemma_union_len(a: Set<u64>, s: Seq<u64>)
    requires
        a.finite(),
        s.no_duplicates(),
        a.disjoint(s.to_set()),
    ensures
        (a + s.to_set()).len() == a.len() + s.len(),
        (a + s.to_set()).finite(),
{
    s.unique_seq_to_set();
    vstd::set_lib::lemma_set_disjoint_lens(a, s.to_set());
}

pub proof fn lemma_push_fresh(s: Seq<u64>, k: u64)
    requires
        s.no_duplicates(),
        !s.contains(k),
    ensures
        s.push(k).no_duplicates(),
        s.push(k).to_set() == s.to_set().insert(k),
{
    assert(s.push(k).to_set() =~= s.to_set().insert(k)) by {
        assert forall|x: u64| s.push(k).to_set().contains(x) <==> s.to_set().insert(k).contains(x) by {
            if s.push(k).contains(x) && x != k {
                let j = choose|j: int| 0 <= j < s.push(k).len() && s.push(k)[j] == x;
                assert(s[j] == x);
            }
            if s.contains(x) {
                let j = choose|j: int| 0 <= j < s.len() && s[j] == x;
                assert(s.push(k)[j] == x);
            }
            if x == k {
                assert(s.push(k)[s.len() as int] == x);
            }
        }
    }
}

/// The insertion of a new room leaves a well-formed geometry.
#[verifier::rlimit(40)]
pub proof fn lemma_insert_room_wf(
    g: WorldGeometry,
    g0: WorldGeometry,
    room_key: u64,
    room_def: RoomDef,
    nw: Map<u64, WallDef>,
    nv: Map<u64, VertexDef>,
    wall_keys: Seq<u64>,
    vertex_keys: Seq<u64>,
    positions: Seq<Vec2i>,
)
    requires
        g0.wf(),
        is_key(room_key),
        !g0.has_room(room_key),
        forall|j: u64| #[trigger] g0.room_map().dom().contains(j) ==> slot_index(j) != slot_index(room_key),
        g.room_map() == g0.room_map().insert(room_key, room_def),
        room_def.first_wall.key() == wall_keys[0],
        g.room_loops() == g0.room_loops().insert(room_key, wall_keys),
        g.wall_map() == g0.wall_map().union_prefer_right(nw),
        g.vertex_map() == g0.vertex_map().union_prefer_right(nv),
        nw.dom() == wall_keys.to_set(),
        nv.dom() == vertex_keys.to_set(),
        nw.dom().disjoint(g0.wall_map().dom()),
        nv.dom().disjoint(g0.vertex_map().dom()),
        wall_keys.len() > 0,
        wall_keys.len() == vertex_keys.len(),
        wall_keys.len() == positions.len(),
        wall_keys.no_duplicates(),
        g.vertex_map().len() < MAX_SLOT_COUNT,
        g.wall_map().len() < MAX_SLOT_COUNT,
        g.room_map().len() < MAX_SLOT_COUNT,
        forall|j: int| 0 <= j < wall_keys.len() ==> new_wall_facts(nw, nv, #[trigger] wall_keys[j], vertex_keys[j], room_key, positions[j]),
        forall|j: int|
            0 <= j < wall_keys.len() ==> {
                &&& nw[#[trigger] wall_keys[j]].next_wall.key() == wall_keys[succ(j, wall_keys.len() as int)]
                &&& nw[wall_keys[j]].prev_wall.key() == wall_keys[pred(j, wall_keys.len() as int)]
            },
    ensures
        g.wf(),
        g.extends(&g0),
{
    let n = wall_keys.len() as int;
    reveal(WorldGeometry::keys_wf);
    reveal(WorldGeometry::walls_wf);
    reveal(WorldGeometry::rooms_wf);
    reveal(WorldGeometry::vertices_wf);
    assert(g.wall_map().dom() =~= g0.wall_map().dom().union(nw.dom()));
    assert(g.vertex_map().dom() =~= g0.vertex_map().dom().union(nv.dom()));
    assert forall|w: u64| #[trigger] g0.has_wall(w) implies g.has_wall(w) && g.wall(w) == g0.wall(w) by {
        assert(!nw.dom().contains(w));
    }
    assert forall|v: u64| #[trigger] g0.has_vertex(v) implies g.has_vertex(v) && g.vertex(v) == g0.vertex(v) by {
        assert(!nv.dom().contains(v));
    }
    assert forall|w: u64| #[trigger] nw.dom().contains(w) implies exists|j: int| 0 <= j < n && #[trigger] wall_keys[j] == w by {
        assert(wall_keys.to_set().contains(w));
    }
    assert forall|v: u64| #[trigger] nv.dom().contains(v) implies exists|j: int| 0 <= j < n && #[trigger] vertex_keys[j] == v by {
        assert(vertex_keys.to_set().contains(v));
    }
    assert(g.keys_wf()) by {
        assert forall|a: u64, b: u64|
            #[trigger] g.has_room(a) && #[trigger] g.has_room(b) && a != b implies slot_index(a)
                != slot_index(b) by {
            if a != room_key && b != room_key {
                assert(g0.has_room(a) && g0.has_room(b));
            } else if a == room_key {
                assert(g0.room_map().dom().contains(b));
            } else {
                assert(g0.room_map().dom().contains(a));
            }
        }
        assert forall|k: u64| #[trigger] g.has_wall(k) implies is_key(k) by {
            if g0.has_wall(k) {
                assert(is_key(k));
            } else {
                let j = choose|j: int| 0 <= j < n && #[trigger] wall_keys[j] == k;
                assert(new_wall_facts(nw, nv, wall_keys[j], vertex_keys[j], room_key, positions[j]));
            }
        }
        assert forall|k: u64| #[trigger] g.has_vertex(k) implies is_key(k) by {
            if g0.has_vertex(k) {
                assert(is_key(k));
            } else {
                let j = choose|j: int| 0 <= j < n && #[trigger] vertex_keys[j] == k;
                assert(new_wall_facts(nw, nv, wall_keys[j], vertex_keys[j], room_key, positions[j]));
            }
        }
        assert forall|k: u64| #[trigger] g.has_room(k) implies is_key(k) by {
            if k != room_key {
                assert(g0.has_room(k));
            }
        }
        assert(g.room_loops().dom() =~= g.room_map().dom());
    }
    assert(g.walls_wf()) by {
        assert forall|w: u64| #[trigger] g.has_wall(w) implies g.wall_ok(w) by {
            if g0.has_wall(w) {
                assert(g0.wall_ok(w));
                let d = g0.wall(w);
                assert(g0.has_wall(d.next_wall.key()));
                assert(g0.has_wall(d.prev_wall.key()));
                assert(g0.has_room(d.room.key()));
                assert(g0.has_vertex(d.source_vertex.key()));
                if let Some(t) = d.connected_wall {
                    assert(g0.has_wall(t.key()));
                }
            } else {
                let j = choose|j: int| 0 <= j < n && #[trigger] wall_keys[j] == w;
                assert(new_wall_facts(nw, nv, wall_keys[j], vertex_keys[j], room_key, positions[j]));
                let nj = succ(j, n);
                let pj = pred(j, n);
                assert(new_wall_facts(nw, nv, wall_keys[nj], vertex_keys[nj], room_key, positions[nj]));
                assert(new_wall_facts(nw, nv, wall_keys[pj], vertex_keys[pj], room_key, positions[pj]));
                assert(pred(nj, n) == j);
                assert(succ(pj, n) == j);
                assert(nw[wall_keys[nj]].prev_wall.key() == wall_keys[pred(nj, n)]);
                assert(nw[wall_keys[pj]].next_wall.key() == wall_keys[succ(pj, n)]);
                assert(g.room_loop(room_key)[j] == w);
            }
        }
    }
    assert(g.rooms_wf()) by {
        assert forall|r: u64| #[trigger] g.has_room(r) implies g.room_ok(r) by {
            if r == room_key {
                let s = g.room_loop(r);
                assert forall|i: int| 0 <= i < s.len() implies {
                    &&& g.has_wall(#[trigger] s[i])
                    &&& g.room_of(s[i]) == r
                    &&& g.next_of(s[i]) == s[succ(i, s.len() as int)]
                } by {
                    assert(new_wall_facts(nw, nv, wall_keys[i], vertex_keys[i], room_key, positions[i]));
                }
            } else {
                assert(g0.has_room(r));
                assert(g0.room_ok(r));
                let s = g0.room_loop(r);
                assert forall|i: int| 0 <= i < s.len() implies {
                    &&& g.has_wall(#[trigger] s[i])
                    &&& g.room_of(s[i]) == r
                    &&& g.next_of(s[i]) == s[succ(i, s.len() as int)]
                } by {
                    assert(g0.has_wall(s[i]));
                    assert(g0.has_wall(s[succ(i, s.len() as int)]));
                }
            }
        }
    }
    assert(g.vertices_wf()) by {
        assert forall|v: u64| #[trigger] g.has_vertex(v) implies g.vertex_ok(v) by {
            if g0.has_vertex(v) {
                assert(g0.vertex_ok(v));
                assert(g0.has_wall(g0.vertex(v).outgoing_wall.key()));
            } else {
                let j = choose|j: int| 0 <= j < n && #[trigger] vertex_keys[j] == v;
                assert(new_wall_facts(nw, nv, wall_keys[j], vertex_keys[j], room_key, positions[j]));
            }
        }
    }
}

/// `g` has the layout of `g0`: the same elements, loops and links; only
/// positions, colors, heights, offsets and connections may differ.
pub open spec fn same_layout(g: WorldGeometry, g0: WorldGeometry) -> bool {
    &&& g.vertex_map().dom() == g0.vertex_map().dom()
    &&& g.wall_map().dom() == g0.wall_map().dom()
    &&& g.room_map().dom() == g0.room_map().dom()
    &&& g.room_loops() == g0.room_loops()
    &&& forall|v: u64| #[trigger] g0.has_vertex(v) ==> g.vertex(v).outgoing_wall == g0.vertex(v).outgoing_wall
    &&& forall|r: u64| #[trigger] g0.has_room(r) ==> g.room(r).first_wall == g0.room(r).first_wall
    &&& forall|w: u64|
        #[trigger] g0.has_wall(w) ==> {
            &&& g.wall(w).source_vertex == g0.wall(w).source_vertex
            &&& g.wall(w).next_wall == g0.wall(w).next_wall
            &&& g.wall(w).prev_wall == g0.wall(w).prev_wall
            &&& g.wall(w).room == g0.wall(w).room
        }
}

/// Every connection of `g` is to another existing wall, which is connected back.
pub open spec fn connections_ok(g: WorldGeometry) -> bool {
    forall|w: u64|
        #[trigger] g.has_wall(w) ==> (g.wall(w).connected_wall matches Some(t) ==> {
            &&& g.has_wall(t.key())
            &&& t.key() != w
            &&& g.wall(t.key()).connected_wall matches Some(u)
            &&& u.key() == w
        })
}

pub proof fn lemma_wf_connections(g: WorldGeometry)
    requires
        g.wf(),
    ensures
        connections_ok(g),
{
    reveal(WorldGeometry::walls_wf);
    assert forall|w: u64| #[trigger] g.has_wall(w) implies (g.wall(w).connected_wall matches Some(t) ==> {
            &&& g.has_wall(t.key())
            &&& t.key() != w
            &&& g.wall(t.key()).connected_wall matches Some(u)
            &&& u.key() == w
        }) by {
        assert(g.wall_ok(w));
    }
}

/// Keeping the layout and keeping connections symmetric keeps a geometry well-formed.
#[verifier::rlimit(30)]
pub proof fn lemma_same_layout_wf(g: WorldGeometry, g0: WorldGeometry)
    requires
        g0.wf(),
        same_layout(g, g0),
        connections_ok(g),
    ensures
        g.wf(),
        g.num_walls_spec() == g0.num_walls_spec(),
        g.num_vertices_spec() == g0.num_vertices_spec(),
        g.num_rooms_spec() == g0.num_rooms_spec(),
{
    reveal(WorldGeometry::keys_wf);
    reveal(WorldGeometry::walls_wf);
    reveal(WorldGeometry::rooms_wf);
    reveal(WorldGeometry::vertices_wf);
    assert(g.keys_wf()) by {
        assert forall|a: u64, b: u64|
            #[trigger] g.has_room(a) && #[trigger] g.has_room(b) && a != b implies slot_index(a)
                != slot_index(b) by {
            assert(g0.has_room(a) && g0.has_room(b));
        }
        assert forall|k: u64| #[trigger] g.has_wall(k) implies is_key(k) by {
            assert(g0.has_wall(k));
        }
        assert forall|k: u64| #[trigger] g.has_vertex(k) implies is_key(k) by {
            assert(g0.has_vertex(k));
        }
        assert forall|k: u64| #[trigger] g.has_room(k) implies is_key(k) by {
            assert(g0.has_room(k));
        }
    }
    assert(g.walls_wf()) by {
        assert forall|w: u64| #[trigger] g.has_wall(w) implies g.wall_ok(w) by {
            assert(g0.has_wall(w));
            assert(g0.wall_ok(w));
            let d = g0.wall(w);
            assert(g0.has_wall(d.next_wall.key()));
            assert(g0.has_wall(d.prev_wall.key()));
        }
    }
    assert(g.rooms_wf()) by {
        assert forall|r: u64| #[trigger] g.has_room(r) implies g.room_ok(r) by {
            assert(g0.has_room(r));
            assert(g0.room_ok(r));
            let s = g0.room_loop(r);
            assert forall|i: int| 0 <= i < s.len() implies {
                &&& g.has_wall(#[trigger] s[i])
                &&& g.room_of(s[i]) == r
                &&& g.next_of(s[i]) == s[succ(i, s.len() as int)]
            } by {
                assert(g0.has_wall(s[i]));
            }
        }
    }
    assert(g.vertices_wf()) by {
        assert forall|v: u64| #[trigger] g.has_vertex(v) implies g.vertex_ok(v) by {
            assert(g0.has_vertex(v));
            assert(g0.vertex_ok(v));
            assert(g0.has_wall(g0.vertex(v).outgoing_wall.key()));
        }
    }
}

/// Where wall `x` is connected after `wall` is connected to `target`: `wall`
/// and `target` point at each other, and the walls they were connected to before
/// are left unconnected.
pub open spec fn connection_after(g0: WorldGeometry, wall: WallId, target: Option<WallId>, x: u64) -> Option<WallId> {
    if x == wall.key() {
        target
    } else if target matches Some(t) && x == t.key() {
        Some(wall)
    } else if g0.wall(x).connected_wall matches Some(y) && (y.key() == wall.key() || (target matches Some(t) && y.key() == t.key())) {
        None
    } else {
        g0.wall(x).connected_wall
    }
}

#[verifier::rlimit(30)]
pub proof fn lemma_connection_after_symmetric(g0: WorldGeometry, wall: WallId, target: Option<WallId>)
    requires
        g0.wf(),
        g0.has_wall(wall.key()),
        target matches Some(t) ==> g0.has_wall(t.key()) && t.key() != wall.key(),
    ensures
        forall|x: u64| #[trigger] g0.has_wall(x) ==> (connection_after(g0, wall, target, x) matches Some(y) ==> {
            &&& g0.has_wall(y.key())
            &&& y.key() != x
            &&& connection_after(g0, wall, target, y.key()) matches Some(u)
            &&& u.key() == x
        }),
{
    lemma_wf_connections(g0);
    let a = wall.key();
    assert forall|x: u64| #[trigger] g0.has_wall(x) implies (connection_after(g0, wall, target, x) matches Some(y) ==> {
            &&& g0.has_wall(y.key())
            &&& y.key() != x
            &&& connection_after(g0, wall, target, y.key()) matches Some(u)
            &&& u.key() == x
        }) by {
        if let Some(y) = connection_after(g0, wall, target, x) {
            if x == a {
            } else if target matches Some(t) && x == t.key() {
            } else {
                assert(g0.wall(x).connected_wall == Some(y));
                assert(g0.has_wall(y.key()));
                assert(g0.wall(y.key()).connected_wall matches Some(u) && u.key() == x);
                assert(y.key() != a);
                if let Some(t) = target {
                    assert(y.key() != t.key());
                }
                if let Some(o) = g0.wall(y.key()).connected_wall {
                    assert(o.key() == x);
                }
                if let Some(t) = target {
                    if y.key() == t.key() {
                        assert(false);
                    }
                }
                if g0.wall(y.key()).connected_wall matches Some(u) && u.key() == a {
                    assert(x == a);
                }
            }
        }
    }
}

/// `x` lies on the walls from `u[0]` to `u[e]`.
pub open spec fn in_arc(u: Seq<u64>, e: int, x: u64) -> bool {
    u.subrange(0, e + 1).contains(x)
}

/// The loop of a room split off from `u`: the new wall, then `u[0]` to `u[e]`.
pub open spec fn split_off_loop(u: Seq<u64>, e: int, new_wall: u64) -> Seq<u64> {
    seq![new_wall] + u.subrange(0, e + 1)
}

/// The loop left behind: the other new wall, then `u[e + 1]` to the end of `u`.
pub open spec fn left_loop(u: Seq<u64>, e: int, new_wall: u64) -> Seq<u64> {
    seq![new_wall] + u.subrange(e + 1, u.len() as int)
}

/// What splitting the room of wall `a` between `a` and `b` changed, element by
/// element. `u` is the room's loop starting at `a`, and `b` is `u[e]`; the new
/// room `nr` gets the walls `u[0..=e]` and the new wall `nwn`; the old room keeps
/// `u[e+1..]` and the new wall `nwc`; `nwn` and `nwc` are connected to each other.
pub open spec fn split_room_facts(
    g: WorldGeometry,
    g0: WorldGeometry,
    a: u64,
    b: u64,
    r: u64,
    nr: u64,
    nwn: u64,
    nwc: u64,
    u: Seq<u64>,
    e: int,
) -> bool {
    let n = u.len() as int;
    &&& 1 <= e <= n - 2
    &&& u == g0.loop_from(a)
    &&& u[e] == b
    &&& r == g0.room_of(a)
    &&& g0.has_wall(a)
    &&& !g0.has_wall(nwn)
    &&& !g0.has_wall(nwc)
    &&& nwn != nwc
    &&& is_key(nwn)
    &&& is_key(nwc)
    &&& is_key(nr)
    &&& !g0.has_room(nr)
    &&& forall|j: u64| #[trigger] g0.room_map().dom().contains(j) ==> slot_index(j) != slot_index(nr)
    &&& forall|x: u64| #[trigger] g.has_wall(x) <==> (g0.has_wall(x) || x == nwn || x == nwc)
    &&& forall|x: u64|
        #[trigger] g0.has_wall(x) ==> {
            &&& g.wall(x) == WallDef {
                next_wall: g.wall(x).next_wall,
                prev_wall: g.wall(x).prev_wall,
                room: g.wall(x).room,
                ..g0.wall(x)
            }
            &&& g.room_of(x) == if in_arc(u, e, x) {
                nr
            } else {
                g0.room_of(x)
            }
            &&& g.next_of(x) == if x == b {
                nwn
            } else if x == u[n - 1] {
                nwc
            } else {
                g0.next_of(x)
            }
            &&& g.prev_of(x) == if x == a {
                nwn
            } else if x == u[e + 1] {
                nwc
            } else {
                g0.prev_of(x)
            }
        }
    &&& g.wall(nwn).source_vertex == g0.wall(u[e + 1]).source_vertex
    &&& g.next_of(nwn) == a
    &&& g.prev_of(nwn) == b
    &&& g.room_of(nwn) == nr
    &&& g.wall(nwn).connected_wall matches Some(c) && c.key() == nwc
    &&& g.wall(nwc).source_vertex == g0.wall(a).source_vertex
    &&& g.next_of(nwc) == u[e + 1]
    &&& g.prev_of(nwc) == u[n - 1]
    &&& g.room_of(nwc) == r
    &&& g.wall(nwc).connected_wall matches Some(c) && c.key() == nwn
    &&& g.vertex_map() == g0.vertex_map()
    &&& g.room_map().dom() == g0.room_map().dom().insert(nr)
    &&& forall|rr: u64| #[trigger] g0.has_room(rr) && rr != r ==> g.room(rr) == g0.room(rr)
    &&& g.room(r).first_wall.key() == nwc
    &&& g.room(nr).first_wall.key() == nwn
    &&& g.room(r) == RoomDef { first_wall: g.room(r).first_wall, ..g0.room(r) }
    &&& g.room(nr) == RoomDef { first_wall: g.room(nr).first_wall, ..g0.room(r) }
    &&& g.room_loops() == g0.room_loops().insert(r, left_loop(u, e, nwc)).insert(nr, split_off_loop(u, e, nwn))
}

/// What linking in the two closing walls of a room split leaves behind, before
/// the walls of the split-off part are moved to the new room.
pub open spec fn split_link_facts(
    g: WorldGeometry,
    g0: WorldGeometry,
    a: u64,
    b: u64,
    r: u64,
    nr: u64,
    nwn: u64,
    nwc: u64,
    u: Seq<u64>,
    e: int,
) -> bool {
    let n = u.len() as int;
    &&& !g0.has_wall(nwn)
    &&& !g0.has_wall(nwc)
    &&& nwn != nwc
    &&& is_key(nwn)
    &&& is_key(nwc)
    &&& is_key(nr)
    &&& !g0.has_room(nr)
    &&& forall|j: u64| #[trigger] g0.room_map().dom().contains(j) ==> slot_index(j) != slot_index(nr)
    &&& forall|x: u64| #[trigger] g.has_wall(x) <==> (g0.has_wall(x) || x == nwn || x == nwc)
    &&& forall|x: u64|
        #[trigger] g0.has_wall(x) ==> {
            &&& g.wall(x) == WallDef {
                next_wall: g.wall(x).next_wall,
                prev_wall: g.wall(x).prev_wall,
                ..g0.wall(x)
            }
            &&& g.next_of(x) == if x == b {
                nwn
            } else if x == u[n - 1] {
                nwc
            } else {
                g0.next_of(x)
            }
            &&& g.prev_of(x) == if x == a {
                nwn
            } else if x == u[e + 1] {
                nwc
            } else {
                g0.prev_of(x)
            }
        }
    &&& g.wall(nwn).source_vertex == g0.wall(u[e + 1]).source_vertex
    &&& g.next_of(nwn) == a
    &&& g.prev_of(nwn) == b
    &&& g.room_of(nwn) == nr
    &&& g.wall(nwn).connected_wall is None
    &&& g.wall(nwc).source_vertex == g0.wall(a).source_vertex
    &&& g.next_of(nwc) == u[e + 1]
    &&& g.prev_of(nwc) == u[n - 1]
    &&& g.room_of(nwc) == r
    &&& g.wall(nwc).connected_wall is None
    &&& g.vertex_map() == g0.vertex_map()
    &&& g.room_loops() == g0.room_loops()
    &&& g.room_map().dom() == g0.room_map().dom().insert(nr)
    &&& forall|rr: u64| #[trigger] g0.has_room(rr) && rr != r ==> g.room(rr) == g0.room(rr)
    &&& g.room(r).first_wall.key() == nwc
    &&& g.room(nr).first_wall.key() == nwn
    &&& g.room(r) == RoomDef { first_wall: g.room(r).first_wall, ..g0.room(r) }
    &&& g.room(nr) == RoomDef { first_wall: g.room(nr).first_wall, ..g0.room(r) }
}

/// After the split-off walls have been moved to the new room and the two new
/// walls connected, everything [`split_room_facts`] lists holds.
#[verifier::rlimit(40)]
pub proof fn lemma_split_room_finish(
    g: WorldGeometry,
    g2: WorldGeometry,
    g1: WorldGeometry,
    g0: WorldGeometry,
    a: u64,
    b: u64,
    r: u64,
    new_room: RoomId,
    nw_new: WallId,
    nw_cur: WallId,
    u: Seq<u64>,
    e: int,
)
    requires
        g0.wf(),
        g0.has_wall(a),
        u == g0.loop_from(a),
        1 <= e <= u.len() - 2,
        u[e] == b,
        r == g0.room_of(a),
        split_link_facts(g1, g0, a, b, r, new_room.key(), nw_new.key(), nw_cur.key(), u, e),
        g2.same_but_walls(&g1),
        g2.wall_map().dom() == g1.wall_map().dom(),
        forall|j: int| 0 <= j <= e ==> #[trigger] g2.wall(u[j]) == (WallDef { room: new_room, ..g1.wall(u[j]) }),
        forall|x: u64| #[trigger] g1.has_wall(x) && !u.subrange(0, e + 1).contains(x) ==> g2.wall(x) == g1.wall(x),
        g.wall_map() == g2.wall_map().insert(
            nw_new.key(),
            WallDef { connected_wall: Some(nw_cur), ..g2.wall(nw_new.key()) },
        ).insert(nw_cur.key(), WallDef { connected_wall: Some(nw_new), ..g2.wall(nw_cur.key()) }),
        g.vertex_map() == g2.vertex_map(),
        g.room_map() == g2.room_map(),
        g.room_loops() == g0.room_loops().insert(r, left_loop(u, e, nw_cur.key())).insert(
            new_room.key(),
            split_off_loop(u, e, nw_new.key()),
        ),
    ensures
        split_room_facts(g, g0, a, b, r, new_room.key(), nw_new.key(), nw_cur.key(), u, e),
{
    let nr = new_room.key();
    let nwn = nw_new.key();
    let nwc = nw_cur.key();
    let n = u.len() as int;
    g0.lemma_loop_from(a);
    lemma_split_room_setup(g0, a, u, e);
    assert(!u.subrange(0, e + 1).contains(nwn)) by {
        if u.subrange(0, e + 1).contains(nwn) {
            let j = choose|j: int| 0 <= j < e + 1 && #[trigger] u.subrange(0, e + 1)[j] == nwn;
            assert(u[j] == nwn);
            assert(g0.has_wall(u[j]));
        }
    }
    assert(!u.subrange(0, e + 1).contains(nwc)) by {
        if u.subrange(0, e + 1).contains(nwc) {
            let j = choose|j: int| 0 <= j < e + 1 && #[trigger] u.subrange(0, e + 1)[j] == nwc;
            assert(u[j] == nwc);
            assert(g0.has_wall(u[j]));
        }
    }
    assert(g1.has_wall(nwn) && g1.has_wall(nwc));
    assert(g2.wall(nwn) == g1.wall(nwn));
    assert(g2.wall(nwc) == g1.wall(nwc));
    assert forall|x: u64| #[trigger] g.has_wall(x) <==> (g0.has_wall(x) || x == nwn || x == nwc) by {
        assert(g1.has_wall(x) <==> (g0.has_wall(x) || x == nwn || x == nwc));
    }
    assert forall|x: u64| #[trigger] g0.has_wall(x) implies {
        &&& g.wall(x) == (WallDef {
            next_wall: g.wall(x).next_wall,
            prev_wall: g.wall(x).prev_wall,
            room: g.wall(x).room,
            ..g0.wall(x)
        })
        &&& g.room_of(x) == if in_arc(u, e, x) {
            nr
        } else {
            g0.room_of(x)
        }
        &&& g.next_of(x) == if x == b {
            nwn
        } else if x == u[n - 1] {
            nwc
        } else {
            g0.next_of(x)
        }
        &&& g.prev_of(x) == if x == a {
            nwn
        } else if x == u[e + 1] {
            nwc
        } else {
            g0.prev_of(x)
        }
    } by {
        assert(g1.has_wall(x));
        assert(x != nwn && x != nwc);
        assert(g.wall(x) == g2.wall(x));
        if in_arc(u, e, x) {
            let j = choose|j: int| 0 <= j < e + 1 && #[trigger] u.subrange(0, e + 1)[j] == x;
            assert(u[j] == x);
            assert(g2.wall(u[j]) == (WallDef { room: new_room, ..g1.wall(u[j]) }));
        } else {
            assert(g2.wall(x) == g1.wall(x));
            assert(u.contains(x) ==> g0.room_of(x) == r);
        }
    }
    assert(g.room_map().dom() == g1.room_map().dom());
}

pub proof fn lemma_split_room_setup(g0: WorldGeometry, a: u64, u: Seq<u64>, e: int)
    requires
        g0.wf(),
        g0.has_wall(a),
        u == g0.loop_from(a),
        1 <= e <= u.len() - 2,
    ensures
        forall|x: u64| #[trigger] in_arc(u, e, x) ==> u.contains(x) && g0.room_of(x) == g0.room_of(a),
        forall|j: int| 0 <= j <= e ==> #[trigger] in_arc(u, e, u[j]),
        forall|j: int| e < j < u.len() ==> !#[trigger] in_arc(u, e, u[j]),
{
    g0.lemma_loop_from(a);
    let n = u.len() as int;
    assert forall|x: u64| #[trigger] in_arc(u, e, x) implies u.contains(x) && g0.room_of(x) == g0.room_of(a) by {
        let j = choose|j: int| 0 <= j < e + 1 && #[trigger] u.subrange(0, e + 1)[j] == x;
        assert(u[j] == x);
    }
    assert forall|j: int| 0 <= j <= e implies #[trigger] in_arc(u, e, u[j]) by {
        assert(u.subrange(0, e + 1)[j] == u[j]);
    }
    assert forall|j: int| e < j < n implies !#[trigger] in_arc(u, e, u[j]) by {
        if in_arc(u, e, u[j]) {
            let k = choose|k: int| 0 <= k < e + 1 && #[trigger] u.subrange(0, e + 1)[k] == u[j];
            assert(u[k] == u[j]);
        }
    }
}

#[verifier::rlimit(30)]
pub proof fn lemma_split_room_keys(g: WorldGeometry, g0: WorldGeometry, a: u64, b: u64, r: u64, nr: u64, nwn: u64, nwc: u64, u: Seq<u64>, e: int)
    requires
        split_room_facts(g, g0, a, b, r, nr, nwn, nwc, u, e),
        g0.wf(),
        g0.num_walls_spec() + 2 < MAX_SLOT_COUNT,
        g0.num_rooms_spec() + 1 < MAX_SLOT_COUNT,
    ensures
        g.keys_wf(),
        g.num_walls_spec() == g0.num_walls_spec() + 2,
        g.num_rooms_spec() == g0.num_rooms_spec() + 1,
        g.num_vertices_spec() == g0.num_vertices_spec(),
{
    reveal(WorldGeometry::keys_wf);
    g0.lemma_loop_from(a);
    assert forall|x: u64| g.wall_map().dom().contains(x) <==> g0.wall_map().dom().insert(nwn).insert(nwc).contains(x) by {
        assert(g.has_wall(x) <==> (g0.has_wall(x) || x == nwn || x == nwc));
    }
    assert(g.wall_map().dom() =~= g0.wall_map().dom().insert(nwn).insert(nwc));
    assert forall|k: u64| #[trigger] g.has_wall(k) implies is_key(k) by {
        if k != nwn && k != nwc {
            assert(g0.has_wall(k));
        }
    }
    assert forall|k: u64| #[trigger] g.has_vertex(k) implies is_key(k) by {
        assert(g0.has_vertex(k));
    }
    assert forall|k: u64| #[trigger] g.has_room(k) implies is_key(k) by {
        if k != nr {
            assert(g0.has_room(k));
        }
    }
    assert forall|x: u64, y: u64|
        #[trigger] g.has_room(x) && #[trigger] g.has_room(y) && x != y implies slot_index(x)
            != slot_index(y) by {
        if x != nr && y != nr {
            assert(g0.has_room(x) && g0.has_room(y));
        } else if x == nr {
            assert(g0.room_map().dom().contains(y));
        } else {
            assert(g0.room_map().dom().contains(x));
        }
    }
    assert(g.room_loops().dom() =~= g.room_map().dom());
}

#[verifier::rlimit(40)]
pub proof fn lemma_split_room_walls(g: WorldGeometry, g0: WorldGeometry, a: u64, b: u64, r: u64, nr: u64, nwn: u64, nwc: u64, u: Seq<u64>, e: int)
    requires
        split_room_facts(g, g0, a, b, r, nr, nwn, nwc, u, e),
        g0.wf(),
    ensures
        g.walls_wf(),
{
    g0.lemma_loop_from(a);
    lemma_split_room_setup(g0, a, u, e);
    lemma_wf_connections(g0);
    let n = u.len() as int;
    let t1 = split_off_loop(u, e, nwn);
    let t2 = left_loop(u, e, nwc);
    assert(u[0] == a);
    assert(g0.has_room(r));
    g0.lemma_wf_basics();
    assert(g0.room_loops().dom().contains(r));
    assert(g.room_loop(nr) == t1);
    assert(g.room_loop(r) == t2);
    assert(g0.prev_of(a) == u[n - 1]);
    assert(g0.next_of(b) == u[e + 1]);
    assert(g0.prev_of(u[e + 1]) == b);
    assert(g0.next_of(u[n - 1]) == a);
    assert(u[n - 1] != b);
    assert(u[e + 1] != a);
    reveal(WorldGeometry::walls_wf);
    assert forall|x: u64| #[trigger] g.has_wall(x) implies g.wall_ok(x) by {
        if x == nwn {
            assert(t1[0] == nwn);
            assert(g.has_wall(a) && g.has_wall(b));
            assert(g0.has_wall(u[e + 1]));
            assert(g0.wall_ok(u[e + 1]));
        } else if x == nwc {
            assert(t2[0] == nwc);
            assert(g0.has_wall(u[e + 1]) && g0.has_wall(u[n - 1]));
            assert(g0.wall_ok(a));
        } else {
            assert(g0.has_wall(x));
            assert(g0.wall_ok(x));
            let xn = g0.next_of(x);
            let xp = g0.prev_of(x);
            assert(g0.wall_ok(xn));
            assert(g0.wall_ok(xp));
            if x != b && x != u[n - 1] {
                assert(xn != a) by {
                    if xn == a {
                        assert(g0.prev_of(a) == x);
                    }
                }
                assert(xn != u[e + 1]) by {
                    if xn == u[e + 1] {
                        assert(g0.prev_of(u[e + 1]) == x);
                    }
                }
            }
            if x != a && x != u[e + 1] {
                assert(xp != b) by {
                    if xp == b {
                        assert(g0.next_of(b) == x);
                    }
                }
                assert(xp != u[n - 1]) by {
                    if xp == u[n - 1] {
                        assert(g0.next_of(u[n - 1]) == x);
                    }
                }
            }
            let xr = g0.room_of(x);
            assert(g0.room_loops().dom().contains(xr));
            assert(g0.room_loop(xr).contains(x));
            if in_arc(u, e, x) {
                let j = choose|j: int| 0 <= j < e + 1 && #[trigger] u.subrange(0, e + 1)[j] == x;
                assert(t1[j + 1] == x);
            } else if xr == r {
                assert(u.contains(x));
                let j = choose|j: int| 0 <= j < n && u[j] == x;
                if j <= e {
                    assert(in_arc(u, e, u[j]));
                }
                assert(t2[j - e] == x);
            }
            if let Some(tw) = g0.wall(x).connected_wall {
                assert(g0.has_wall(tw.key()));
            }
        }
    }
}

#[verifier::rlimit(80)]
pub proof fn lemma_split_room_rooms(g: WorldGeometry, g0: WorldGeometry, a: u64, b: u64, r: u64, nr: u64, nwn: u64, nwc: u64, u: Seq<u64>, e: int)
    requires
        split_room_facts(g, g0, a, b, r, nr, nwn, nwc, u, e),
        g0.wf(),
    ensures
        g.rooms_wf(),
{
    g0.lemma_loop_from(a);
    lemma_split_room_setup(g0, a, u, e);
    let n = u.len() as int;
    let t1 = split_off_loop(u, e, nwn);
    let t2 = left_loop(u, e, nwc);
    assert(u[0] == a);
    g0.lemma_wf_basics();
    assert(g.room_loop(nr) == t1);
    assert(g.room_loop(r) == t2);
    reveal(WorldGeometry::rooms_wf);
    assert forall|rr: u64| #[trigger] g.has_room(rr) implies g.room_ok(rr) by {
        if rr == nr {
            assert(t1.len() == e + 2);
            assert(t1.no_duplicates()) by {
                assert forall|x: int, y: int| 0 <= x < t1.len() && 0 <= y < t1.len() && x != y implies t1[x] != t1[y] by {
                    if x > 0 && y > 0 {
                        assert(t1[x] == u[x - 1] && t1[y] == u[y - 1]);
                    } else if x == 0 {
                        assert(t1[y] == u[y - 1]);
                        assert(g0.has_wall(u[y - 1]));
                    } else {
                        assert(t1[x] == u[x - 1]);
                        assert(g0.has_wall(u[x - 1]));
                    }
                }
            }
            assert forall|j: int| 0 <= j < t1.len() implies {
                &&& g.has_wall(#[trigger] t1[j])
                &&& g.room_of(t1[j]) == rr
                &&& g.next_of(t1[j]) == t1[succ(j, t1.len() as int)]
            } by {
                if j > 0 {
                    assert(t1[j] == u[j - 1]);
                    assert(in_arc(u, e, u[j - 1]));
                    assert(g0.has_wall(u[j - 1]));
                    if j - 1 < e {
                        assert(t1[j + 1] == u[j]);
                        assert(u[j - 1] != u[n - 1]);
                        assert(u[j - 1] != b);
                    }
                } else {
                    assert(t1[1] == u[0]);
                }
            }
        } else if rr == r {
            assert(t2.len() == n - e);
            assert(t2.no_duplicates()) by {
                assert forall|x: int, y: int| 0 <= x < t2.len() && 0 <= y < t2.len() && x != y implies t2[x] != t2[y] by {
                    if x > 0 && y > 0 {
                        assert(t2[x] == u[x + e] && t2[y] == u[y + e]);
                    } else if x == 0 {
                        assert(t2[y] == u[y + e]);
                        assert(g0.has_wall(u[y + e]));
                    } else {
                        assert(t2[x] == u[x + e]);
                        assert(g0.has_wall(u[x + e]));
                    }
                }
            }
            assert forall|j: int| 0 <= j < t2.len() implies {
                &&& g.has_wall(#[trigger] t2[j])
                &&& g.room_of(t2[j]) == rr
                &&& g.next_of(t2[j]) == t2[succ(j, t2.len() as int)]
            } by {
                if j > 0 {
                    assert(t2[j] == u[j + e]);
                    assert(!in_arc(u, e, u[j + e]));
                    assert(g0.has_wall(u[j + e]));
                    assert(u[j + e] != b);
                    if j + e < n - 1 {
                        assert(t2[j + 1] == u[j + e + 1]);
                    }
                } else {
                    assert(t2[1] == u[e + 1]);
                }
            }
        } else {
            assert(g0.has_room(rr));
            assert(g0.room_ok(rr));
            let sr = g0.room_loop(rr);
            assert(g.room_loop(rr) == sr);
            assert forall|j: int| 0 <= j < sr.len() implies {
                &&& g.has_wall(#[trigger] sr[j])
                &&& g.room_of(sr[j]) == rr
                &&& g.next_of(sr[j]) == sr[succ(j, sr.len() as int)]
            } by {
                assert(g0.has_wall(sr[j]));
                assert(g0.room_of(sr[j]) == rr);
                assert(!in_arc(u, e, sr[j]));
                assert(sr[j] != b) by {
                    assert(g0.room_of(b) == r);
                }
                assert(sr[j] != u[n - 1]) by {
                    assert(g0.room_of(u[n - 1]) == r);
                }
            }
        }
    }
}

pub proof fn lemma_split_room_vertices(g: WorldGeometry, g0: WorldGeometry, a: u64, b: u64, r: u64, nr: u64, nwn: u64, nwc: u64, u: Seq<u64>, e: int)
    requires
        split_room_facts(g, g0, a, b, r, nr, nwn, nwc, u, e),
        g0.wf(),
    ensures
        g.vertices_wf(),
{
    reveal(WorldGeometry::vertices_wf);
    assert forall|v: u64| #[trigger] g.has_vertex(v) implies g.vertex_ok(v) by {
        assert(g0.has_vertex(v));
        assert(g0.vertex_ok(v));
        let o = g0.vertex(v).outgoing_wall.key();
        assert(g0.has_wall(o));
    }
}

/// Connecting two walls and then disconnecting the first leaves both walls
/// unconnected.
pub proof fn law_connect_then_disconnect(g0: WorldGeometry, g1: WorldGeometry, g2: WorldGeometry, a: WallId, b: WallId)
    requires
        g0.wf(),
        g0.has_wall(a.key()),
        g0.has_wall(b.key()),
        a.key() != b.key(),
        g1.connected_from(&g0, a, Some(b)),
        g2.connected_from(&g1, a, None),
    ensures
        g2.wall(a.key()).connected_wall is None,
        g2.wall(b.key()).connected_wall is None,
{
    assert(g1.has_wall(a.key()) && g1.has_wall(b.key()));
    assert(g1.wall(b.key()).connected_wall == Some(a));
}

/// Splitting a room puts every wall of its loop in exactly one of the two new
/// loops, each of which also gets one of the two new walls.
pub proof fn law_split_room_partitions_loop(u: Seq<u64>, e: int, nwn: u64, nwc: u64, x: u64)
    requires
        u.no_duplicates(),
        0 <= e < u.len() - 1,
        !u.contains(nwn),
        !u.contains(nwc),
        nwn != nwc,
    ensures
        u.contains(x) ==> (split_off_loop(u, e, nwn).contains(x) != left_loop(u, e, nwc).contains(x)),
        split_off_loop(u, e, nwn).contains(x) ==> u.contains(x) || x == nwn,
        left_loop(u, e, nwc).contains(x) ==> u.contains(x) || x == nwc,
        split_off_loop(u, e, nwn).contains(nwn) && !left_loop(u, e, nwc).contains(nwn),
        left_loop(u, e, nwc).contains(nwc) && !split_off_loop(u, e, nwn).contains(nwc),
{
    let t1 = split_off_loop(u, e, nwn);
    let t2 = left_loop(u, e, nwc);
    assert(t1[0] == nwn);
    assert(t2[0] == nwc);
    if u.contains(x) {
        let j = choose|j: int| 0 <= j < u.len() && u[j] == x;
        if j <= e {
            assert(t1[j + 1] == x);
            if t2.contains(x) {
                let k = choose|k: int| 0 <= k < t2.len() && t2[k] == x;
                if k > 0 {
                    assert(u[k + e] == x);
                }
            }
        } else {
            assert(t2[j - e] == x);
            if t1.contains(x) {
                let k = choose|k: int| 0 <= k < t1.len() && t1[k] == x;
                if k > 0 {
                    assert(u[k - 1] == x);
                }
            }
        }
    }
    if t1.contains(x) {
        let k = choose|k: int| 0 <= k < t1.len() && t1[k] == x;
        if k > 0 {
            assert(u[k - 1] == x);
        }
    }
    if t2.contains(x) {
        let k = choose|k: int| 0 <= k < t2.len() && t2[k] == x;
        if k > 0 {
            assert(u[k + e] == x);
        }
    }
    if t2.contains(nwn) {
        let k = choose|k: int| 0 <= k < t2.len() && t2[k] == nwn;
        if k > 0 {
            assert(u[k + e] == nwn);
        }
    }
    if t1.contains(nwc) {
        let k = choose|k: int| 0 <= k < t1.len() && t1[k] == nwc;
        if k > 0 {
            assert(u[k - 1] == nwc);
        }
    }
}

} // verus!
