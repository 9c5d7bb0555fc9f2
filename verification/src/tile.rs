use vstd::prelude::*;
use std::collections::HashSet;
use vstd::std_specs::hash::spec_hash_keys_iter;
use vstd::std_specs::iter::IteratorSpec;
use vstd::seq_lib::seq_to_set_is_finite;
use vstd::set_lib::lemma_map_size;

verus! {

broadcast use vstd::std_specs::hash::group_hash_axioms;

/// The 128-bit key under which the tile (z, x, y) is stored: z in bits 64..96,
/// x in bits 32..64 and y in bits 0..32.
pub open spec fn tile_key(z: u32, x: u32, y: u32) -> u128 {
    ((z as u128) << 64u128) | ((x as u128) << 32u128) | (y as u128)
}

/// The tile that a key stands for.
pub open spec fn key_tile(k: u128) -> (u32, u32, u32) {
    ((k >> 64u128) as u32, (k >> 32u128) as u32, k as u32)
}

/// A key is well formed when its top 32 bits are clear.
pub open spec fn key_wf(k: u128) -> bool {
    k >> 96u128 == 0
}

/// A view zoom read as a 32-bit signed number.
pub open spec fn signed_zoom(view_zoom: u32) -> int {
    if view_zoom <= i32::MAX { view_zoom as int } else { view_zoom - 0x1_0000_0000 }
}

/// The data zoom for a view zoom, an offset and a zoom range.
pub open spec fn data_zoom(view_zoom: u32, offset: i32, min_zoom: u32, max_zoom: u32) -> u32 {
    let sum = signed_zoom(view_zoom) + offset;
    let adjusted: int = if sum < 0 { 0 } else { sum };
    let lower: int = if adjusted < min_zoom { min_zoom as int } else { adjusted };
    if lower > max_zoom { max_zoom } else { lower as u32 }
}

/// The unloaded tiles among the first n groups of three in a flat list.
pub open spec fn unloaded_prefix(tiles: Seq<u32>, loaded: Set<(u32, u32, u32)>, n: nat) -> Seq<u32>
    decreases n,
{
    if n == 0 {
        Seq::empty()
    } else {
        let prev = unloaded_prefix(tiles, loaded, (n - 1) as nat);
        let b = 3 * (n - 1);
        if loaded.contains((tiles[b], tiles[b + 1], tiles[b + 2])) {
            prev
        } else {
            prev + seq![tiles[b], tiles[b + 1], tiles[b + 2]]
        }
    }
}

/// The unloaded tiles of a flat list `[z, x, y, ...]`, a trailing group of
/// fewer than three numbers left out.
pub open spec fn unloaded_tiles(tiles: Seq<u32>, loaded: Set<(u32, u32, u32)>) -> Seq<u32> {
    unloaded_prefix(tiles, loaded, tiles.len() / 3)
}

/// The data zoom lies in the zoom range whenever the range is not empty.
pub proof fn law_data_zoom_in_range(view_zoom: u32, offset: i32, min_zoom: u32, max_zoom: u32)
    requires
        min_zoom <= max_zoom,
    ensures
        min_zoom <= data_zoom(view_zoom, offset, min_zoom, max_zoom) <= max_zoom,
{
}

/// Inside the zoom range, the data zoom is the view zoom plus the offset.
pub proof fn law_data_zoom_is_offset(view_zoom: u32, offset: i32, min_zoom: u32, max_zoom: u32)
    requires
        min_zoom <= signed_zoom(view_zoom) + offset <= max_zoom,
    ensures
        data_zoom(view_zoom, offset, min_zoom, max_zoom) == signed_zoom(view_zoom) + offset,
{
}

/// The unloaded tiles among the first n groups of a list come in groups of
/// three, at most n of them, none of which is loaded.
pub proof fn law_unloaded_tiles(tiles: Seq<u32>, loaded: Set<(u32, u32, u32)>, n: nat)
    requires
        n <= tiles.len() / 3,
    ensures
        unloaded_prefix(tiles, loaded, n).len() % 3 == 0,
        forall|g: int| 0 <= g < unloaded_prefix(tiles, loaded, n).len() / 3 ==> !loaded.contains(
            (
                #[trigger] unloaded_prefix(tiles, loaded, n)[3 * g],
                unloaded_prefix(tiles, loaded, n)[3 * g + 1],
                unloaded_prefix(tiles, loaded, n)[3 * g + 2],
            ),
        ),
        unloaded_prefix(tiles, loaded, n).len() <= 3 * n,
    decreases n,
{
    if n > 0 {
        law_unloaded_tiles(tiles, loaded, (n - 1) as nat);
        let prev = unloaded_prefix(tiles, loaded, (n - 1) as nat);
        let cur = unloaded_prefix(tiles, loaded, n);
        let b = 3 * (n - 1);
        if !loaded.contains((tiles[b], tiles[b + 1], tiles[b + 2])) {
            assert forall|g: int| 0 <= g < cur.len() / 3 implies !loaded.contains(
                (#[trigger] cur[3 * g], cur[3 * g + 1], cur[3 * g + 2]),
            ) by {
                if g < prev.len() / 3 {
                    assert(cur[3 * g] == prev[3 * g]);
                    assert(cur[3 * g + 1] == prev[3 * g + 1]);
                    assert(cur[3 * g + 2] == prev[3 * g + 2]);
                }
            }
        }
    }
}

/// The data zoom is the view zoom plus the offset, clamped: never above
/// the maximum; the minimum when the sum falls below it (the maximum winning
/// when the range is empty); the maximum when the sum rises above it.
pub proof fn law_data_zoom_clamps(view_zoom: u32, offset: i32, min_zoom: u32, max_zoom: u32)
    ensures
        data_zoom(view_zoom, offset, min_zoom, max_zoom) <= max_zoom,
        signed_zoom(view_zoom) + offset < min_zoom && min_zoom <= max_zoom ==> data_zoom(view_zoom, offset, min_zoom, max_zoom) == min_zoom,
        signed_zoom(view_zoom) + offset > max_zoom ==> data_zoom(view_zoom, offset, min_zoom, max_zoom) == max_zoom,
        min_zoom > max_zoom ==> data_zoom(view_zoom, offset, min_zoom, max_zoom) == max_zoom,
        0 <= view_zoom <= i32::MAX ==> signed_zoom(view_zoom) == view_zoom,
        view_zoom > i32::MAX ==> signed_zoom(view_zoom) < 0,
{
}

/// Every group of three in the first n groups of a list whose tile is not
/// loaded appears as a group of the unloaded tiles, and the groups of the
/// unloaded tiles keep the order of the list.
pub proof fn law_unloaded_complete(tiles: Seq<u32>, loaded: Set<(u32, u32, u32)>, n: nat, g: int)
    requires
        n <= tiles.len() / 3,
        0 <= g < n,
        !loaded.contains((tiles[3 * g], tiles[3 * g + 1], tiles[3 * g + 2])),
    ensures
        exists|j: int|
            0 <= j < unloaded_prefix(tiles, loaded, n).len() / 3 && #[trigger] unloaded_prefix(tiles, loaded, n)[3 * j]
                == tiles[3 * g] && unloaded_prefix(tiles, loaded, n)[3 * j + 1] == tiles[3 * g + 1] && unloaded_prefix(
                tiles,
                loaded,
                n,
            )[3 * j + 2] == tiles[3 * g + 2],
    decreases n,
{
    let prev = unloaded_prefix(tiles, loaded, (n - 1) as nat);
    let cur = unloaded_prefix(tiles, loaded, n);
    law_unloaded_tiles(tiles, loaded, (n - 1) as nat);
    if g == n - 1 {
        let j: int = (prev.len() / 3) as int;
        assert(cur[3 * j] == tiles[3 * g]);
        assert(cur[3 * j + 1] == tiles[3 * g + 1]);
        assert(cur[3 * j + 2] == tiles[3 * g + 2]);
    } else {
        law_unloaded_complete(tiles, loaded, (n - 1) as nat, g);
        let j = choose|j: int|
            0 <= j < prev.len() / 3 && #[trigger] prev[3 * j] == tiles[3 * g] && prev[3 * j + 1] == tiles[3 * g + 1]
                && prev[3 * j + 2] == tiles[3 * g + 2];
        assert(cur[3 * j] == prev[3 * j]);
        assert(cur[3 * j + 1] == prev[3 * j + 1]);
        assert(cur[3 * j + 2] == prev[3 * j + 2]);
    }
}

/// Marking a tile that is already loaded changes nothing.
pub proof fn law_mark_loaded_idempotent(loaded: Set<(u32, u32, u32)>, t: (u32, u32, u32))
    ensures
        loaded.insert(t).insert(t) == loaded.insert(t),
{
    assert(loaded.insert(t).insert(t) =~= loaded.insert(t));
}

/// Clearing a tile right after marking it restores the set of loaded
/// tiles, when it was not loaded before.
pub proof fn law_clear_tile_undoes_mark(loaded: Set<(u32, u32, u32)>, t: (u32, u32, u32))
    requires
        !loaded.contains(t),
    ensures
        loaded.insert(t).remove(t) == loaded,
{
    assert(loaded.insert(t).remove(t) =~= loaded);
}

/// Clearing a zoom level removes every tile of that level and keeps every
/// tile of the other levels.
pub proof fn law_clear_zoom_only_that_level(loaded: Set<(u32, u32, u32)>, z: u32, t: (u32, u32, u32))
    ensures
        t.0 == z ==> !loaded.filter(|u: (u32, u32, u32)| u.0 != z).contains(t),
        t.0 != z ==> (loaded.filter(|u: (u32, u32, u32)| u.0 != z).contains(t) == loaded.contains(t)),
{
}

proof fn lemma_key_roundtrip(z: u32, x: u32, y: u32)
    ensures
        key_tile(tile_key(z, x, y)) == (z, x, y),
        key_wf(tile_key(z, x, y)),
{
    let k = tile_key(z, x, y);
    assert(((((z as u128) << 64u128) | ((x as u128) << 32u128) | (y as u128)) >> 64u128) as u32 == z)
        by (bit_vector);
    assert(((((z as u128) << 64u128) | ((x as u128) << 32u128) | (y as u128)) >> 32u128) as u32 == x)
        by (bit_vector);
    assert((((z as u128) << 64u128) | ((x as u128) << 32u128) | (y as u128)) as u32 == y)
        by (bit_vector);
    assert((((z as u128) << 64u128) | ((x as u128) << 32u128) | (y as u128)) >> 96u128 == 0)
        by (bit_vector);
}

proof fn lemma_key_wf_roundtrip(k: u128)
    requires
        key_wf(k),
    ensures
        tile_key(key_tile(k).0, key_tile(k).1, key_tile(k).2) == k,
{
    assert(k >> 96u128 == 0 ==> (((((k >> 64u128) as u32) as u128) << 64u128) | ((((k >> 32u128) as u32) as u128) << 32u128) | (((k as u32) as u128))) == k)
        by (bit_vector);
}

/// Computes `tile_key(z, x, y)`.
fn key_of(z: u32, x: u32, y: u32) -> (k: u128)
    ensures
        k == tile_key(z, x, y),
        key_tile(k) == (z, x, y),
        key_wf(k),
{
    proof {
        lemma_key_roundtrip(z, x, y);
    }
    ((z as u128) << 64u128) | ((x as u128) << 32u128) | (y as u128)
}

/// Tracks which data tiles have been loaded, and maps view zoom levels to
/// data zoom levels (view zoom plus an offset, clamped to a zoom range).
pub struct TileCoordinator {
    loaded: HashSet<u128>,
    zoom_offset: i32,
    min_zoom: u32,
    max_zoom: u32,
}

impl View for TileCoordinator {
    type V = Set<(u32, u32, u32)>;

    /// The set of loaded tiles (z, x, y).
    closed spec fn view(&self) -> Set<(u32, u32, u32)> {
        self.loaded@.map(|k: u128| key_tile(k))
    }
}

impl TileCoordinator {
    /// Every stored key stands for a tile.
    pub closed spec fn wf(&self) -> bool {
        forall|k: u128| #[trigger] self.loaded@.contains(k) ==> key_wf(k)
    }

    pub closed spec fn spec_zoom_offset(&self) -> i32 {
        self.zoom_offset
    }

    pub closed spec fn spec_min_zoom(&self) -> u32 {
        self.min_zoom
    }

    pub closed spec fn spec_max_zoom(&self) -> u32 {
        self.max_zoom
    }

    proof fn lemma_view_contains(&self, z: u32, x: u32, y: u32)
        requires
            self.wf(),
        ensures
            self@.contains((z, x, y)) <==> self.loaded@.contains(tile_key(z, x, y)),
    {
        lemma_key_roundtrip(z, x, y);
        if self@.contains((z, x, y)) {
            let k = choose|k: u128| self.loaded@.contains(k) && key_tile(k) == (z, x, y);
            lemma_key_wf_roundtrip(k);
        }
    }

    /// A coordinator with nothing loaded, the given zoom offset and the data
    /// zoom range 2..=8.
    pub fn new(zoom_offset: i32) -> (c: Self)
        ensures
            c.wf(),
            c@ == Set::<(u32, u32, u32)>::empty(),
            c.spec_zoom_offset() == zoom_offset,
            c.spec_min_zoom() == 2,
            c.spec_max_zoom() == 8,
    {
        let c = TileCoordinator { loaded: HashSet::new(), zoom_offset, min_zoom: 2, max_zoom: 8 };
        assert(c@ =~= Set::<(u32, u32, u32)>::empty());
        c
    }

    /// The offset added to a view zoom to get a data zoom.
    pub fn zoom_offset(&self) -> (r: i32)
        ensures
            r == self.spec_zoom_offset(),
    {
        self.zoom_offset
    }

    /// The lower end of the data zoom range.
    pub fn min_zoom(&self) -> (r: u32)
        ensures
            r == self.spec_min_zoom(),
    {
        self.min_zoom
    }

    /// The upper end of the data zoom range.
    pub fn max_zoom(&self) -> (r: u32)
        ensures
            r == self.spec_max_zoom(),
    {
        self.max_zoom
    }

    /// Sets the data zoom range; the loaded tiles and the offset stay.
    pub fn set_zoom_range(&mut self, min_zoom: u32, max_zoom: u32)
        requires
            old(self).wf(),
        ensures
            final(self).wf(),
            final(self)@ == old(self)@,
            final(self).spec_min_zoom() == min_zoom,
            final(self).spec_max_zoom() == max_zoom,
            final(self).spec_zoom_offset() == old(self).spec_zoom_offset(),
    {
        self.min_zoom = min_zoom;
        self.max_zoom = max_zoom;
    }

    /// The data zoom for a view zoom: the view zoom (read as a 32-bit signed
    /// number) plus the offset, raised to at least 0, then raised to at least
    /// the minimum zoom and lowered to at most the maximum zoom (the maximum
    /// wins when the range is empty).
    pub fn get_data_zoom(&self, view_zoom: u32) -> (r: u32)
        requires
            i32::MIN <= signed_zoom(view_zoom) + self.spec_zoom_offset() <= i32::MAX,
        ensures
            r == data_zoom(view_zoom, self.spec_zoom_offset(), self.spec_min_zoom(), self.spec_max_zoom()),
    {
        let v: i64 = if view_zoom <= 2147483647u32 {
            view_zoom as i64
        } else {
            view_zoom as i64 - 4294967296i64
        };
        let sum: i64 = v + self.zoom_offset as i64;
        let adjusted: u32 = if sum < 0 {
            0
        } else {
            sum as u32
        };
        let lower: u32 = if adjusted < self.min_zoom {
            self.min_zoom
        } else {
            adjusted
        };
        if lower > self.max_zoom {
            self.max_zoom
        } else {
            lower
        }
    }

    /// Whether the tile (z, x, y) has been marked loaded.
    pub fn is_loaded(&self, z: u32, x: u32, y: u32) -> (r: bool)
        requires
            self.wf(),
        ensures
            r == self@.contains((z, x, y)),
    {
        let k = key_of(z, x, y);
        proof {
            self.lemma_view_contains(z, x, y);
        }
        self.loaded.contains(&k)
    }

    /// Marks the tile (z, x, y) loaded.
    pub fn mark_loaded(&mut self, z: u32, x: u32, y: u32)
        requires
            old(self).wf(),
        ensures
            final(self).wf(),
            final(self)@ == old(self)@.insert((z, x, y)),
            final(self).spec_zoom_offset() == old(self).spec_zoom_offset(),
            final(self).spec_min_zoom() == old(self).spec_min_zoom(),
            final(self).spec_max_zoom() == old(self).spec_max_zoom(),
    {
        let k = key_of(z, x, y);
        let ghost before = self.loaded@;
        self.loaded.insert(k);
        proof {
            assert(self.loaded@ == before.insert(k));
            assert forall|t: (u32, u32, u32)| #[trigger] self@.contains(t) == old(self)@.insert((z, x, y)).contains(t) by {
                old(self).lemma_view_contains(t.0, t.1, t.2);
                self.lemma_view_contains(t.0, t.1, t.2);
                lemma_key_roundtrip(t.0, t.1, t.2);
            }
            assert(self@ =~= old(self)@.insert((z, x, y)));
        }
    }

    /// Forgets every loaded tile.
    pub fn clear(&mut self)
        requires
            old(self).wf(),
        ensures
            final(self).wf(),
            final(self)@ == Set::<(u32, u32, u32)>::empty(),
            final(self).spec_zoom_offset() == old(self).spec_zoom_offset(),
            final(self).spec_min_zoom() == old(self).spec_min_zoom(),
            final(self).spec_max_zoom() == old(self).spec_max_zoom(),
    {
        self.loaded.clear();
        assert(self@ =~= Set::<(u32, u32, u32)>::empty());
    }

    /// Forgets the tile (z, x, y).
    pub fn clear_tile(&mut self, z: u32, x: u32, y: u32)
        requires
            old(self).wf(),
        ensures
            final(self).wf(),
            final(self)@ == old(self)@.remove((z, x, y)),
            final(self).spec_zoom_offset() == old(self).spec_zoom_offset(),
            final(self).spec_min_zoom() == old(self).spec_min_zoom(),
            final(self).spec_max_zoom() == old(self).spec_max_zoom(),
    {
        let k = key_of(z, x, y);
        let ghost before = self.loaded@;
        self.loaded.remove(&k);
        proof {
            assert(self.loaded@ == before.remove(k));
            assert forall|t: (u32, u32, u32)| #[trigger] self@.contains(t) == old(self)@.remove((z, x, y)).contains(t) by {
                old(self).lemma_view_contains(t.0, t.1, t.2);
                self.lemma_view_contains(t.0, t.1, t.2);
                lemma_key_roundtrip(t.0, t.1, t.2);
            }
            assert(self@ =~= old(self)@.remove((z, x, y)));
        }
    }

    proof fn lemma_loaded_finite(&self)
        ensures
            self.loaded@.finite(),
    {
        let keys = spec_hash_keys_iter(&self.loaded).remaining();
        seq_to_set_is_finite(keys.unref());
    }

    proof fn lemma_view_len(&self)
        requires
            self.wf(),
        ensures
            self@.finite(),
            self@.len() == self.loaded@.len(),
    {
        self.lemma_loaded_finite();
        let f = |k: u128| key_tile(k);
        assert forall|k1: u128, k2: u128|
            self.loaded@.contains(k1) && self.loaded@.contains(k2) && #[trigger] f(k1) == #[trigger] f(k2)
            implies k1 == k2 by {
            lemma_key_wf_roundtrip(k1);
            lemma_key_wf_roundtrip(k2);
        }
        lemma_map_size(self.loaded@, self@, f);
    }

    /// The number of loaded tiles.
    pub fn loaded_count(&self) -> (n: usize)
        requires
            self.wf(),
        ensures
            n == self@.len(),
    {
        proof {
            self.lemma_view_len();
        }
        self.loaded.len()
    }

    /// The tiles of a flat list `[z, x, y, z, x, y, ...]` that are not
    /// loaded, in their order; a trailing group of fewer than three numbers
    /// is ignored.
    pub fn filter_unloaded(&self, tiles: &[u32]) -> (r: Vec<u32>)
        requires
            self.wf(),
        ensures
            r@ == unloaded_tiles(tiles@, self@),
    {
        let mut result: Vec<u32> = Vec::new();
        let len = tiles.len();
        let n = len / 3;
        let mut j: usize = 0;
        while j < n
            invariant
                self.wf(),
                len == tiles@.len(),
                n == len / 3,
                j <= n,
                result@ == unloaded_prefix(tiles@, self@, j as nat),
            decreases n - j,
        {
            assert(3 * j + 3 <= len) by (nonlinear_arith)
                requires
                    j < n,
                    n == len / 3,
            ;
            let b = 3 * j;
            let z = tiles[b];
            let x = tiles[b + 1];
            let y = tiles[b + 2];
            if !self.is_loaded(z, x, y) {
                result.push(z);
                result.push(x);
                result.push(y);
            }
            assert(result@ =~= unloaded_prefix(tiles@, self@, (j + 1) as nat));
            j = j + 1;
        }
        result
    }

    /// Forgets every loaded tile at zoom level z.
    pub fn clear_zoom(&mut self, z: u32)
        requires
            old(self).wf(),
        ensures
            final(self).wf(),
            final(self)@ == old(self)@.filter(|t: (u32, u32, u32)| t.0 != z),
            final(self).spec_zoom_offset() == old(self).spec_zoom_offset(),
            final(self).spec_min_zoom() == old(self).spec_min_zoom(),
            final(self).spec_max_zoom() == old(self).spec_max_zoom(),
    {
        let ghost start = self.loaded@;
        let ghost all = spec_hash_keys_iter(&self.loaded).remaining().unref();
        assert(all.to_set() == start);
        let mut keys: Vec<u128> = Vec::new();
        for k in it: self.loaded.iter()
            invariant
                it.seq().unref() == all,
                keys@ == it.seq().take(it.index()).unref(),
            ensures
                keys@ == all,
        {
            keys.push(*k);
            assert(keys@ =~= it.seq().take(it.index() + 1).unref());
        }
        assert(keys@.to_set() == start);
        let mut i: usize = 0;
        while i < keys.len()
            invariant
                self.wf(),
                start == old(self).loaded@,
                keys@.to_set() == start,
                i <= keys@.len(),
                self.zoom_offset == old(self).zoom_offset,
                self.min_zoom == old(self).min_zoom,
                self.max_zoom == old(self).max_zoom,
                self.loaded@ == start.filter(|k: u128| !(keys@.take(i as int).contains(k) && key_tile(k).0 == z)),
            decreases keys@.len() - i,
        {
            let k = keys[i];
            let ghost before = self.loaded@;
            let zoom = #[verifier::truncate] ((k >> 64u128) as u32);
            if zoom == z {
                self.loaded.remove(&k);
            }
            proof {
                let prev = keys@.take(i as int);
                let next = keys@.take(i + 1);
                assert(next =~= prev.push(k));
                assert forall|kk: u128| #[trigger] next.contains(kk) <==> (prev.contains(kk) || kk == k) by {
                    if next.contains(kk) {
                        let j = choose|j: int| 0 <= j < next.len() && next[j] == kk;
                        if j < prev.len() {
                            assert(prev[j] == kk);
                        }
                    }
                    if prev.contains(kk) {
                        let j = choose|j: int| 0 <= j < prev.len() && prev[j] == kk;
                        assert(next[j] == kk);
                    }
                    if kk == k {
                        assert(next[i as int] == kk);
                    }
                }
                assert(self.loaded@ =~= start.filter(|k: u128| !(keys@.take(i + 1).contains(k) && key_tile(k).0 == z)));
            }
            i = i + 1;
        }
        proof {
            assert(keys@.take(keys@.len() as int) =~= keys@);
            assert forall|t: (u32, u32, u32)| #[trigger] self@.contains(t) == old(self)@.filter(|t: (u32, u32, u32)| t.0 != z).contains(t) by {
                old(self).lemma_view_contains(t.0, t.1, t.2);
                self.lemma_view_contains(t.0, t.1, t.2);
                lemma_key_roundtrip(t.0, t.1, t.2);
            }
            assert(self@ =~= old(self)@.filter(|t: (u32, u32, u32)| t.0 != z));
        }
    }
}

} // verus!
