//! Residency bookkeeping of streamed Earth imagery tiles.
//!
//! Imagery follows the published terrain cover: only tiles that the visible
//! patches resolve to are desired, obsolete requests are cancelled, and a tile
//! leaves residency with the last patch that needs it. Admission is bounded by
//! its own byte budget and a per-frame upload cap, so imagery never delays
//! terrain geometry. The asset loading itself happens outside this state: the
//! caller starts a load for every requested tile, reports each pending tile's
//! load state, and drops the handle of every evicted tile.
use vstd::prelude::*;
use crate::patch::{CubeFace, TerrainPatch, contains_patch, distinct_patches};

verus! {

/// Conservative per-tile GPU/CPU estimate for a produced 256 x 256 RGBA tile.
pub const IMAGERY_TILE_BYTES: u64 = 262144;

/// Directory name of a cube face in the imagery package layout.
pub open spec fn face_directory(face: CubeFace) -> Seq<char> {
    match face {
        CubeFace::PosX => "pos_x"@,
        CubeFace::NegX => "neg_x"@,
        CubeFace::PosY => "pos_y"@,
        CubeFace::NegY => "neg_y"@,
        CubeFace::PosZ => "pos_z"@,
        CubeFace::NegZ => "neg_z"@,
    }
}

/// Directory name of a cube face in the imagery package layout.
pub fn cube_face_name(face: CubeFace) -> (r: &'static str)
    ensures
        r@ == face_directory(face),
        face == CubeFace::PosX ==> r@ == "pos_x"@,
        face == CubeFace::NegX ==> r@ == "neg_x"@,
        face == CubeFace::PosY ==> r@ == "pos_y"@,
        face == CubeFace::NegY ==> r@ == "neg_y"@,
        face == CubeFace::PosZ ==> r@ == "pos_z"@,
        face == CubeFace::NegZ ==> r@ == "neg_z"@,
{
    match face {
        CubeFace::PosX => "pos_x",
        CubeFace::NegX => "neg_x",
        CubeFace::PosY => "pos_y",
        CubeFace::NegY => "neg_y",
        CubeFace::PosZ => "pos_z",
        CubeFace::NegZ => "neg_z",
    }
}

/// Each face's imagery directory is its own signed axis name, so distinct
/// faces read distinct directories.
pub proof fn lemma_face_directories_are_axis_names(a: CubeFace, b: CubeFace)
    ensures
        face_directory(CubeFace::PosX) == "pos_x"@,
        face_directory(CubeFace::NegX) == "neg_x"@,
        face_directory(CubeFace::PosY) == "pos_y"@,
        face_directory(CubeFace::NegY) == "neg_y"@,
        face_directory(CubeFace::PosZ) == "pos_z"@,
        face_directory(CubeFace::NegZ) == "neg_z"@,
        a != b ==> face_directory(a) != face_directory(b),
{
    reveal_strlit("pos_x");
    reveal_strlit("neg_x");
    reveal_strlit("pos_y");
    reveal_strlit("neg_y");
    reveal_strlit("pos_z");
    reveal_strlit("neg_z");
    if a != b {
        let da = face_directory(a);
        let db = face_directory(b);
        assert(da.len() == 5 && db.len() == 5);
        assert(da[0] != db[0] || da[4] != db[4]);
    }
}

/// Load state of a requested tile, as reported by the asset loader.
#[derive(Clone, Copy, Debug, PartialEq, Eq, Structural)]
pub enum TileLoadState {
    Loading,
    Loaded,
    Failed,
}

/// Residency snapshot folded into the streaming metrics.
#[derive(Clone, Copy, Debug, PartialEq, Eq, Structural)]
pub struct ImageryCounts {
    pub resident_tiles: usize,
    pub pending_tiles: usize,
    pub resident_bytes: u64,
    pub budget_bytes: u64,
    pub evicted_tiles: u64,
}

/// Imagery residency: the tiles holding an asset handle, those of them still
/// loading, those loaded, and the bytes the loaded tiles occupy.
pub struct ImageryResidency {
    handles: Vec<TerrainPatch>,
    pending: Vec<TerrainPatch>,
    ready: Vec<TerrainPatch>,
    resident_bytes: u64,
    budget_bytes: u64,
    evictions: u64,
}

/// One more tile may be requested only if the resident tiles, the tiles in
/// flight and that tile all fit in the budget.
pub open spec fn fits_budget(resident_bytes: int, pending: int, budget_bytes: int) -> bool {
    resident_bytes + pending * IMAGERY_TILE_BYTES + IMAGERY_TILE_BYTES <= budget_bytes
}

/// How many further tiles fit the budget beside `pending` tiles in flight.
pub open spec fn budget_capacity(resident_bytes: int, pending: int, budget_bytes: int) -> int {
    let free = budget_bytes - resident_bytes - pending * IMAGERY_TILE_BYTES;
    if free < 0 { 0 } else { free / IMAGERY_TILE_BYTES as int }
}

/// Admission check: one more tile may be requested only if the resident plus
/// in-flight tiles plus that tile stay within the imagery budget.
pub fn within_budget(resident_bytes: u64, pending: usize, budget_bytes: u64) -> (r: bool)
    ensures
        r == fits_budget(resident_bytes as int, pending as int, budget_bytes as int),
{
    let tile = IMAGERY_TILE_BYTES as u128;
    proof {
        assert(pending as u128 * tile <= 0xffff_ffff_ffff_ffff * 262144) by (nonlinear_arith)
            requires
                pending <= 0xffff_ffff_ffff_ffff,
                tile == 262144,
        ;
    }
    let reserved: u128 = resident_bytes as u128 + pending as u128 * tile + tile;
    reserved <= budget_bytes as u128
}

proof fn lemma_capacity_step(resident: int, pending: int, budget: int)
    requires
        resident >= 0,
        pending >= 0,
    ensures
        fits_budget(resident, pending, budget) <==> budget_capacity(resident, pending, budget) >= 1,
        fits_budget(resident, pending, budget) ==> budget_capacity(resident, pending + 1, budget)
            == budget_capacity(resident, pending, budget) - 1,
{
    let t = IMAGERY_TILE_BYTES as int;
    let free = budget - resident - pending * t;
    assert(free >= t <==> free / t >= 1) by (nonlinear_arith)
        requires
            t == 262144,
    ;
    assert(free >= t ==> (free - t) / t == free / t - 1) by (nonlinear_arith)
        requires
            t == 262144,
    ;
}

impl ImageryResidency {
    /// Tiles holding an asset handle.
    pub closed spec fn handle_tiles(&self) -> Seq<TerrainPatch> {
        self.handles@
    }

    /// Tiles whose load is in flight.
    pub closed spec fn pending_tiles(&self) -> Seq<TerrainPatch> {
        self.pending@
    }

    /// Tiles that finished loading.
    pub closed spec fn ready_tiles(&self) -> Seq<TerrainPatch> {
        self.ready@
    }

    /// Bytes accounted to loaded tiles.
    pub closed spec fn spec_resident_bytes(&self) -> u64 {
        self.resident_bytes
    }

    /// The imagery byte budget.
    pub closed spec fn spec_budget_bytes(&self) -> u64 {
        self.budget_bytes
    }

    /// Tiles evicted so far.
    pub closed spec fn spec_evictions(&self) -> u64 {
        self.evictions
    }

    /// Every pending or ready tile holds a handle, no tile is both, no list
    /// repeats a tile, the resident bytes are the loaded tiles' bytes, and
    /// the bytes of loaded plus in-flight tiles are countable.
    pub open spec fn wf(&self) -> bool {
        &&& distinct_patches(self.handle_tiles())
        &&& distinct_patches(self.pending_tiles())
        &&& distinct_patches(self.ready_tiles())
        &&& forall|t: TerrainPatch| #[trigger] self.pending_tiles().contains(t) ==> self.handle_tiles().contains(t)
        &&& forall|t: TerrainPatch| #[trigger] self.ready_tiles().contains(t) ==> self.handle_tiles().contains(t)
            && !self.pending_tiles().contains(t)
        &&& self.spec_resident_bytes() == self.ready_tiles().len() * IMAGERY_TILE_BYTES
        &&& (self.ready_tiles().len() + self.pending_tiles().len()) * IMAGERY_TILE_BYTES <= u64::MAX
    }

    /// Empty residency; `budget_bytes` is the budget its metrics report.
    pub fn new(budget_bytes: u64) -> (r: Self)
        ensures
            r.wf(),
            r.handle_tiles().len() == 0,
            r.pending_tiles().len() == 0,
            r.ready_tiles().len() == 0,
            r.spec_budget_bytes() == budget_bytes,
            r.spec_evictions() == 0,
    {
        ImageryResidency {
            handles: Vec::new(),
            pending: Vec::new(),
            ready: Vec::new(),
            resident_bytes: 0,
            budget_bytes,
            evictions: 0,
        }
    }

    /// Whether `tile` is loaded and may replace the global albedo.
    pub fn is_ready(&self, tile: &TerrainPatch) -> (r: bool)
        ensures
            r == self.ready_tiles().contains(*tile),
    {
        contains_patch(self.ready.as_slice(), tile)
    }

    /// Whether any tile is loaded.
    pub fn has_ready_tiles(&self) -> (r: bool)
        ensures
            r == (self.ready_tiles().len() > 0),
    {
        self.ready.len() > 0
    }

    /// The tiles whose load is in flight, for polling.
    pub fn pending(&self) -> (r: Vec<TerrainPatch>)
        ensures
            r@ == self.pending_tiles(),
    {
        self.pending.clone()
    }

    /// The residency snapshot for the streaming metrics.
    pub fn counts(&self) -> (r: ImageryCounts)
        ensures
            r.resident_tiles == self.ready_tiles().len(),
            r.pending_tiles == self.pending_tiles().len(),
            r.resident_bytes == self.spec_resident_bytes(),
            r.budget_bytes == self.spec_budget_bytes(),
            r.evicted_tiles == self.spec_evictions(),
    {
        ImageryCounts {
            resident_tiles: self.ready.len(),
            pending_tiles: self.pending.len(),
            resident_bytes: self.resident_bytes,
            budget_bytes: self.budget_bytes,
            evicted_tiles: self.evictions,
        }
    }

    /// Cancel in-flight loads of tiles no longer desired, then request desired
    /// tiles without a handle, in `desired` order, while this frame's
    /// `budget_bytes` allows one more tile and fewer than `max_uploads` were
    /// requested this frame. `desired` is a set of tiles: none occurs twice in
    /// it. Returns the requested tiles: the caller starts one load for each.
    /// Admission never takes loaded plus in-flight tiles beyond the budget.
    pub fn request_desired(&mut self, desired: &[TerrainPatch], budget_bytes: u64, max_uploads: usize) -> (requested:
        Vec<TerrainPatch>)
        requires
            old(self).wf(),
            distinct_patches(desired@),
        ensures
            final(self).wf(),
            ({
                let kept = old(self).pending_tiles().filter(|t: TerrainPatch| desired@.contains(t));
                let candidates = desired@.filter(|t: TerrainPatch| !old(self).handle_tiles().contains(t));
                let capacity = budget_capacity(
                    old(self).spec_resident_bytes() as int,
                    kept.len() as int,
                    budget_bytes as int,
                );
                &&& requested@.len() == if candidates.len() <= max_uploads && candidates.len() <= capacity {
                    candidates.len() as int
                } else if max_uploads <= capacity {
                    max_uploads as int
                } else {
                    capacity
                }
                &&& requested@ == candidates.subrange(0, requested@.len() as int)
                &&& final(self).pending_tiles() == kept + requested@
                &&& final(self).handle_tiles() == old(self).handle_tiles() + requested@
            }),
            final(self).ready_tiles() == old(self).ready_tiles(),
            final(self).spec_resident_bytes() == old(self).spec_resident_bytes(),
            final(self).spec_budget_bytes() == old(self).spec_budget_bytes(),
            final(self).spec_evictions() == old(self).spec_evictions(),
            requested@.len() > 0 ==> (final(self).ready_tiles().len() + final(self).pending_tiles().len())
                * IMAGERY_TILE_BYTES <= budget_bytes,
            (old(self).ready_tiles().len() + old(self).pending_tiles().len()) * IMAGERY_TILE_BYTES <= budget_bytes
                ==> (final(self).ready_tiles().len() + final(self).pending_tiles().len()) * IMAGERY_TILE_BYTES
                <= budget_bytes,
    {
        let ghost old_handles = self.handles@;
        let ghost old_pending = self.pending@;
        let ghost in_desired = |t: TerrainPatch| desired@.contains(t);
        let ghost unhandled = |t: TerrainPatch| !old_handles.contains(t);
        let mut kept: Vec<TerrainPatch> = Vec::new();
        let mut i: usize = 0;
        while i < self.pending.len()
            invariant
                i <= old_pending.len(),
                self.pending@ == old_pending,
                distinct_patches(old_pending),
                forall|t: TerrainPatch| #[trigger] in_desired(t) == desired@.contains(t),
                kept@ == old_pending.subrange(0, i as int).filter(in_desired),
                distinct_patches(kept@),
                forall|t: TerrainPatch| #[trigger] kept@.contains(t) ==> old_pending.subrange(0, i as int).contains(t),
            decreases old_pending.len() - i,
        {
            let tile = self.pending[i];
            proof {
                reveal_with_fuel(Seq::<_>::filter, 1);
                assert(old_pending.subrange(0, i + 1).drop_last() == old_pending.subrange(0, i as int));
                assert(old_pending.subrange(0, i + 1).filter(in_desired) == if in_desired(tile) {
                    old_pending.subrange(0, i as int).filter(in_desired).push(tile)
                } else {
                    old_pending.subrange(0, i as int).filter(in_desired)
                });
            }
            if contains_patch(desired, &tile) {
                let ghost before = kept@;
                kept.push(tile);
                proof {
                    assert(in_desired(tile));
                    assert forall|a: int, b: int| 0 <= a < b < kept@.len() implies kept@[a] != kept@[b] by {
                        if b == kept@.len() - 1 {
                            assert(before.contains(kept@[a]));
                            assert(old_pending.subrange(0, i as int).contains(kept@[a]));
                            let k = choose|k: int| 0 <= k < i && #[trigger] old_pending.subrange(0, i as int)[k]
                                == kept@[a];
                            assert(old_pending[k] != old_pending[i as int]);
                        }
                    }
                    assert forall|t: TerrainPatch| #[trigger] kept@.contains(t) implies old_pending.subrange(
                        0,
                        i + 1,
                    ).contains(t) by {
                        let j = choose|j: int| 0 <= j < kept@.len() && #[trigger] kept@[j] == t;
                        if j == kept@.len() - 1 {
                            assert(old_pending.subrange(0, i + 1)[i as int] == t);
                        } else {
                            assert(before.contains(t));
                            let k = choose|k: int| 0 <= k < i && #[trigger] old_pending.subrange(0, i as int)[k] == t;
                            assert(old_pending.subrange(0, i + 1)[k] == t);
                        }
                    }
                }
            } else {
                proof {
                    assert(!in_desired(tile));
                    assert forall|t: TerrainPatch| #[trigger] kept@.contains(t) implies old_pending.subrange(
                        0,
                        i + 1,
                    ).contains(t) by {
                        let k = choose|k: int| 0 <= k < i && #[trigger] old_pending.subrange(0, i as int)[k] == t;
                        assert(old_pending.subrange(0, i + 1)[k] == t);
                    }
                }
            }
            i = i + 1;
        }
        proof {
            assert(old_pending.subrange(0, old_pending.len() as int) == old_pending);
            assert(in_desired == |t: TerrainPatch| desired@.contains(t));
            // The kept tiles still satisfy the containment invariants.
            assert forall|t: TerrainPatch| #[trigger] kept@.contains(t) implies old_pending.contains(t) by {}
            broadcast use vstd::seq_lib::group_filter_ensures;
        }
        self.pending = kept;
        let ghost kept_len = self.pending@.len();
        proof {
            broadcast use vstd::seq_lib::group_filter_ensures;
            assert(self.pending@.len() <= old_pending.len());
            assert forall|t: TerrainPatch| #[trigger] self.ready@.contains(t) implies !self.pending@.contains(t) by {
                if self.pending@.contains(t) {
                    assert(old_pending.contains(t));
                }
            }
            assert forall|t: TerrainPatch| #[trigger] self.pending@.contains(t) implies self.handles@.contains(t) by {
                assert(old_pending.contains(t));
            }
            assert((self.ready@.len() + self.pending@.len()) * IMAGERY_TILE_BYTES <= (self.ready@.len()
                + old_pending.len()) * IMAGERY_TILE_BYTES) by (nonlinear_arith)
                requires
                    self.pending@.len() <= old_pending.len(),
            ;
        }
        let mut requested: Vec<TerrainPatch> = Vec::new();
        let mut uploads: usize = 0;
        let mut stopped = false;
        let mut j: usize = 0;
        while j < desired.len() && !stopped
            invariant
                self.wf(),
                j <= desired@.len(),
                forall|t: TerrainPatch| #[trigger] unhandled(t) == !old_handles.contains(t),
                distinct_patches(desired@),
                uploads == requested@.len(),
                self.ready@ == old(self).ready@,
                self.resident_bytes == old(self).resident_bytes,
                self.budget_bytes == old(self).budget_bytes,
                self.evictions == old(self).evictions,
                self.pending@ == kept@ + requested@,
                self.handles@ == old_handles + requested@,
                kept@.len() == kept_len,
                requested@.len() <= max_uploads,
                requested@.len() <= budget_capacity(self.resident_bytes as int, kept_len as int, budget_bytes as int),
                requested@.len() > 0 ==> (self.ready@.len() + self.pending@.len()) * IMAGERY_TILE_BYTES <= budget_bytes,
                (old(self).ready@.len() + old(self).pending@.len()) * IMAGERY_TILE_BYTES <= budget_bytes ==> (
                self.ready@.len() + self.pending@.len()) * IMAGERY_TILE_BYTES <= budget_bytes,
                !stopped ==> requested@ == desired@.subrange(0, j as int).filter(unhandled),
                stopped ==> requested@.len() == max_uploads || requested@.len() == budget_capacity(
                    self.resident_bytes as int,
                    kept_len as int,
                    budget_bytes as int,
                ),
                stopped ==> desired@.subrange(0, j as int).filter(unhandled).is_prefix_of(desired@.filter(unhandled))
                    && requested@ == desired@.subrange(0, j as int).filter(unhandled),
            decreases desired@.len() - j + (if stopped { 0int } else { 1int }),
        {
            let tile = desired[j];
            proof {
                reveal_with_fuel(Seq::<_>::filter, 1);
                assert(desired@.subrange(0, j + 1).drop_last() == desired@.subrange(0, j as int));
                assert(desired@.subrange(0, j + 1).filter(unhandled) == if unhandled(tile) {
                    desired@.subrange(0, j as int).filter(unhandled).push(tile)
                } else {
                    desired@.subrange(0, j as int).filter(unhandled)
                });
            }
            if contains_patch(self.handles.as_slice(), &tile) {
                proof {
                    if old_handles.contains(tile) {
                    } else {
                        let k = choose|k: int| 0 <= k < self.handles@.len() && #[trigger] self.handles@[k] == tile;
                        assert(requested@[k - old_handles.len()] == tile);
                        assert(requested@.contains(tile));
                        assert(desired@.subrange(0, j as int).filter(unhandled).contains(tile));
                        desired@.subrange(0, j as int).lemma_filter_contains_rev(unhandled, tile);
                        let m = choose|m: int| 0 <= m < j && #[trigger] desired@.subrange(0, j as int)[m] == tile;
                        assert(desired@[m] == desired@[j as int]);
                    }
                    assert(!unhandled(tile));
                }
                j = j + 1;
            } else {
                proof {
                    assert(!old_handles.contains(tile)) by {
                        if old_handles.contains(tile) {
                            let k = choose|k: int| 0 <= k < old_handles.len() && #[trigger] old_handles[k] == tile;
                            assert(self.handles@[k] == tile);
                        }
                    }
                    assert(unhandled(tile));
                    lemma_capacity_step(self.resident_bytes as int, self.pending@.len() as int, budget_bytes as int);
                }
                if !within_budget(self.resident_bytes, self.pending.len(), budget_bytes) || uploads >= max_uploads {
                    stopped = true;
                    proof {
                        desired@.subrange(0, j as int).lemma_filter_monotone(desired@, unhandled);
                    }
                } else {
                    let ghost before_pending = self.pending@;
                    let ghost before_handles = self.handles@;
                    let ghost before = *self;
                    proof {
                        assert(before.wf());
                        assert(!before_handles.contains(tile));
                    }
                    self.handles.push(tile);
                    self.pending.push(tile);
                    requested.push(tile);
                    uploads = uploads + 1;
                    proof {
                        assert(requested@ == desired@.subrange(0, j + 1).filter(unhandled));
                        assert forall|a: int, b: int| 0 <= a < b < self.handles@.len() implies self.handles@[a]
                            != self.handles@[b] by {
                            if b == before_handles.len() {
                                assert(before_handles[a] == self.handles@[a]);
                            }
                        }
                        assert forall|a: int, b: int| 0 <= a < b < self.pending@.len() implies self.pending@[a]
                            != self.pending@[b] by {
                            if b == before_pending.len() {
                                assert(before_pending.contains(self.pending@[a]));
                                assert(before.pending_tiles().contains(self.pending@[a]));
                                assert(before_handles.contains(self.pending@[a]));
                            }
                        }
                        assert forall|t: TerrainPatch| #[trigger] self.pending@.contains(t) implies self.handles@.contains(t) by {
                            if t != tile {
                                let k = choose|k: int| 0 <= k < self.pending@.len() && #[trigger] self.pending@[k] == t;
                                assert(before_pending[k] == t);
                                assert(before.pending_tiles().contains(t));
                                assert(before_handles.contains(t));
                                let m = choose|m: int| 0 <= m < before_handles.len() && #[trigger] before_handles[m] == t;
                                assert(self.handles@[m] == t);
                            } else {
                                assert(self.handles@[before_handles.len() as int] == t);
                            }
                        }
                        assert forall|t: TerrainPatch| #[trigger] self.ready@.contains(t) implies self.handles@.contains(t)
                            && !self.pending@.contains(t) by {
                            assert(before.ready_tiles().contains(t));
                            let m = choose|m: int| 0 <= m < before_handles.len() && #[trigger] before_handles[m] == t;
                            assert(self.handles@[m] == t);
                            if self.pending@.contains(t) {
                                let k = choose|k: int| 0 <= k < self.pending@.len() && #[trigger] self.pending@[k] == t;
                                if k < before_pending.len() {
                                    assert(before_pending[k] == t);
                                }
                            }
                        }
                        assert((self.ready@.len() + self.pending@.len()) * IMAGERY_TILE_BYTES <= budget_bytes)
                            by (nonlinear_arith)
                            requires
                                self.resident_bytes == self.ready@.len() * IMAGERY_TILE_BYTES,
                                self.resident_bytes + before_pending.len() * IMAGERY_TILE_BYTES + IMAGERY_TILE_BYTES
                                    <= budget_bytes,
                                self.pending@.len() == before_pending.len() + 1,
                        ;
                        assert(self.pending@ == kept@ + requested@);
                        assert(self.handles@ == old_handles + requested@);
                    }
                    j = j + 1;
                }
            }
        }
        proof {
            broadcast use vstd::seq_lib::group_filter_ensures;
            if !stopped {
                assert(desired@.subrange(0, desired@.len() as int) == desired@);
            }
            let candidates = desired@.filter(unhandled);
            assert(unhandled == |t: TerrainPatch| !old(self).handles@.contains(t));
            assert(requested@ == candidates.subrange(0, requested@.len() as int));
        }
        requested
    }

    /// Record the load state of a tile in flight. A loaded tile becomes
    /// resident; a failed load drops the tile's request and handle so a later
    /// frame may retry it; a tile still loading, or one not in flight, is left
    /// as it is.
    pub fn record_load_state(&mut self, tile: TerrainPatch, state: TileLoadState)
        requires
            old(self).wf(),
        ensures
            final(self).wf(),
            final(self).spec_budget_bytes() == old(self).spec_budget_bytes(),
            final(self).spec_evictions() == old(self).spec_evictions(),
            !old(self).pending_tiles().contains(tile) || state == TileLoadState::Loading ==> final(self).handle_tiles()
                == old(self).handle_tiles() && final(self).pending_tiles() == old(self).pending_tiles()
                && final(self).ready_tiles() == old(self).ready_tiles() && final(self).spec_resident_bytes()
                == old(self).spec_resident_bytes(),
            old(self).pending_tiles().contains(tile) && state == TileLoadState::Loaded ==> final(self).handle_tiles()
                == old(self).handle_tiles() && final(self).pending_tiles() == old(self).pending_tiles().remove_value(
                tile,
            ) && final(self).ready_tiles() == old(self).ready_tiles().push(tile) && final(self).spec_resident_bytes()
                == old(self).spec_resident_bytes() + IMAGERY_TILE_BYTES,
            old(self).pending_tiles().contains(tile) && state == TileLoadState::Failed ==> final(self).handle_tiles()
                == old(self).handle_tiles().remove_value(tile) && final(self).pending_tiles()
                == old(self).pending_tiles().remove_value(tile) && final(self).ready_tiles() == old(self).ready_tiles()
                && final(self).spec_resident_bytes() == old(self).spec_resident_bytes(),
    {
        if state == TileLoadState::Loading || !contains_patch(self.pending.as_slice(), &tile) {
            return;
        }
        let ghost before = *self;
        let pending = remove_tile(&mut self.pending, &tile);
        proof {
            lemma_remove_value_props(before.pending@, tile);
        }
        if state == TileLoadState::Loaded {
            proof {
                assert(!before.ready@.contains(tile));
                assert((before.ready@.len() + 1 + self.pending@.len()) * IMAGERY_TILE_BYTES <= u64::MAX)
                    by (nonlinear_arith)
                    requires
                        (before.ready@.len() + before.pending@.len()) * IMAGERY_TILE_BYTES <= u64::MAX,
                        self.pending@.len() + 1 == before.pending@.len(),
                ;
                assert((before.ready@.len() + 1) * IMAGERY_TILE_BYTES == before.resident_bytes + IMAGERY_TILE_BYTES)
                    by (nonlinear_arith)
                    requires
                        before.resident_bytes == before.ready@.len() * IMAGERY_TILE_BYTES,
                ;
            }
            self.ready.push(tile);
            self.resident_bytes = self.resident_bytes + IMAGERY_TILE_BYTES;
            proof {
                assert forall|a: int, b: int| 0 <= a < b < self.ready@.len() implies self.ready@[a] != self.ready@[b] by {
                    if b == before.ready@.len() {
                        assert(before.ready@.contains(self.ready@[a]));
                    }
                }
                assert forall|t: TerrainPatch| #[trigger] self.ready@.contains(t) implies self.handles@.contains(t)
                    && !self.pending@.contains(t) by {
                    if t != tile {
                        let k = choose|k: int| 0 <= k < self.ready@.len() && #[trigger] self.ready@[k] == t;
                        assert(before.ready@[k] == t);
                        assert(before.ready_tiles().contains(t));
                    } else {
                        assert(before.pending@.contains(tile));
                    }
                }
                assert forall|t: TerrainPatch| #[trigger] self.pending@.contains(t) implies self.handles@.contains(t) by {
                    assert(before.pending@.contains(t));
                }
            }
        } else {
            let handles = remove_tile(&mut self.handles, &tile);
            proof {
                lemma_remove_value_props(before.handles@, tile);
                assert forall|t: TerrainPatch| #[trigger] self.pending@.contains(t) implies self.handles@.contains(t) by {
                    assert(before.pending@.contains(t));
                    assert(t != tile);
                }
                assert forall|t: TerrainPatch| #[trigger] self.ready@.contains(t) implies self.handles@.contains(t)
                    && !self.pending@.contains(t) by {
                    assert(t != tile);
                }
                assert((self.ready@.len() + self.pending@.len()) * IMAGERY_TILE_BYTES <= (before.ready@.len()
                    + before.pending@.len()) * IMAGERY_TILE_BYTES) by (nonlinear_arith)
                    requires
                        self.pending@.len() <= before.pending@.len(),
                        self.ready@.len() == before.ready@.len(),
                ;
            }
        }
        proof {
            if state == TileLoadState::Loaded {
                assert((self.ready@.len() + self.pending@.len()) * IMAGERY_TILE_BYTES <= u64::MAX);
            }
        }
    }

    /// Release every tile with a handle that is no longer desired: its handle,
    /// request and residency go, and the eviction count grows by one per tile.
    /// Returns the evicted tiles: the caller drops their handles.
    pub fn evict_undesired(&mut self, desired: &[TerrainPatch]) -> (evicted: Vec<TerrainPatch>)
        requires
            old(self).wf(),
            old(self).spec_evictions() + old(self).handle_tiles().len() <= u64::MAX,
        ensures
            final(self).wf(),
            evicted@ == old(self).handle_tiles().filter(|t: TerrainPatch| !desired@.contains(t)),
            final(self).handle_tiles() == old(self).handle_tiles().filter(|t: TerrainPatch| desired@.contains(t)),
            final(self).pending_tiles() == old(self).pending_tiles().filter(|t: TerrainPatch| desired@.contains(t)),
            final(self).ready_tiles() == old(self).ready_tiles().filter(|t: TerrainPatch| desired@.contains(t)),
            final(self).spec_evictions() == old(self).spec_evictions() + evicted@.len(),
            final(self).spec_budget_bytes() == old(self).spec_budget_bytes(),
    {
        let ghost in_desired = |t: TerrainPatch| desired@.contains(t);
        let ghost not_desired = |t: TerrainPatch| !desired@.contains(t);
        let evicted = keep_tiles(self.handles.as_slice(), desired, false);
        let handles = keep_tiles(self.handles.as_slice(), desired, true);
        let pending = keep_tiles(self.pending.as_slice(), desired, true);
        let ready = keep_tiles(self.ready.as_slice(), desired, true);
        proof {
            broadcast use vstd::seq_lib::group_filter_ensures;
            assert(in_desired == |t: TerrainPatch| desired@.contains(t) == true);
            assert(not_desired == |t: TerrainPatch| desired@.contains(t) == false);
            lemma_filter_distinct(self.handles@, in_desired);
            lemma_filter_distinct(self.pending@, in_desired);
            lemma_filter_distinct(self.ready@, in_desired);
            self.handles@.lemma_filter_len(not_desired);
            assert forall|t: TerrainPatch| #[trigger] pending@.contains(t) implies handles@.contains(t) by {
                lemma_filter_member(self.pending@, in_desired, t);
                assert(self.pending_tiles().contains(t));
                let k = choose|k: int| 0 <= k < self.handles@.len() && #[trigger] self.handles@[k] == t;
                self.handles@.lemma_filter_contains(in_desired, k);
            }
            assert forall|t: TerrainPatch| #[trigger] ready@.contains(t) implies handles@.contains(t) && !pending@.contains(
                t,
            ) by {
                lemma_filter_member(self.ready@, in_desired, t);
                assert(self.ready_tiles().contains(t));
                let k = choose|k: int| 0 <= k < self.handles@.len() && #[trigger] self.handles@[k] == t;
                self.handles@.lemma_filter_contains(in_desired, k);
                if pending@.contains(t) {
                    lemma_filter_member(self.pending@, in_desired, t);
                }
            }
        }
        let ready_len = ready.len();
        proof {
            self.ready@.lemma_filter_len(in_desired);
            self.pending@.lemma_filter_len(in_desired);
            assert(ready_len * IMAGERY_TILE_BYTES <= self.resident_bytes) by (nonlinear_arith)
                requires
                    ready_len <= self.ready@.len(),
                    self.resident_bytes == self.ready@.len() * IMAGERY_TILE_BYTES,
            ;
            assert((ready@.len() + pending@.len()) * IMAGERY_TILE_BYTES <= (self.ready@.len() + self.pending@.len())
                * IMAGERY_TILE_BYTES) by (nonlinear_arith)
                requires
                    ready@.len() <= self.ready@.len(),
                    pending@.len() <= self.pending@.len(),
            ;
        }
        self.resident_bytes = ready_len as u64 * IMAGERY_TILE_BYTES;
        self.evictions = self.evictions + evicted.len() as u64;
        self.handles = handles;
        self.pending = pending;
        self.ready = ready;
        evicted
    }
}

/// `tiles` without `tile`, the order of the others kept; `tile` must occur.
fn remove_tile(tiles: &mut Vec<TerrainPatch>, tile: &TerrainPatch) -> (r: ())
    requires
        old(tiles)@.contains(*tile),
        distinct_patches(old(tiles)@),
    ensures
        final(tiles)@ == old(tiles)@.remove_value(*tile),
{
    let mut i: usize = 0;
    while i < tiles.len()
        invariant
            i <= tiles@.len(),
            tiles@ == old(tiles)@,
            forall|j: int| 0 <= j < i ==> tiles@[j] != *tile,
        decreases tiles@.len() - i,
    {
        if tiles[i] == *tile {
            let ghost before = tiles@;
            tiles.remove(i);
            proof {
                before.index_of_first_ensures(*tile);
                assert(before.index_of_first(*tile) == Some(i as int));
            }
            return;
        }
        i = i + 1;
    }
}

proof fn lemma_remove_value_props(s: Seq<TerrainPatch>, t: TerrainPatch)
    requires
        s.contains(t),
        distinct_patches(s),
    ensures
        s.remove_value(t).len() + 1 == s.len(),
        distinct_patches(s.remove_value(t)),
        !s.remove_value(t).contains(t),
        forall|u: TerrainPatch| u != t ==> (#[trigger] s.remove_value(t).contains(u) <==> s.contains(u)),
{
    s.index_of_first_ensures(t);
    let i = s.index_of_first(t).unwrap();
    let r = s.remove_value(t);
    assert(r == s.remove(i));
    assert forall|u: TerrainPatch| u != t implies (#[trigger] r.contains(u) <==> s.contains(u)) by {
        if s.contains(u) {
            let k = choose|k: int| 0 <= k < s.len() && #[trigger] s[k] == u;
            if k < i {
                assert(r[k] == u);
            } else {
                assert(k != i);
                assert(r[k - 1] == u);
            }
        }
    }
    assert(!r.contains(t)) by {
        if r.contains(t) {
            let k = choose|k: int| 0 <= k < r.len() && #[trigger] r[k] == t;
            if k < i {
                assert(s[k] == t);
            } else {
                assert(s[k + 1] == t);
            }
        }
    }
}

proof fn lemma_filter_member(s: Seq<TerrainPatch>, p: spec_fn(TerrainPatch) -> bool, t: TerrainPatch)
    requires
        s.filter(p).contains(t),
    ensures
        s.contains(t),
        p(t),
{
    s.lemma_filter_contains_rev(p, t);
    let i = choose|i: int| 0 <= i < s.filter(p).len() && #[trigger] s.filter(p)[i] == t;
    s.lemma_filter_pred(p, i);
}

proof fn lemma_filter_distinct(s: Seq<TerrainPatch>, p: spec_fn(TerrainPatch) -> bool)
    requires
        distinct_patches(s),
    ensures
        distinct_patches(s.filter(p)),
    decreases s.len(),
{
    reveal_with_fuel(Seq::<_>::filter, 1);
    if s.len() > 0 {
        lemma_filter_distinct(s.drop_last(), p);
        let f = s.drop_last().filter(p);
        if p(s.last()) {
            assert forall|a: int, b: int| 0 <= a < b < f.push(s.last()).len() implies f.push(s.last())[a] != f.push(
                s.last(),
            )[b] by {
                if b == f.len() {
                    assert(f.contains(f[a]));
                    s.drop_last().lemma_filter_contains_rev(p, f[a]);
                    let k = choose|k: int| 0 <= k < s.drop_last().len() && #[trigger] s.drop_last()[k] == f[a];
                    assert(s[k] != s[s.len() - 1]);
                }
            }
        }
    }
}

/// The tiles of `tiles`, in order, that are (`keep_desired`) or are not
/// (`!keep_desired`) in `desired`.
fn keep_tiles(tiles: &[TerrainPatch], desired: &[TerrainPatch], keep_desired: bool) -> (r: Vec<TerrainPatch>)
    ensures
        r@ == tiles@.filter(|t: TerrainPatch| desired@.contains(t) == keep_desired),
{
    let ghost p = |t: TerrainPatch| desired@.contains(t) == keep_desired;
    let mut r: Vec<TerrainPatch> = Vec::new();
    let mut i: usize = 0;
    while i < tiles.len()
        invariant
            i <= tiles@.len(),
            forall|t: TerrainPatch| #[trigger] p(t) == (desired@.contains(t) == keep_desired),
            r@ == tiles@.subrange(0, i as int).filter(p),
        decreases tiles@.len() - i,
    {
        let tile = tiles[i];
        proof {
            reveal_with_fuel(Seq::<_>::filter, 1);
            assert(tiles@.subrange(0, i + 1).drop_last() == tiles@.subrange(0, i as int));
            assert(tiles@.subrange(0, i + 1).filter(p) == if p(tile) {
                tiles@.subrange(0, i as int).filter(p).push(tile)
            } else {
                tiles@.subrange(0, i as int).filter(p)
            });
        }
        if contains_patch(desired, &tile) == keep_desired {
            r.push(tile);
        }
        i = i + 1;
    }
    proof {
        assert(tiles@.subrange(0, tiles@.len() as int) == tiles@);
        assert(p == |t: TerrainPatch| desired@.contains(t) == keep_desired);
    }
    r
}

} // verus!
