//! What the world is asked to show or hide when markers are switched on and
//! off: which markers' POIs to spawn or despawn, and how each POI and trail
//! of a marker is drawn on the current map.

use vstd::prelude::*;
use crate::pathing::enabled::{EnabledMarkers, MarkerEvent, id_view, copy_id};
use crate::pathing::model::{Behavior, opt_view};
use crate::pathing::name::{FullMarkerId, PackId};
use crate::pathing::pack::{Marker, MarkerPack, Poi, Route, find_spec, names_of};
use crate::text::{owned, same_text};

verus! {

/// `p` is the first of `packs` whose identifier is `pack_id`.
pub open spec fn first_pack(packs: Seq<(PackId, MarkerPack)>, pack_id: Seq<char>, p: int) -> bool {
    &&& 0 <= p < packs.len()
    &&& packs[p].0.0@ == pack_id
    &&& forall|k: int| 0 <= k < p ==> #[trigger] packs[k].0.0@ != pack_id
}

/// The node that `id` designates among the loaded `packs`: the place of the
/// first pack with `id`'s pack identifier, and the node that `id`'s marker
/// name designates in that pack; `None` where no pack has that identifier
/// or the name designates nothing in it.
pub fn find_marker(packs: &Vec<(PackId, MarkerPack)>, id: &FullMarkerId) -> (r: Option<(usize, usize)>)
    requires
        forall|k: int| 0 <= k < packs@.len() ==> (#[trigger] packs@[k]).1.wf(),
    ensures
        r matches Some((p, n)) ==> first_pack(packs@, id.pack_id.0@, p as int) && find_spec(
            packs@[p as int].1.links(),
            names_of(packs@[p as int].1.markers()),
            id.marker_name@,
        ) == Some(n),
        r is None ==> forall|p: int|
            #[trigger] first_pack(packs@, id.pack_id.0@, p) ==> find_spec(
                packs@[p].1.links(),
                names_of(packs@[p].1.markers()),
                id.marker_name@,
            ) is None,
{
    let mut p: usize = 0;
    while p < packs.len()
        invariant
            p <= packs@.len(),
            forall|k: int| 0 <= k < packs@.len() ==> (#[trigger] packs@[k]).1.wf(),
            forall|k: int| 0 <= k < p ==> #[trigger] packs@[k].0.0@ != id.pack_id.0@,
        decreases packs@.len() - p,
    {
        if same_text(packs[p].0.0.as_str(), id.pack_id.0.as_str()) {
            let pack = &packs[p].1;
            proof {
                assert(packs@[p as int].1.wf());
            }
            return match pack.find_by_name(&id.marker_name) {
                Some(n) => Some((p, n)),
                None => {
                    proof {
                        assert forall|q: int| #[trigger] first_pack(packs@, id.pack_id.0@, q) implies q
                            == p by {
                            if q < p {
                                assert(packs@[q].0.0@ != id.pack_id.0@);
                            } else if q > p {
                                assert(packs@[p as int].0.0@ != id.pack_id.0@);
                            }
                        }
                    }
                    None
                },
            };
        }
        p = p + 1;
    }
    None
}

/// A request to the POI layer.
pub enum PoiCommand {
    /// Show the POIs of this marker.
    Spawn(FullMarkerId),
    /// Remove the POIs of this marker.
    Despawn(FullMarkerId),
}

/// The markers that a list of requests names, in order.
pub open spec fn despawned(cs: Seq<PoiCommand>) -> Seq<(Seq<char>, Seq<Seq<char>>)> {
    cs.map_values(|c: PoiCommand| match c {
        PoiCommand::Despawn(id) => id_view(id),
        PoiCommand::Spawn(id) => id_view(id),
    })
}

/// The requests that one marker event gives, read against the markers that
/// were enabled before it: enabling a marker spawns its POIs, disabling it
/// despawns them, and disabling all despawns those of every enabled marker.
pub fn poi_commands(enabled: &EnabledMarkers, event: &MarkerEvent) -> (r: Vec<PoiCommand>)
    requires
        enabled.wf(),
    ensures
        match *event {
            MarkerEvent::Enable(id) => {
                &&& r@.len() == 1
                &&& (r@[0] matches PoiCommand::Spawn(x) && id_view(x) == id_view(id))
            },
            MarkerEvent::Disable(id) => {
                &&& r@.len() == 1
                &&& (r@[0] matches PoiCommand::Despawn(x) && id_view(x) == id_view(id))
            },
            MarkerEvent::DisableAll => {
                &&& forall|k: int| 0 <= k < r@.len() ==> #[trigger] r@[k] is Despawn
                &&& despawned(r@).no_duplicates()
                &&& despawned(r@).to_set() == enabled@
            },
        },
{
    match event {
        MarkerEvent::Enable(id) => {
            let mut r = Vec::new();
            r.push(PoiCommand::Spawn(copy_id(id)));
            r
        },
        MarkerEvent::Disable(id) => {
            let mut r = Vec::new();
            r.push(PoiCommand::Despawn(copy_id(id)));
            r
        },
        MarkerEvent::DisableAll => {
            let ids = enabled.to_vec();
            let ghost vs = ids@.map_values(|id: FullMarkerId| id_view(id));
            let mut r: Vec<PoiCommand> = Vec::new();
            let mut i: usize = 0;
            while i < ids.len()
                invariant
                    i <= ids@.len(),
                    vs == ids@.map_values(|id: FullMarkerId| id_view(id)),
                    r@.len() == i,
                    forall|k: int| 0 <= k < i ==> #[trigger] r@[k] is Despawn,
                    despawned(r@) == vs.take(i as int),
                decreases ids@.len() - i,
            {
                let ghost before = r@;
                let c = copy_id(&ids[i]);
                r.push(PoiCommand::Despawn(c));
                proof {
                    assert(r@ =~= before.push(PoiCommand::Despawn(c)));
                    assert(despawned(r@) =~= despawned(before).push(id_view(c)));
                    assert(vs.take(i + 1) =~= vs.take(i as int).push(vs[i as int]));
                }
                i = i + 1;
            }
            assert(vs.take(i as int) =~= vs);
            r
        },
    }
}

/// The positions in `pois` of those shown on map `map_id`, in order.
pub open spec fn shown_on(pois: Seq<Poi>, map_id: u32) -> Seq<int>
    decreases pois.len(),
{
    if pois.len() == 0 {
        Seq::empty()
    } else {
        let rest = shown_on(pois.drop_last(), map_id);
        if pois.last().map_id == Some(map_id) {
            rest.push(pois.len() - 1)
        } else {
            rest
        }
    }
}

/// The icon a POI is drawn with: its own, else its marker's.
pub open spec fn icon_of(poi: Poi, marker: Marker) -> Option<Seq<char>> {
    match poi.icon_file {
        Some(f) => Some(f@),
        None => opt_view(marker.icon_file),
    }
}

/// Whether a marker's POIs vanish when the player comes near them.
pub open spec fn vanishes_nearby(b: Option<Behavior>) -> bool {
    b == Some(Behavior::ReappearDaily) || b == Some(Behavior::DisappearOnUse)
}

/// A POI is shown on a map exactly when its map id is that map, and the
/// POIs shown keep their order in the marker's list.
pub proof fn law_shown_on(xs: Seq<Poi>, map_id: u32)
    ensures
        forall|k: int| #[trigger] shown_on(xs, map_id).contains(k) <==> (0 <= k < xs.len() && xs[k].map_id == Some(map_id)),
        forall|i: int, j: int|
            0 <= i < j < shown_on(xs, map_id).len() ==> #[trigger] shown_on(xs, map_id)[i] < #[trigger] shown_on(
                xs,
                map_id,
            )[j],
    decreases xs.len(),
{
    if xs.len() > 0 {
        let init = xs.drop_last();
        law_shown_on(init, map_id);
        let r0 = shown_on(init, map_id);
        let r = shown_on(xs, map_id);
        assert forall|k: int| #[trigger] r.contains(k) <==> (0 <= k < xs.len() && xs[k].map_id == Some(map_id)) by {
            if 0 <= k < init.len() {
                assert(init[k] == xs[k]);
            }
            if r0.contains(k) {
                let q = choose|q: int| 0 <= q < r0.len() && r0[q] == k;
                assert(r[q] == k);
            }
            if r.contains(k) && k != xs.len() - 1 {
                let q = choose|q: int| 0 <= q < r.len() && r[q] == k;
                if q < r0.len() {
                    assert(r0[q] == k);
                }
            }
            if k == xs.len() - 1 && xs[k].map_id == Some(map_id) {
                assert(r[r.len() - 1] == k);
            }
        }
        assert forall|i: int, j: int| 0 <= i < j < r.len() implies #[trigger] r[i] < #[trigger] r[j] by {
            if j < r0.len() {
                assert(r[i] == r0[i] && r[j] == r0[j]);
            } else {
                assert(r0.contains(r[i]) || i >= r0.len());
                if i < r0.len() {
                    assert(r[i] == r0[i]);
                    assert(r0.contains(r0[i]));
                }
            }
        }
    }
}

/// How one POI of a marker is to be shown.
pub struct PoiSpawn {
    /// The POI's position in the marker's list.
    pub poi: usize,
    /// The icon file to draw it with, if any.
    pub icon_file: Option<String>,
    /// It vanishes when the player comes near.
    pub disappear_nearby: bool,
}

/// A copy of an optional file name.
fn copy_opt(o: &Option<String>) -> (r: Option<String>)
    ensures
        opt_view(r) == opt_view(*o),
{
    match o {
        Some(s) => Some(owned(s.as_str())),
        None => None,
    }
}

/// How each POI of `marker` that belongs on map `map_id` is to be shown,
/// in the marker's order; the others are left out.
pub fn poi_spawns(marker: &Marker, map_id: u32) -> (r: Vec<PoiSpawn>)
    ensures
        r@.len() == shown_on(marker.pois@, map_id).len(),
        forall|k: int|
            0 <= k < r@.len() ==> {
                &&& #[trigger] r@[k].poi == shown_on(marker.pois@, map_id)[k]
                &&& opt_view(r@[k].icon_file) == icon_of(marker.pois@[r@[k].poi as int], *marker)
                &&& r@[k].disappear_nearby == vanishes_nearby(marker.behavior)
            },
{
    let disappear = match marker.behavior {
        Some(Behavior::ReappearDaily) => true,
        Some(Behavior::DisappearOnUse) => true,
        _ => false,
    };
    let ghost pois = marker.pois@;
    let mut r: Vec<PoiSpawn> = Vec::new();
    let mut i: usize = 0;
    while i < marker.pois.len()
        invariant
            i <= pois.len(),
            pois == marker.pois@,
            disappear == vanishes_nearby(marker.behavior),
            r@.len() == shown_on(pois.take(i as int), map_id).len(),
            forall|k: int|
                0 <= k < r@.len() ==> {
                    &&& #[trigger] r@[k].poi == shown_on(pois.take(i as int), map_id)[k]
                    &&& opt_view(r@[k].icon_file) == icon_of(pois[r@[k].poi as int], *marker)
                    &&& r@[k].disappear_nearby == disappear
                },
        decreases pois.len() - i,
    {
        let poi = &marker.pois[i];
        assert(pois.take(i + 1).drop_last() =~= pois.take(i as int));
        if poi.map_id == Some(map_id) {
            let icon = match &poi.icon_file {
                Some(f) => Some(owned(f.as_str())),
                None => copy_opt(&marker.icon_file),
            };
            r.push(PoiSpawn { poi: i, icon_file: icon, disappear_nearby: disappear });
        }
        i = i + 1;
    }
    assert(pois.take(i as int) =~= pois);
    r
}

/// The positions in `trails` of those on map `map_id`, in order.
pub open spec fn trails_on(trails: Seq<Route>, map_id: u32) -> Seq<int>
    decreases trails.len(),
{
    if trails.len() == 0 {
        Seq::empty()
    } else {
        let rest = trails_on(trails.drop_last(), map_id);
        if trails.last().map_id == map_id {
            rest.push(trails.len() - 1)
        } else {
            rest
        }
    }
}

/// A trail is drawn on a map exactly when it belongs to that map, and the
/// trails drawn keep their order in the marker's list.
pub proof fn law_trails_on(xs: Seq<Route>, map_id: u32)
    ensures
        forall|k: int| #[trigger] trails_on(xs, map_id).contains(k) <==> (0 <= k < xs.len() && xs[k].map_id == map_id),
        forall|i: int, j: int|
            0 <= i < j < trails_on(xs, map_id).len() ==> #[trigger] trails_on(xs, map_id)[i] < #[trigger] trails_on(
                xs,
                map_id,
            )[j],
    decreases xs.len(),
{
    if xs.len() > 0 {
        let init = xs.drop_last();
        law_trails_on(init, map_id);
        let r0 = trails_on(init, map_id);
        let r = trails_on(xs, map_id);
        assert forall|k: int| #[trigger] r.contains(k) <==> (0 <= k < xs.len() && xs[k].map_id == map_id) by {
            if 0 <= k < init.len() {
                assert(init[k] == xs[k]);
            }
            if r0.contains(k) {
                let q = choose|q: int| 0 <= q < r0.len() && r0[q] == k;
                assert(r[q] == k);
            }
            if r.contains(k) && k != xs.len() - 1 {
                let q = choose|q: int| 0 <= q < r.len() && r[q] == k;
                if q < r0.len() {
                    assert(r0[q] == k);
                }
            }
            if k == xs.len() - 1 && xs[k].map_id == map_id {
                assert(r[r.len() - 1] == k);
            }
        }
        assert forall|i: int, j: int| 0 <= i < j < r.len() implies #[trigger] r[i] < #[trigger] r[j] by {
            if j < r0.len() {
                assert(r[i] == r0[i] && r[j] == r0[j]);
            } else {
                assert(r0.contains(r[i]) || i >= r0.len());
                if i < r0.len() {
                    assert(r[i] == r0[i]);
                    assert(r0.contains(r0[i]));
                }
            }
        }
    }
}

/// How one trail of a marker is to be drawn.
pub struct TrailSpawn {
    /// The trail's position in the marker's list.
    pub trail: usize,
    /// Its points, last first (bits of x, y and z).
    pub path: Vec<[u32; 3]>,
    /// The texture to draw it with.
    pub texture_file: String,
}

/// A trail's points, last first.
fn reversed(path: &Vec<[u32; 3]>) -> (r: Vec<[u32; 3]>)
    ensures
        r@ == path@.reverse(),
{
    let mut r: Vec<[u32; 3]> = Vec::new();
    let mut i: usize = path.len();
    while i > 0
        invariant
            i <= path@.len(),
            r@ == path@.subrange(i as int, path@.len() as int).reverse(),
        decreases i,
    {
        i = i - 1;
        r.push(path[i]);
        assert(r@ =~= path@.subrange(i as int, path@.len() as int).reverse());
    }
    assert(path@.subrange(0, path@.len() as int) =~= path@);
    r
}

/// How each trail of `marker` on map `map_id` is to be drawn, in the
/// marker's order: its points from last to first and its texture.
pub fn trail_spawns(marker: &Marker, map_id: u32) -> (r: Vec<TrailSpawn>)
    ensures
        r@.len() == trails_on(marker.trails@, map_id).len(),
        forall|k: int|
            0 <= k < r@.len() ==> {
                &&& #[trigger] r@[k].trail == trails_on(marker.trails@, map_id)[k]
                &&& r@[k].path@ == marker.trails@[r@[k].trail as int].path@.reverse()
                &&& r@[k].texture_file@ == marker.trails@[r@[k].trail as int].texture_file@
            },
{
    let ghost trails = marker.trails@;
    let mut r: Vec<TrailSpawn> = Vec::new();
    let mut i: usize = 0;
    while i < marker.trails.len()
        invariant
            i <= trails.len(),
            trails == marker.trails@,
            r@.len() == trails_on(trails.take(i as int), map_id).len(),
            forall|k: int|
                0 <= k < r@.len() ==> {
                    &&& #[trigger] r@[k].trail == trails_on(trails.take(i as int), map_id)[k]
                    &&& r@[k].path@ == trails[r@[k].trail as int].path@.reverse()
                    &&& r@[k].texture_file@ == trails[r@[k].trail as int].texture_file@
                },
        decreases trails.len() - i,
    {
        let trail = &marker.trails[i];
        assert(trails.take(i + 1).drop_last() =~= trails.take(i as int));
        if trail.map_id == map_id {
            r.push(
                TrailSpawn {
                    trail: i,
                    path: reversed(&trail.path),
                    texture_file: owned(trail.texture_file.as_str()),
                },
            );
        }
        i = i + 1;
    }
    assert(trails.take(i as int) =~= trails);
    r
}

} // verus!
