//! The markers the player has switched on, and the events that change them.

use vstd::prelude::*;
use crate::pathing::name::{FullMarkerId, MarkerName, PackId, names_equal};
use crate::text::{same_text, owned, strings_view};

verus! {

/// A marker as a value: its pack's name and its own name.
pub open spec fn id_view(id: FullMarkerId) -> (Seq<char>, Seq<Seq<char>>) {
    (id.pack_id.0@, id.marker_name@)
}

/// A change to the set of enabled markers.
pub enum MarkerEvent {
    Enable(FullMarkerId),
    Disable(FullMarkerId),
    DisableAll,
}

/// What an event does to the set of enabled markers.
pub open spec fn apply_view(s: Set<(Seq<char>, Seq<Seq<char>>)>, e: MarkerEvent) -> Set<
    (Seq<char>, Seq<Seq<char>>),
> {
    match e {
        MarkerEvent::Enable(id) => s.insert(id_view(id)),
        MarkerEvent::Disable(id) => s.remove(id_view(id)),
        MarkerEvent::DisableAll => Set::empty(),
    }
}

/// The markers that are switched on, each once.
pub struct EnabledMarkers {
    ids: Vec<FullMarkerId>,
}

impl View for EnabledMarkers {
    type V = Set<(Seq<char>, Seq<Seq<char>>)>;

    closed spec fn view(&self) -> Set<(Seq<char>, Seq<Seq<char>>)> {
        self.ids@.map_values(|id: FullMarkerId| id_view(id)).to_set()
    }
}

/// Whether two markers are the same one.
fn same_marker(a: &FullMarkerId, b: &FullMarkerId) -> (r: bool)
    ensures
        r == (id_view(*a) == id_view(*b)),
{
    same_text(a.pack_id.0.as_str(), b.pack_id.0.as_str()) && names_equal(
        &a.marker_name.0,
        &b.marker_name.0,
    )
}

/// A copy of a marker's identifier.
pub fn copy_id(id: &FullMarkerId) -> (r: FullMarkerId)
    ensures
        id_view(r) == id_view(*id),
{
    let src = &id.marker_name.0;
    let mut parts: Vec<String> = Vec::new();
    let mut i: usize = 0;
    while i < src.len()
        invariant
            i <= src@.len(),
            strings_view(parts@) == strings_view(src@.take(i as int)),
        decreases src@.len() - i,
    {
        let ghost before = parts@;
        parts.push(owned(src[i].as_str()));
        proof {
            assert(src@.take(i + 1) =~= src@.take(i as int).push(src@[i as int]));
            assert(strings_view(before.push(parts@.last())) =~= strings_view(before).push(
                parts@.last()@,
            ));
            assert(parts@ =~= before.push(parts@.last()));
            assert(strings_view(src@.take(i as int).push(src@[i as int])) =~= strings_view(
                src@.take(i as int),
            ).push(src@[i as int]@));
        }
        i = i + 1;
    }
    assert(src@.take(i as int) =~= src@);
    FullMarkerId {
        pack_id: PackId(owned(id.pack_id.0.as_str())),
        marker_name: MarkerName(parts),
    }
}

impl EnabledMarkers {
    /// No marker appears twice.
    pub closed spec fn wf(&self) -> bool {
        self.ids@.map_values(|id: FullMarkerId| id_view(id)).no_duplicates()
    }

    /// No marker enabled.
    pub fn new() -> (r: EnabledMarkers)
        ensures
            r.wf(),
            r@ == Set::<(Seq<char>, Seq<Seq<char>>)>::empty(),
    {
        let r = EnabledMarkers { ids: Vec::new() };
        assert(r.ids@.map_values(|id: FullMarkerId| id_view(id)) =~= Seq::empty());
        r
    }

    /// The position of `id`, if it is enabled.
    fn position(&self, id: &FullMarkerId) -> (r: Option<usize>)
        requires
            self.wf(),
        ensures
            r is None ==> !self@.contains(id_view(*id)),
            r matches Some(i) ==> i < self.ids@.len() && id_view(self.ids@[i as int]) == id_view(
                *id,
            ),
    {
        let ghost vs = self.ids@.map_values(|x: FullMarkerId| id_view(x));
        let mut i: usize = 0;
        while i < self.ids.len()
            invariant
                i <= self.ids@.len(),
                vs == self.ids@.map_values(|x: FullMarkerId| id_view(x)),
                forall|j: int| 0 <= j < i ==> vs[j] != id_view(*id),
            decreases self.ids@.len() - i,
        {
            if same_marker(&self.ids[i], id) {
                return Some(i);
            }
            i = i + 1;
        }
        proof {
            if vs.to_set().contains(id_view(*id)) {
                let j = choose|j: int| 0 <= j < vs.len() && vs[j] == id_view(*id);
                assert(vs[j] != id_view(*id));
            }
        }
        None
    }

    /// Whether `id` is enabled.
    pub fn contains(&self, id: &FullMarkerId) -> (r: bool)
        requires
            self.wf(),
        ensures
            r == self@.contains(id_view(*id)),
    {
        match self.position(id) {
            Some(i) => {
                proof {
                    let vs = self.ids@.map_values(|x: FullMarkerId| id_view(x));
                    assert(vs[i as int] == id_view(*id));
                    assert(vs.to_set().contains(vs[i as int]));
                }
                true
            },
            None => false,
        }
    }

    /// The enabled markers, each once, in no particular order.
    pub fn to_vec(&self) -> (r: Vec<FullMarkerId>)
        requires
            self.wf(),
        ensures
            r@.map_values(|id: FullMarkerId| id_view(id)).no_duplicates(),
            r@.map_values(|id: FullMarkerId| id_view(id)).to_set() == self@,
    {
        let mut r: Vec<FullMarkerId> = Vec::new();
        let mut i: usize = 0;
        while i < self.ids.len()
            invariant
                i <= self.ids@.len(),
                r@.map_values(|id: FullMarkerId| id_view(id)) == self.ids@.take(i as int).map_values(
                    |id: FullMarkerId| id_view(id),
                ),
            decreases self.ids@.len() - i,
        {
            let ghost before = r@;
            let c = copy_id(&self.ids[i]);
            r.push(c);
            proof {
                let f = |id: FullMarkerId| id_view(id);
                assert(self.ids@.take(i + 1) =~= self.ids@.take(i as int).push(self.ids@[i as int]));
                assert(r@ =~= before.push(c));
                assert(before.push(c).map_values(f) =~= before.map_values(f).push(f(c)));
                assert(self.ids@.take(i as int).push(self.ids@[i as int]).map_values(f)
                    =~= self.ids@.take(i as int).map_values(f).push(f(self.ids@[i as int])));
            }
            i = i + 1;
        }
        assert(self.ids@.take(i as int) =~= self.ids@);
        r
    }

    /// Applies one event: `Enable` adds the marker, `Disable` removes it,
    /// `DisableAll` removes every marker.
    pub fn apply(&mut self, event: MarkerEvent)
        requires
            old(self).wf(),
        ensures
            final(self).wf(),
            final(self)@ == apply_view(old(self)@, event),
    {
        let ghost e = event;
        let ghost before = self.ids@;
        match event {
            MarkerEvent::Enable(id) => {
                let ghost v = id_view(id);
                match self.position(&id) {
                    Some(i) => {
                        proof {
                            let vs = before.map_values(|x: FullMarkerId| id_view(x));
                            assert(vs.to_set().contains(vs[i as int]));
                            assert(self@ =~= self@.insert(v));
                        }
                    },
                    None => {
                        self.ids.push(id);
                        proof {
                            let vs = before.map_values(|x: FullMarkerId| id_view(x));
                            let ws = self.ids@.map_values(|x: FullMarkerId| id_view(x));
                            assert(ws =~= vs.push(v));
                            vs.lemma_push_to_set_commute(v);
                            assert(!vs.contains(v));
                            assert(ws.no_duplicates()) by {
                                assert forall|a: int, b: int|
                                    0 <= a < ws.len() && 0 <= b < ws.len() && a != b implies ws[a]
                                    != ws[b] by {
                                    if a == vs.len() as int {
                                        assert(ws[b] == vs[b]);
                                    } else if b == vs.len() as int {
                                        assert(ws[a] == vs[a]);
                                    } else {
                                        assert(ws[a] == vs[a] && ws[b] == vs[b]);
                                    }
                                }
                            }
                        }
                    },
                }
            },
            MarkerEvent::Disable(id) => {
                let ghost v = id_view(id);
                match self.position(&id) {
                    Some(i) => {
                        self.ids.remove(i);
                        proof {
                            let vs = before.map_values(|x: FullMarkerId| id_view(x));
                            let ws = self.ids@.map_values(|x: FullMarkerId| id_view(x));
                            assert(ws =~= vs.remove(i as int));
                            assert(ws.no_duplicates()) by {
                                assert forall|a: int, b: int|
                                    0 <= a < ws.len() && 0 <= b < ws.len() && a != b implies ws[a]
                                    != ws[b] by {
                                    let a2 = if a < i {
                                        a
                                    } else {
                                        a + 1
                                    };
                                    let b2 = if b < i {
                                        b
                                    } else {
                                        b + 1
                                    };
                                    assert(ws[a] == vs[a2] && ws[b] == vs[b2]);
                                }
                            }
                            assert forall|x| ws.to_set().contains(x) <==> vs.to_set().remove(
                                v,
                            ).contains(x) by {
                                if ws.to_set().contains(x) {
                                    let k = choose|k: int| 0 <= k < ws.len() && ws[k] == x;
                                    let k2 = if k < i {
                                        k
                                    } else {
                                        k + 1
                                    };
                                    assert(vs[k2] == x);
                                    assert(k2 != i);
                                    assert(vs[i as int] == v);
                                    assert(vs[k2] != vs[i as int]);
                                }
                                if vs.to_set().remove(v).contains(x) {
                                    let k = choose|k: int| 0 <= k < vs.len() && vs[k] == x;
                                    assert(k != i);
                                    if k < i {
                                        assert(ws[k] == x);
                                    } else {
                                        assert(ws[k - 1] == x);
                                    }
                                }
                            }
                            assert(self@ =~= apply_view(old(self)@, e));
                        }
                    },
                    None => {
                        proof {
                            assert(self@ =~= self@.remove(v));
                        }
                    },
                }
            },
            MarkerEvent::DisableAll => {
                self.ids.clear();
                proof {
                    let ws = self.ids@.map_values(|x: FullMarkerId| id_view(x));
                    assert(ws =~= Seq::empty());
                    assert(self@ =~= Set::empty());
                }
            },
        }
    }
}

/// Enabling a marker twice is enabling it once.
pub proof fn law_enable_idempotent(s: Set<(Seq<char>, Seq<Seq<char>>)>, id: FullMarkerId)
    ensures
        apply_view(apply_view(s, MarkerEvent::Enable(id)), MarkerEvent::Enable(id)) == apply_view(
            s,
            MarkerEvent::Enable(id),
        ),
{
    assert(s.insert(id_view(id)).insert(id_view(id)) =~= s.insert(id_view(id)));
}

/// After `Enable` the marker is on, after `Disable` it is off, and the other
/// markers are as they were; after `DisableAll` nothing is on.
pub proof fn law_enable_disable(
    s: Set<(Seq<char>, Seq<Seq<char>>)>,
    id: FullMarkerId,
    other: (Seq<char>, Seq<Seq<char>>),
)
    ensures
        apply_view(s, MarkerEvent::Enable(id)).contains(id_view(id)),
        !apply_view(s, MarkerEvent::Disable(id)).contains(id_view(id)),
        other != id_view(id) ==> (apply_view(s, MarkerEvent::Enable(id)).contains(other)
            == s.contains(other) && apply_view(s, MarkerEvent::Disable(id)).contains(other)
            == s.contains(other)),
        apply_view(s, MarkerEvent::DisableAll).is_empty(),
{
}

/// Disabling a marker right after enabling it leaves it off, whether or not
/// it was on before.
pub proof fn law_enable_then_disable(s: Set<(Seq<char>, Seq<Seq<char>>)>, id: FullMarkerId)
    ensures
        apply_view(apply_view(s, MarkerEvent::Enable(id)), MarkerEvent::Disable(id)) == s.remove(
            id_view(id),
        ),
{
    assert(s.insert(id_view(id)).remove(id_view(id)) =~= s.remove(id_view(id)));
}

/// The set after a run of events, applied in order.
pub open spec fn apply_all_view(s: Set<(Seq<char>, Seq<Seq<char>>)>, events: Seq<MarkerEvent>) -> Set<
    (Seq<char>, Seq<Seq<char>>),
>
    decreases events.len(),
{
    if events.len() == 0 {
        s
    } else {
        apply_view(apply_all_view(s, events.drop_last()), events.last())
    }
}

/// Whether the last event of a run that concerns marker `v` switches it on
/// (`Some(true)`) or off (`Some(false)`); `None` if no event concerns it.
pub open spec fn last_say(events: Seq<MarkerEvent>, v: (Seq<char>, Seq<Seq<char>>)) -> Option<bool>
    decreases events.len(),
{
    if events.len() == 0 {
        None
    } else {
        match events.last() {
            MarkerEvent::Enable(id) if id_view(id) == v => Some(true),
            MarkerEvent::Disable(id) if id_view(id) == v => Some(false),
            MarkerEvent::DisableAll => Some(false),
            _ => last_say(events.drop_last(), v),
        }
    }
}

/// After a run of events, a marker is on exactly when the last event that
/// concerns it (its `Enable`, its `Disable`, or a `DisableAll`) is an
/// `Enable`, and as it was before when none concerns it.
pub proof fn law_events_fold(
    s: Set<(Seq<char>, Seq<Seq<char>>)>,
    events: Seq<MarkerEvent>,
    v: (Seq<char>, Seq<Seq<char>>),
)
    ensures
        apply_all_view(s, events).contains(v) == match last_say(events, v) {
            Some(on) => on,
            None => s.contains(v),
        },
    decreases events.len(),
{
    if events.len() > 0 {
        law_events_fold(s, events.drop_last(), v);
    }
}

/// A copy of an event.
fn copy_event(e: &MarkerEvent) -> (r: MarkerEvent)
    ensures
        match (*e, r) {
            (MarkerEvent::Enable(a), MarkerEvent::Enable(b)) => id_view(a) == id_view(b),
            (MarkerEvent::Disable(a), MarkerEvent::Disable(b)) => id_view(a) == id_view(b),
            (MarkerEvent::DisableAll, MarkerEvent::DisableAll) => true,
            _ => false,
        },
{
    match e {
        MarkerEvent::Enable(id) => MarkerEvent::Enable(copy_id(id)),
        MarkerEvent::Disable(id) => MarkerEvent::Disable(copy_id(id)),
        MarkerEvent::DisableAll => MarkerEvent::DisableAll,
    }
}

impl EnabledMarkers {
    /// Applies a run of events in order.
    pub fn apply_all(&mut self, events: &Vec<MarkerEvent>)
        requires
            old(self).wf(),
        ensures
            final(self).wf(),
            final(self)@ == apply_all_view(old(self)@, events@),
    {
        let mut i: usize = 0;
        while i < events.len()
            invariant
                self.wf(),
                i <= events@.len(),
                self@ == apply_all_view(old(self)@, events@.take(i as int)),
            decreases events@.len() - i,
        {
            let e = copy_event(&events[i]);
            let ghost before = self@;
            self.apply(e);
            proof {
                assert(events@.take(i + 1).drop_last() =~= events@.take(i as int));
                assert(apply_view(before, e) == apply_view(before, events@[i as int]));
            }
            i = i + 1;
        }
        assert(events@.take(i as int) =~= events@);
    }
}

} // verus!
