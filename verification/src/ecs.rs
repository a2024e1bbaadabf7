use vstd::prelude::*;
use crate::links::{
    append_link, lemma_links_below_kept, linked, links_below, links_view, partner, rewire, rewired,
};

verus! {

/// A position in the plane, with coordinates of scalar type `T`.
#[derive(Clone, Copy, Debug)]
pub struct Coords<T> {
    pub x: T,
    pub y: T,
}

/// A velocity in the plane, with components of scalar type `T`.
#[derive(Clone, Copy, Debug)]
pub struct Velocity<T> {
    pub x: T,
    pub y: T,
}

/// Entity/component store: entity `id` owns slot `id` of every column, and a
/// `None` slot means the entity lacks that component. `string` holds the ids
/// that the entity's colour string links it to.
pub struct ECS<T> {
    pub current: Vec<Option<Coords<T>>>,
    pub previous: Vec<Option<Coords<T>>>,
    pub velocity: Vec<Option<Velocity<T>>>,
    pub mass: Vec<Option<T>>,
    pub charge: Vec<Option<T>>,
    pub chroma: Vec<Option<T>>,
    pub string: Vec<Option<Vec<usize>>>,
    pub next_id: usize,
}

/// The previous positions once every entity with both a position and a
/// previous position has its position remembered as the previous one.
pub open spec fn stored_previous<T>(
    current: Seq<Option<Coords<T>>>,
    previous: Seq<Option<Coords<T>>>,
) -> Seq<Option<Coords<T>>> {
    Seq::new(
        previous.len(),
        |id: int|
            if current[id] is Some && previous[id] is Some {
                current[id]
            } else {
                previous[id]
            },
    )
}

/// Remembering positions sets the previous position of every entity that has
/// both positions to its current one and leaves every other entity's alone.
pub proof fn lemma_stored_previous_pointwise<T>(
    current: Seq<Option<Coords<T>>>,
    previous: Seq<Option<Coords<T>>>,
)
    requires
        current.len() == previous.len(),
    ensures
        stored_previous(current, previous).len() == previous.len(),
        forall|id: int|
            0 <= id < previous.len() && current[id] is Some && previous[id] is Some
                ==> #[trigger] stored_previous(current, previous)[id] == current[id],
        forall|id: int|
            0 <= id < previous.len() && !(current[id] is Some && previous[id] is Some)
                ==> #[trigger] stored_previous(current, previous)[id] == previous[id],
{
}

/// Remembering positions twice in a row is the same as doing it once.
pub proof fn lemma_stored_previous_idempotent<T>(
    current: Seq<Option<Coords<T>>>,
    previous: Seq<Option<Coords<T>>>,
)
    requires
        current.len() == previous.len(),
    ensures
        stored_previous(current, stored_previous(current, previous)) == stored_previous(
            current,
            previous,
        ),
{
    assert(stored_previous(current, stored_previous(current, previous)) =~= stored_previous(
        current,
        previous,
    ));
}

/// Whether `s` holds a link to something other than `i`.
pub open spec fn links_other_than(s: Seq<usize>, i: usize) -> bool {
    exists|k: int| 0 <= k < s.len() && s[k] != i
}

/// Whether `q` is the first link in `s` to something other than `i`.
pub open spec fn first_other_link(s: Seq<usize>, i: usize, q: usize) -> bool {
    exists|k: int| 0 <= k < s.len() && s[k] == q && q != i && forall|j: int| 0 <= j < k ==> s[j] == i
}

/// Whether the string has a link to something other than `i`.
pub open spec fn has_foreign_link(links: Option<Seq<usize>>, i: usize) -> bool {
    match links {
        Some(s) => links_other_than(s, i),
        None => false,
    }
}

/// Whether `q` is the string's first link to something other than `i`.
pub open spec fn is_partner(links: Option<Seq<usize>>, i: usize, q: usize) -> bool {
    match links {
        Some(s) => first_other_link(s, i, q),
        None => false,
    }
}

/// A string has a foreign link exactly when some link is not `i`, and the
/// partner is a link other than `i` with only links to `i` before it.
pub proof fn lemma_partner_specs(s: Seq<usize>, i: usize, q: usize)
    ensures
        has_foreign_link(Some(s), i) <==> exists|k: int| 0 <= k < s.len() && s[k] != i,
        !has_foreign_link(None, i),
        !is_partner(None, i, q),
        is_partner(Some(s), i, q) ==> q != i && s.contains(q),
        is_partner(Some(s), i, q) <==> exists|k: int|
            0 <= k < s.len() && s[k] == q && q != i && forall|j: int| 0 <= j < k ==> s[j] == i,
{
    if is_partner(Some(s), i, q) {
        let k = choose|k: int|
            0 <= k < s.len() && s[k] == q && q != i && forall|j: int| 0 <= j < k ==> s[j] == i;
        assert(s[k] == q);
    }
}

impl<T> ECS<T> {
    /// Every column has one slot per entity handed out so far.
    pub open spec fn wf(&self) -> bool {
        &&& self.current@.len() == self.next_id
        &&& self.previous@.len() == self.next_id
        &&& self.velocity@.len() == self.next_id
        &&& self.mass@.len() == self.next_id
        &&& self.charge@.len() == self.next_id
        &&& self.chroma@.len() == self.next_id
        &&& self.string@.len() == self.next_id
    }

    /// The links of entity `id`'s string, as a plain sequence.
    pub open spec fn links_of(&self, id: int) -> Option<Seq<usize>> {
        links_view(self.string@[id])
    }

    /// Every string, as plain sequences of links.
    pub open spec fn strings_view(&self) -> Seq<Option<Seq<usize>>> {
        self.string@.map_values(|l: Option<Vec<usize>>| links_view(l))
    }

    /// Every link of every string names an entity that has been handed out.
    pub open spec fn links_wf(&self) -> bool {
        forall|id: int|
            0 <= id < self.string@.len() ==> links_below(#[trigger] self.links_of(id), self.next_id as int)
    }

    /// Every column but the strings is as in `other`.
    pub open spec fn same_components(&self, other: &Self) -> bool {
        &&& self.current@ == other.current@
        &&& self.previous@ == other.previous@
        &&& self.velocity@ == other.velocity@
        &&& self.mass@ == other.mass@
        &&& self.charge@ == other.charge@
        &&& self.chroma@ == other.chroma@
        &&& self.next_id == other.next_id
    }

    /// An empty store.
    pub fn new() -> (ecs: Self)
        ensures
            ecs.wf(),
            ecs.links_wf(),
            ecs.next_id == 0,
    {
        Self {
            current: Vec::new(),
            previous: Vec::new(),
            velocity: Vec::new(),
            mass: Vec::new(),
            charge: Vec::new(),
            chroma: Vec::new(),
            string: Vec::new(),
            next_id: 0,
        }
    }
}

impl<T: Copy> ECS<T> {
    /// Adds an entity at `current` (which is also its previous position) with
    /// the given optional components, and returns its id: the number of
    /// entities handed out before it.
    pub fn spawn(
        &mut self,
        current: Coords<T>,
        vel: Option<Velocity<T>>,
        mass: Option<T>,
        charge: Option<T>,
        chroma: Option<T>,
        string: Option<Vec<usize>>,
    ) -> (id: usize)
        requires
            old(self).wf(),
            old(self).next_id < usize::MAX,
        ensures
            final(self).wf(),
            id == old(self).next_id,
            final(self).next_id == id + 1,
            final(self).current@ == old(self).current@.push(Some(current)),
            final(self).previous@ == old(self).previous@.push(Some(current)),
            final(self).velocity@ == old(self).velocity@.push(vel),
            final(self).mass@ == old(self).mass@.push(mass),
            final(self).charge@ == old(self).charge@.push(charge),
            final(self).chroma@ == old(self).chroma@.push(chroma),
            final(self).string@ == old(self).string@.push(string),
            final(self).strings_view() == old(self).strings_view().push(links_view(string)),
            old(self).links_wf() && links_below(links_view(string), id + 1) ==> final(self).links_wf(),
    {
        let id: usize = self.next_id;
        self.current.push(Some(current));
        self.previous.push(Some(current));
        self.velocity.push(vel);
        self.mass.push(mass);
        self.charge.push(charge);
        self.chroma.push(chroma);
        self.string.push(string);
        self.next_id = self.next_id + 1;
        assert forall|j: int| 0 <= j < self.string@.len() && old(self).links_wf() && links_below(links_view(string), id + 1) implies links_below(
            #[trigger] self.links_of(j),
            self.next_id as int,
        ) by {
            if j < id {
                assert(self.links_of(j) == old(self).links_of(j));
                assert(links_below(old(self).links_of(j), id as int));
            }
        }
        assert(self.strings_view() =~= old(self).strings_view().push(links_view(string)));
        id
    }

    /// Remembers the position of every entity that has both a position and a
    /// previous position, as the start of the next step.
    pub fn store_previous(&mut self)
        requires
            old(self).wf(),
        ensures
            final(self).wf(),
            final(self).current@ == old(self).current@,
            final(self).velocity@ == old(self).velocity@,
            final(self).mass@ == old(self).mass@,
            final(self).charge@ == old(self).charge@,
            final(self).chroma@ == old(self).chroma@,
            final(self).string@ == old(self).string@,
            final(self).next_id == old(self).next_id,
            final(self).previous@ == stored_previous(old(self).current@, old(self).previous@),
            final(self).previous@.len() == old(self).previous@.len(),
            forall|id: int|
                0 <= id < old(self).next_id && old(self).current@[id] is Some && old(
                    self,
                ).previous@[id] is Some ==> #[trigger] final(self).previous@[id] == old(
                    self,
                ).current@[id],
            forall|id: int|
                0 <= id < old(self).next_id && !(old(self).current@[id] is Some && old(
                    self,
                ).previous@[id] is Some) ==> #[trigger] final(self).previous@[id] == old(
                    self,
                ).previous@[id],
            final(self).links_wf() == old(self).links_wf(),
    {
        let n: usize = self.next_id;
        let mut id: usize = 0;
        while id < n
            invariant
                self.wf(),
                n == self.next_id,
                n == old(self).next_id,
                id <= n,
                self.current@ == old(self).current@,
                self.velocity@ == old(self).velocity@,
                self.mass@ == old(self).mass@,
                self.charge@ == old(self).charge@,
                self.chroma@ == old(self).chroma@,
                self.string@ == old(self).string@,
                forall|j: int|
                    0 <= j < id ==> #[trigger] self.previous@[j] == (if old(self).current@[j] is Some
                        && old(self).previous@[j] is Some {
                        old(self).current@[j]
                    } else {
                        old(self).previous@[j]
                    }),
                forall|j: int| id <= j < n ==> #[trigger] self.previous@[j] == old(self).previous@[j],
            decreases n - id,
        {
            let cur = self.current[id];
            if cur.is_some() && self.previous[id].is_some() {
                self.previous.set(id, cur);
            }
            id = id + 1;
        }
        assert(self.previous@ =~= stored_previous(old(self).current@, old(self).previous@));
        assert(self.string@ == old(self).string@ && self.next_id == old(self).next_id);
        proof {
        if old(self).links_wf() {
            assert forall|j: int| 0 <= j < self.string@.len() implies links_below(
                #[trigger] self.links_of(j),
                self.next_id as int,
            ) by {
                assert(links_below(old(self).links_of(j), old(self).next_id as int));
            }
        }
        if self.links_wf() {
            assert forall|j: int| 0 <= j < old(self).string@.len() implies links_below(
                #[trigger] old(self).links_of(j),
                old(self).next_id as int,
            ) by {
                assert(links_below(self.links_of(j), self.next_id as int));
            }
        }
        }
    }

    /// Removes entity `id` from the simulation: it loses its position,
    /// previous position, velocity, colour charge, electric charge and string.
    /// Its mass slot is kept as it was.
    pub fn despawn(&mut self, id: usize)
        requires
            old(self).wf(),
            id < old(self).next_id,
        ensures
            final(self).wf(),
            final(self).next_id == old(self).next_id,
            final(self).current@ == old(self).current@.update(id as int, None),
            final(self).previous@ == old(self).previous@.update(id as int, None),
            final(self).velocity@ == old(self).velocity@.update(id as int, None),
            final(self).mass@ == old(self).mass@,
            final(self).charge@ == old(self).charge@.update(id as int, None),
            final(self).chroma@ == old(self).chroma@.update(id as int, None),
            final(self).string@ == old(self).string@.update(id as int, None),
            old(self).links_wf() ==> final(self).links_wf(),
    {
        self.current.set(id, None);
        self.previous.set(id, None);
        self.velocity.set(id, None);
        self.chroma.set(id, None);
        self.charge.set(id, None);
        self.string.set(id, None);
        assert forall|j: int| 0 <= j < self.string@.len() && old(self).links_wf() implies links_below(
            #[trigger] self.links_of(j),
            self.next_id as int,
        ) by {
            if j != id {
                assert(self.links_of(j) == old(self).links_of(j));
            }
        }
    }

    /// Adds `link` to the end of entity `id`'s string, giving it a string of
    /// that one link if it had none.
    pub fn attach(&mut self, id: usize, link: usize)
        requires
            old(self).wf(),
            id < old(self).next_id,
        ensures
            final(self).wf(),
            final(self).same_components(old(self)),
            final(self).string@.len() == old(self).string@.len(),
            final(self).links_of(id as int) == linked(old(self).links_of(id as int), link),
            forall|j: int|
                0 <= j < old(self).next_id && j != id ==> #[trigger] final(self).string@[j] == old(
                    self,
                ).string@[j],
            final(self).strings_view() == old(self).strings_view().update(
                id as int,
                linked(old(self).links_of(id as int), link),
            ),
            old(self).links_wf() && link < old(self).next_id ==> final(self).links_wf(),
    {
        let mut slot: Option<Vec<usize>> = None;
        self.string.set_and_swap(id, &mut slot);
        let mut updated = append_link(slot, link);
        self.string.set_and_swap(id, &mut updated);
        assert(self.strings_view() =~= old(self).strings_view().update(
            id as int,
            linked(old(self).links_of(id as int), link),
        ));
        proof {
            if old(self).links_wf() && link < old(self).next_id {
                assert(links_below(old(self).links_of(id as int), self.next_id as int));
                lemma_links_below_kept(old(self).links_of(id as int), 0, 0, 0, link, self.next_id as int);
                assert forall|j: int| 0 <= j < self.string@.len() implies links_below(
                    #[trigger] self.links_of(j),
                    self.next_id as int,
                ) by {
                    if j != id {
                        assert(self.links_of(j) == old(self).links_of(j));
                    }
                }
            }
        }
    }

    /// Redirects the first link to `from` in entity `id`'s string to `to`
    /// (appending `to` if there is no such link, or giving it the string
    /// `[fresh]` if it has none).
    fn redirect(&mut self, id: usize, from: usize, to: usize, fresh: usize)
        requires
            old(self).wf(),
            id < old(self).next_id,
        ensures
            final(self).wf(),
            final(self).same_components(old(self)),
            final(self).string@.len() == old(self).string@.len(),
            final(self).links_of(id as int) == rewired(old(self).links_of(id as int), from, to, fresh),
            forall|j: int|
                0 <= j < old(self).next_id && j != id ==> #[trigger] final(self).string@[j] == old(
                    self,
                ).string@[j],
            old(self).links_wf() && to < old(self).next_id && fresh < old(self).next_id
                ==> final(self).links_wf(),
    {
        let mut slot: Option<Vec<usize>> = None;
        self.string.set_and_swap(id, &mut slot);
        let mut updated = rewire(slot, from, to, fresh);
        self.string.set_and_swap(id, &mut updated);
        proof {
            if old(self).links_wf() && to < old(self).next_id && fresh < old(self).next_id {
                assert(links_below(old(self).links_of(id as int), self.next_id as int));
                lemma_links_below_kept(old(self).links_of(id as int), from, to, fresh, 0, self.next_id as int);
                assert forall|j: int| 0 <= j < self.string@.len() implies links_below(
                    #[trigger] self.links_of(j),
                    self.next_id as int,
                ) by {
                    if j != id {
                        assert(self.links_of(j) == old(self).links_of(j));
                    }
                }
            }
        }
    }

    /// Breaks the string between quark `i` and the gluon `gid` once a new
    /// quark `new_q` and antiquark `new_aq` have been spawned in its place:
    /// `i`'s link to the gluon now leads to `new_aq`, the link of `q2` (the
    /// quark at the gluon's far end) now leads to `new_q`, and the gluon is
    /// despawned. A missing link is appended instead, and a missing string
    /// becomes `[new_aq]`.
    pub fn snap_string(&mut self, i: usize, gid: usize, q2: usize, new_q: usize, new_aq: usize)
        requires
            old(self).wf(),
            i < old(self).next_id,
            gid < old(self).next_id,
            q2 < old(self).next_id,
        ensures
            final(self).wf(),
            final(self).next_id == old(self).next_id,
            final(self).current@ == old(self).current@.update(gid as int, None),
            final(self).previous@ == old(self).previous@.update(gid as int, None),
            final(self).velocity@ == old(self).velocity@.update(gid as int, None),
            final(self).mass@ == old(self).mass@,
            final(self).charge@ == old(self).charge@.update(gid as int, None),
            final(self).chroma@ == old(self).chroma@.update(gid as int, None),
            final(self).string@.len() == old(self).string@.len(),
            ({
                let s0 = old(self).strings_view();
                let s1 = s0.update(i as int, rewired(s0[i as int], gid, new_aq, new_aq));
                let s2 = s1.update(q2 as int, rewired(s1[q2 as int], gid, new_q, new_aq));
                final(self).strings_view() == s2.update(gid as int, None)
            }),
            old(self).links_wf() && new_q < old(self).next_id && new_aq < old(self).next_id
                ==> final(self).links_wf(),
    {
        let ghost s0 = self.string@.map_values(|l: Option<Vec<usize>>| links_view(l));
        self.redirect(i, gid, new_aq, new_aq);
        let ghost s1 = self.string@.map_values(|l: Option<Vec<usize>>| links_view(l));
        assert(s1 == s0.update(i as int, rewired(s0[i as int], gid, new_aq, new_aq)));
        self.redirect(q2, gid, new_q, new_aq);
        let ghost s2 = self.string@.map_values(|l: Option<Vec<usize>>| links_view(l));
        assert(s2 == s1.update(q2 as int, rewired(s1[q2 as int], gid, new_q, new_aq)));
        self.despawn(gid);
        assert(self.string@.map_values(|l: Option<Vec<usize>>| links_view(l)) == s2.update(
            gid as int,
            None,
        ));
    }

    /// The quark at the far end of gluon `gid`'s string as seen from quark
    /// `i` (the string's first link to anything but `i`), together with the
    /// gluon's position: where the string breaks when it snaps. `None` when the
    /// gluon has no string, no such link, or no position.
    pub fn snap_partner(&self, i: usize, gid: usize) -> (r: Option<(usize, Coords<T>)>)
        requires
            self.wf(),
            gid < self.next_id,
        ensures
            r is Some <==> (self.current@[gid as int] is Some && has_foreign_link(
                self.links_of(gid as int),
                i,
            )),
            r matches Some((q2, pos)) ==> self.current@[gid as int] == Some(pos) && is_partner(
                self.links_of(gid as int),
                i,
                q2,
            ),
            self.links_wf() ==> (r matches Some((q2, pos)) ==> q2 < self.next_id),
    {
        match &self.string[gid] {
            Some(links) => {
                let q = partner(links, i);
                let pos = self.current[gid];
                assert(self.string@[gid as int] == Some(*links));
                assert(self.links_of(gid as int) == Some(links@));
                assert(q is None <==> !(exists|k: int| 0 <= k < links@.len() && links@[k] != i));
                assert(pos == self.current@[gid as int]);
                proof {
                    if let Some(q2) = q {
                        let k: int = choose|k: int|
                            0 <= k < links@.len() && links@[k] == q2 && q2 != i && forall|j: int|
                                0 <= j < k ==> links@[j] == i;
                        assert(0 <= k < links@.len() && links@[k] != i);
                        assert(is_partner(Some(links@), i, q2));
                    }
                }
                assert(has_foreign_link(self.links_of(gid as int), i) == (q is Some));
                proof {
                    if q matches Some(q2) {
                        if self.links_wf() {
                            assert(links_below(self.links_of(gid as int), self.next_id as int));
                        }
                    }
                }
                match q {
                    Some(q2) => match pos {
                        Some(p) => Some((q2, p)),
                        None => None,
                    },
                    None => None,
                }
            },
            None => {
                assert(self.links_of(gid as int) is None);
                None
            },
        }
    }

    /// Breaks gluon `gid`'s string at quark `i`: spawns a quark at `quark` with
    /// a string to `q2` and an antiquark at `antiquark` with a string to `i`,
    /// both moving at `vel` with colour charge `chroma` and no mass, then
    /// rewires the strings and despawns the gluon as `snap_string` does.
    /// Returns the ids of the new quark and antiquark.
    pub fn split_string(
        &mut self,
        i: usize,
        gid: usize,
        q2: usize,
        quark: Coords<T>,
        antiquark: Coords<T>,
        vel: Velocity<T>,
        quark_charge: T,
        antiquark_charge: T,
        chroma: T,
    ) -> (ids: (usize, usize))
        requires
            old(self).wf(),
            i < old(self).next_id,
            gid < old(self).next_id,
            q2 < old(self).next_id,
            old(self).next_id < usize::MAX - 1,
        ensures
            final(self).wf(),
            ids == (old(self).next_id, (old(self).next_id + 1) as usize),
            final(self).next_id == old(self).next_id + 2,
            final(self).current@ == old(self).current@.push(Some(quark)).push(Some(antiquark)).update(
                gid as int,
                None,
            ),
            final(self).previous@ == old(self).previous@.push(Some(quark)).push(
                Some(antiquark),
            ).update(gid as int, None),
            final(self).velocity@ == old(self).velocity@.push(Some(vel)).push(Some(vel)).update(
                gid as int,
                None,
            ),
            final(self).mass@ == old(self).mass@.push(None).push(None),
            final(self).charge@ == old(self).charge@.push(Some(quark_charge)).push(
                Some(antiquark_charge),
            ).update(gid as int, None),
            final(self).chroma@ == old(self).chroma@.push(Some(chroma)).push(Some(chroma)).update(
                gid as int,
                None,
            ),
            ({
                let s0 = old(self).strings_view().push(Some(seq![q2])).push(Some(seq![i]));
                let s1 = s0.update(i as int, rewired(s0[i as int], gid, ids.1, ids.1));
                let s2 = s1.update(q2 as int, rewired(s1[q2 as int], gid, ids.0, ids.1));
                final(self).strings_view() == s2.update(gid as int, None)
            }),
            old(self).links_wf() ==> final(self).links_wf(),
    {
        let mut to_q2: Vec<usize> = Vec::new();
        to_q2.push(q2);
        assert(to_q2@ == seq![q2]);
        let new_q: usize = self.spawn(
            quark,
            Some(vel),
            None,
            Some(quark_charge),
            Some(chroma),
            Some(to_q2),
        );
        let mut to_i: Vec<usize> = Vec::new();
        to_i.push(i);
        assert(to_i@ == seq![i]);
        let new_aq: usize = self.spawn(
            antiquark,
            Some(vel),
            None,
            Some(antiquark_charge),
            Some(chroma),
            Some(to_i),
        );
        self.snap_string(i, gid, q2, new_q, new_aq);
        (new_q, new_aq)
    }

    /// Binds quarks `i` and `j` with a new massless, uncharged gluon at `pos`
    /// moving at `vel` with colour charge `chroma`: the gluon's string links
    /// `i` and `j`, and each of them gains a link to the gluon. Returns the
    /// gluon's id.
    pub fn bind_gluon(&mut self, i: usize, j: usize, pos: Coords<T>, vel: Velocity<T>, chroma: T) -> (g: usize)
        requires
            old(self).wf(),
            i < old(self).next_id,
            j < old(self).next_id,
            old(self).next_id < usize::MAX,
        ensures
            final(self).wf(),
            g == old(self).next_id,
            final(self).next_id == g + 1,
            final(self).current@ == old(self).current@.push(Some(pos)),
            final(self).previous@ == old(self).previous@.push(Some(pos)),
            final(self).velocity@ == old(self).velocity@.push(Some(vel)),
            final(self).mass@ == old(self).mass@.push(None),
            final(self).charge@ == old(self).charge@.push(None),
            final(self).chroma@ == old(self).chroma@.push(Some(chroma)),
            ({
                let s0 = old(self).strings_view().push(Some(seq![i, j]));
                let s1 = s0.update(i as int, linked(s0[i as int], g));
                final(self).strings_view() == s1.update(j as int, linked(s1[j as int], g))
            }),
            old(self).links_wf() ==> final(self).links_wf(),
    {
        let mut ends: Vec<usize> = Vec::new();
        ends.push(i);
        ends.push(j);
        assert(ends@ == seq![i, j]);
        let g: usize = self.spawn(pos, Some(vel), None, None, Some(chroma), Some(ends));
        self.attach(i, g);
        self.attach(j, g);
        g
    }

    /// Whether the string link from entity `id` to entity `tid` is drawn: it
    /// leads to a higher id that has been handed out, and that entity has both
    /// a position and a previous position.
    pub open spec fn draws_link(&self, id: int, tid: int) -> bool {
        &&& id < tid < self.next_id
        &&& self.current@[tid] is Some
        &&& self.previous@[tid] is Some
    }

    /// The drawn pairs `(id, tid)` for the links `links` of entity `id`, in order.
    pub open spec fn link_pairs(&self, id: int, links: Seq<usize>) -> Seq<(usize, usize)>
        decreases links.len(),
    {
        if links.len() == 0 {
            seq![]
        } else {
            let rest = self.link_pairs(id, links.drop_last());
            if self.draws_link(id, links.last() as int) {
                rest.push((id as usize, links.last()))
            } else {
                rest
            }
        }
    }

    /// The drawn pairs of entity `id`: none unless it has a position, a
    /// previous position and a string.
    pub open spec fn entity_pairs(&self, id: int) -> Seq<(usize, usize)> {
        match self.string@[id] {
            Some(links) => if self.current@[id] is Some && self.previous@[id] is Some {
                self.link_pairs(id, links@)
            } else {
                seq![]
            },
            None => seq![],
        }
    }

    /// The drawn pairs of the entities below `n`, in order of id.
    pub open spec fn pairs_before(&self, n: int) -> Seq<(usize, usize)>
        decreases n,
    {
        if n <= 0 {
            seq![]
        } else {
            self.pairs_before(n - 1) + self.entity_pairs(n - 1)
        }
    }

    /// Whether `(id, tid)` is a segment of a string that is drawn: `id` has
    /// both positions and a string linking it to `tid`, and `tid` is a higher
    /// id that has been handed out and has both positions.
    pub open spec fn segment_drawn(&self, pair: (usize, usize)) -> bool {
        let (id, tid) = pair;
        &&& id < tid < self.next_id
        &&& self.current@[id as int] is Some
        &&& self.previous@[id as int] is Some
        &&& self.links_of(id as int) is Some
        &&& self.links_of(id as int).unwrap().contains(tid)
        &&& self.current@[tid as int] is Some
        &&& self.previous@[tid as int] is Some
    }

    /// The pairs chosen from one entity's links are exactly its drawn segments.
    proof fn lemma_link_pairs(&self, id: int, links: Seq<usize>)
        requires
            0 <= id < self.next_id,
            self.current@[id] is Some,
            self.previous@[id] is Some,
            self.links_of(id) is Some,
            forall|k: int| 0 <= k < links.len() ==> self.links_of(id).unwrap().contains(#[trigger] links[k]),
        ensures
            forall|k: int|
                0 <= k < links.len() && id < links[k] < self.next_id && self.current@[links[k] as int] is Some
                    && self.previous@[links[k] as int] is Some ==> #[trigger] self.link_pairs(
                    id,
                    links,
                ).contains((id as usize, links[k])),
            forall|m: int|
                0 <= m < self.link_pairs(id, links).len() ==> self.segment_drawn(
                    #[trigger] self.link_pairs(id, links)[m],
                ),
        decreases links.len(),
    {
        if links.len() > 0 {
            let init = links.drop_last();
            assert forall|k: int| 0 <= k < init.len() implies self.links_of(id).unwrap().contains(
                #[trigger] init[k],
            ) by {
                assert(init[k] == links[k]);
            }
            self.lemma_link_pairs(id, init);
            let rest = self.link_pairs(id, init);
            let r = self.link_pairs(id, links);
            assert(self.links_of(id).unwrap().contains(links[links.len() - 1]));
            assert forall|k: int|
                0 <= k < links.len() && id < links[k] < self.next_id && self.current@[links[k] as int] is Some
                    && self.previous@[links[k] as int] is Some implies #[trigger] r.contains(
                (id as usize, links[k]),
            ) by {
                if k < links.len() - 1 {
                    assert(init[k] == links[k]);
                    assert(rest.contains((id as usize, init[k])));
                    let m = choose|m: int| 0 <= m < rest.len() && rest[m] == (id as usize, init[k]);
                    if self.draws_link(id, links.last() as int) {
                        assert(r[m] == rest[m]);
                    }
                } else {
                    assert(r[rest.len() as int] == (id as usize, links[k]));
                }
            }
            assert forall|m: int| 0 <= m < r.len() implies self.segment_drawn(#[trigger] r[m]) by {
                if m < rest.len() {
                    assert(r[m] == rest[m]);
                }
            }
        }
    }

    /// The pairs chosen for the entities below `n` are exactly their drawn segments.
    proof fn lemma_pairs_before(&self, n: int)
        requires
            self.wf(),
            n <= self.next_id,
        ensures
            forall|id: int, k: int|
                #![trigger self.string@[id], self.pairs_before(n).contains((id as usize, self.links_of(id).unwrap()[k]))]
                0 <= id < n && self.current@[id] is Some && self.previous@[id] is Some
                    && self.links_of(id) is Some && 0 <= k < self.links_of(id).unwrap().len() && id
                    < self.links_of(id).unwrap()[k] < self.next_id && self.current@[self.links_of(
                    id,
                ).unwrap()[k] as int] is Some && self.previous@[self.links_of(id).unwrap()[k] as int] is Some
                    ==> self.pairs_before(n).contains((id as usize, self.links_of(id).unwrap()[k])),
            forall|m: int|
                0 <= m < self.pairs_before(n).len() ==> self.segment_drawn(
                    #[trigger] self.pairs_before(n)[m],
                ),
        decreases n,
    {
        if n > 0 {
            self.lemma_pairs_before(n - 1);
            let rest = self.pairs_before(n - 1);
            let e = self.entity_pairs(n - 1);
            let r = self.pairs_before(n);
            assert(r == rest + e);
            if self.current@[n - 1] is Some && self.previous@[n - 1] is Some && self.links_of(n - 1) is Some {
                let ls = self.links_of(n - 1).unwrap();
                assert(e == self.link_pairs(n - 1, ls));
                assert forall|k: int| 0 <= k < ls.len() implies ls.contains(#[trigger] ls[k]) by {}
                self.lemma_link_pairs(n - 1, ls);
            } else {
                assert(e.len() == 0);
            }
            assert forall|id: int, k: int|
                #![trigger self.string@[id], r.contains((id as usize, self.links_of(id).unwrap()[k]))]
                0 <= id < n && self.current@[id] is Some && self.previous@[id] is Some
                    && self.links_of(id) is Some && 0 <= k < self.links_of(id).unwrap().len() && id
                    < self.links_of(id).unwrap()[k] < self.next_id && self.current@[self.links_of(
                    id,
                ).unwrap()[k] as int] is Some && self.previous@[self.links_of(id).unwrap()[k] as int] is Some
                    implies r.contains((id as usize, self.links_of(id).unwrap()[k])) by {
                let t = self.links_of(id).unwrap()[k];
                if id < n - 1 {
                    assert(self.string@[id] == self.string@[id]);
                    assert(rest.contains((id as usize, t)));
                    let m = choose|m: int| 0 <= m < rest.len() && rest[m] == (id as usize, t);
                    assert(r[m] == rest[m]);
                } else {
                    let ls = self.links_of(id).unwrap();
                    assert(e.contains((id as usize, ls[k])));
                    let m = choose|m: int| 0 <= m < e.len() && e[m] == (id as usize, ls[k]);
                    assert(r[rest.len() + m] == e[m]);
                }
            }
            assert forall|m: int| 0 <= m < r.len() implies self.segment_drawn(#[trigger] r[m]) by {
                if m < rest.len() {
                    assert(r[m] == rest[m]);
                } else {
                    assert(r[m] == e[m - rest.len()]);
                }
            }
        }
    }

    /// The string segments to draw, as pairs of entity ids: every link from a
    /// lower id to a higher one, in order of the lower id and then of the
    /// string, where both ends have a position and a previous position.
    pub fn string_pairs(&self) -> (pairs: Vec<(usize, usize)>)
        requires
            self.wf(),
        ensures
            pairs@ == self.pairs_before(self.next_id as int),
            forall|id: int, k: int|
                #![trigger self.string@[id], pairs@.contains((id as usize, self.links_of(id).unwrap()[k]))]
                0 <= id < self.next_id && self.current@[id] is Some && self.previous@[id] is Some
                    && self.links_of(id) is Some && 0 <= k < self.links_of(id).unwrap().len() && id
                    < self.links_of(id).unwrap()[k] < self.next_id && self.current@[self.links_of(
                    id,
                ).unwrap()[k] as int] is Some && self.previous@[self.links_of(id).unwrap()[k] as int] is Some
                    ==> pairs@.contains((id as usize, self.links_of(id).unwrap()[k])),
            forall|m: int|
                0 <= m < pairs@.len() ==> self.segment_drawn(#[trigger] pairs@[m]),
    {
        proof {
            self.lemma_pairs_before(self.next_id as int);
        }
        let mut pairs: Vec<(usize, usize)> = Vec::new();
        let mut id: usize = 0;
        while id < self.next_id
            invariant
                self.wf(),
                id <= self.next_id,
                pairs@ == self.pairs_before(id as int),
            decreases self.next_id - id,
        {
            if self.current[id].is_some() && self.previous[id].is_some() {
                match &self.string[id] {
                    Some(links) => {
                        let ghost start = pairs@;
                        let mut k: usize = 0;
                        while k < links.len()
                            invariant
                                self.wf(),
                                id < self.next_id,
                                self.string@[id as int] == Some(*links),
                                k <= links@.len(),
                                pairs@ == start + self.link_pairs(id as int, links@.take(k as int)),
                            decreases links.len() - k,
                        {
                            let tid: usize = links[k];
                            assert(links@.take(k + 1).drop_last() =~= links@.take(k as int));
                            assert(links@.take(k + 1).last() == tid);
                            if tid < self.next_id && id < tid {
                                if self.current[tid].is_some() && self.previous[tid].is_some() {
                                    pairs.push((id, tid));
                                }
                            }
                            k = k + 1;
                        }
                        assert(links@.take(links@.len() as int) =~= links@);
                    },
                    None => {},
                }
            }
            id = id + 1;
        }
        pairs
    }
}

} // verus!
