//! How a project is changed, and how it is changed back when that fails.

use vstd::prelude::*;

use crate::link_path::{link_path_of, LinkPath, LinkPathModel};
use crate::lists::{
    present, lemma_present_next, lemma_present_none, lemma_present_from, lemma_place_in_order,
    lemma_present_at,
};
use crate::ordered::Table;
use crate::path::{equal_paths, same_path};
use crate::project::{
    link_models, place_models, stands_at, LinkModel, LinkState, ManagedLink, STATE_VERSION,
};
use crate::text::{join, joined, plus, plus3, texts};

verus! {

broadcast use vstd::string::group_string_axioms;

/// The links to remove and to make, and the state that records the links afterwards.
#[derive(Debug)]
pub struct LinkUpdate {
    pub removals: Vec<ManagedLink>,
    pub creations: Vec<ManagedLink>,
    pub next: LinkState,
}

/// What becomes of a place: the link to remove there, and the link to make. `exists` tells whether
/// the previous link stands there.
pub open spec fn change(before: Option<LinkModel>, after: Option<LinkModel>, exists: bool) -> (
    Option<LinkModel>,
    Option<LinkModel>,
) {
    match (before, after) {
        (Some(b), Some(a)) => if !equal_paths(b.target, a.target) {
            (
                if exists {
                    Some(b)
                } else {
                    None
                },
                Some(a),
            )
        } else if !exists {
            (None, Some(a))
        } else {
            (None, None)
        },
        (None, Some(a)) => if !exists {
            (None, Some(a))
        } else {
            (None, None)
        },
        (Some(b), None) => if exists {
            (Some(b), None)
        } else {
            (None, None)
        },
        (None, None) => (None, None),
    }
}

/// The link at a place.
pub open spec fn link_at(
    index: Map<LinkPathModel, ManagedLink>,
    place: LinkPathModel,
) -> Option<LinkModel> {
    if index.contains_key(place) {
        Some(index[place]@)
    } else {
        None
    }
}

/// The links to remove, place by place.
pub open spec fn removal_list(
    places: Seq<LinkPathModel>,
    previous: Map<LinkPathModel, ManagedLink>,
    desired: Map<LinkPathModel, ManagedLink>,
    exists: Seq<bool>,
) -> Seq<Option<LinkModel>> {
    Seq::new(
        places.len(),
        |k: int|
            change(link_at(previous, places[k]), link_at(desired, places[k]), exists[k]).0,
    )
}

/// The links to make, place by place.
pub open spec fn creation_list(
    places: Seq<LinkPathModel>,
    previous: Map<LinkPathModel, ManagedLink>,
    desired: Map<LinkPathModel, ManagedLink>,
    exists: Seq<bool>,
) -> Seq<Option<LinkModel>> {
    Seq::new(
        places.len(),
        |k: int|
            change(link_at(previous, places[k]), link_at(desired, places[k]), exists[k]).1,
    )
}

/// How the previous links become the desired ones. `places` are those of both, and `exists` tells
/// of each whether the previous link stands there.
pub fn preflight_links(
    places: &Vec<LinkPath>,
    previous: &Table<LinkPath, ManagedLink>,
    desired: &Table<LinkPath, ManagedLink>,
    exists: &Vec<bool>,
) -> (r: LinkUpdate)
    requires
        exists@.len() == places@.len(),
    ensures
        link_models(r.removals@) == present(
            removal_list(place_models(places@), previous@, desired@, exists@),
        ),
        link_models(r.creations@) == present(
            creation_list(place_models(places@), previous@, desired@, exists@),
        ),
        r.next.version == STATE_VERSION,
        link_models(r.next.links@) == desired.keys().map_values(
            |place: LinkPathModel| desired@[place]@,
        ),
{
    let ghost all = place_models(places@);
    let ghost gone = removal_list(all, previous@, desired@, exists@);
    let ghost made = creation_list(all, previous@, desired@, exists@);
    let mut removals: Vec<ManagedLink> = Vec::new();
    let mut creations: Vec<ManagedLink> = Vec::new();
    let mut i: usize = 0;
    proof {
        assert(gone.take(0) =~= Seq::<Option<LinkModel>>::empty());
        assert(made.take(0) =~= Seq::<Option<LinkModel>>::empty());
        assert(link_models(removals@) =~= Seq::<LinkModel>::empty());
        assert(link_models(creations@) =~= Seq::<LinkModel>::empty());
    }
    while i < places.len()
        invariant
            i <= places@.len(),
            exists@.len() == places@.len(),
            all == place_models(places@),
            gone == removal_list(all, previous@, desired@, exists@),
            made == creation_list(all, previous@, desired@, exists@),
            link_models(removals@) == present(gone.take(i as int)),
            link_models(creations@) == present(made.take(i as int)),
        decreases places@.len() - i,
    {
        let place = &places[i];
        let before = previous.get(place);
        let after = desired.get(place);
        let standing = exists[i];
        proof {
            assert(all[i as int] == place@);
            lemma_present_next(gone, i as int);
            lemma_present_next(made, i as int);
        }
        let mut remove = false;
        let mut create = false;
        match (before, after) {
            (Some(b), Some(a)) => {
                if !same_path(b.target.as_str(), a.target.as_str()) {
                    remove = standing;
                    create = true;
                } else {
                    create = !standing;
                }
            },
            (None, Some(_)) => {
                create = !standing;
            },
            (Some(_), None) => {
                remove = standing;
            },
            (None, None) => {},
        }
        if remove {
            match before {
                Some(b) => {
                    let link = b.clone();
                    proof {
                        assert(link_models(removals@.push(link)) =~= link_models(removals@).push(
                            link@,
                        ));
                    }
                    removals.push(link);
                },
                None => {},
            }
        }
        if create {
            match after {
                Some(a) => {
                    let link = a.clone();
                    proof {
                        assert(link_models(creations@.push(link)) =~= link_models(creations@).push(
                            link@,
                        ));
                    }
                    creations.push(link);
                },
                None => {},
            }
        }
        i = i + 1;
    }
    proof {
        assert(gone.take(i as int) =~= gone);
        assert(made.take(i as int) =~= made);
    }
    let count = desired.len();
    let mut links: Vec<ManagedLink> = Vec::new();
    let ghost wanted = desired.keys().map_values(|place: LinkPathModel| desired@[place]@);
    let mut k: usize = 0;
    assert(link_models(links@) =~= wanted.take(0));
    while k < count
        invariant
            k <= count,
            count == desired.keys().len(),
            wanted == desired.keys().map_values(|place: LinkPathModel| desired@[place]@),
            link_models(links@) == wanted.take(k as int),
        decreases count - k,
    {
        let link = desired.value_at(k).clone();
        proof {
            assert(wanted[k as int] == link@);
            assert(wanted.take(k + 1) =~= wanted.take(k as int).push(link@));
            assert(link_models(links@.push(link)) =~= link_models(links@).push(link@));
        }
        links.push(link);
        k = k + 1;
    }
    assert(wanted.take(k as int) =~= wanted);
    LinkUpdate { removals, creations, next: LinkState { version: STATE_VERSION, links } }
}

/// Where the links that are wanted are those that were recorded, none is removed, and only those are
/// made that no longer stand: with all of them in place nothing is changed.
pub proof fn lemma_second_update_only_restores(
    places: Seq<LinkPathModel>,
    previous: Map<LinkPathModel, ManagedLink>,
    desired: Map<LinkPathModel, ManagedLink>,
    exists: Seq<bool>,
)
    requires
        exists.len() == places.len(),
        forall|k: int|
            0 <= k < places.len() ==> link_at(previous, #[trigger] places[k]) == link_at(
                desired,
                places[k],
            ),
    ensures
        present(removal_list(places, previous, desired, exists)) == Seq::<LinkModel>::empty(),
        forall|k: int|
            0 <= k < places.len() ==> (#[trigger] creation_list(
                places,
                previous,
                desired,
                exists,
            )[k]) == (if exists[k] {
                None
            } else {
                link_at(desired, places[k])
            }),
        (forall|k: int| 0 <= k < exists.len() ==> #[trigger] exists[k]) ==> present(
            creation_list(places, previous, desired, exists),
        ) == Seq::<LinkModel>::empty(),
{
    let gone = removal_list(places, previous, desired, exists);
    let made = creation_list(places, previous, desired, exists);
    assert forall|k: int| 0 <= k < gone.len() implies (#[trigger] gone[k]) is None by {
        assert(link_at(previous, places[k]) == link_at(desired, places[k]));
    }
    lemma_present_none(gone);
    assert forall|k: int| 0 <= k < places.len() implies (#[trigger] made[k]) == (if exists[k] {
        None
    } else {
        link_at(desired, places[k])
    }) by {
        assert(link_at(previous, places[k]) == link_at(desired, places[k]));
    }
    if forall|k: int| 0 <= k < exists.len() ==> #[trigger] exists[k] {
        assert forall|k: int| 0 <= k < made.len() implies (#[trigger] made[k]) is None by {
            assert(exists[k]);
        }
        lemma_present_none(made);
    }
}

/// The links on disk after some were removed.
pub open spec fn without(disk: Map<LinkPathModel, Seq<char>>, links: Seq<LinkModel>) -> Map<
    LinkPathModel,
    Seq<char>,
>
    decreases links.len(),
{
    if links.len() == 0 {
        disk
    } else {
        without(disk, links.drop_last()).remove(link_path_of(links.last().path)->0)
    }
}

/// The links on disk after some were made.
pub open spec fn with(disk: Map<LinkPathModel, Seq<char>>, links: Seq<LinkModel>) -> Map<
    LinkPathModel,
    Seq<char>,
>
    decreases links.len(),
{
    if links.len() == 0 {
        disk
    } else {
        with(disk, links.drop_last()).insert(
            link_path_of(links.last().path)->0,
            links.last().target,
        )
    }
}

/// One of the links stands at a place.
pub open spec fn any_at(links: Seq<LinkModel>, place: LinkPathModel) -> bool {
    exists|k: int| 0 <= k < links.len() && link_path_of((#[trigger] links[k]).path)->0 == place
}

/// All links that stand at a place have the same target.
pub open spec fn only_target(links: Seq<LinkModel>, place: LinkPathModel, target: Seq<char>) -> bool {
    forall|k: int|
        0 <= k < links.len() && link_path_of((#[trigger] links[k]).path)->0 == place
            ==> links[k].target == target
}

/// What stands on disk after links were removed.
proof fn lemma_without(
    disk: Map<LinkPathModel, Seq<char>>,
    links: Seq<LinkModel>,
    place: LinkPathModel,
)
    ensures
        without(disk, links).contains_key(place) <==> disk.contains_key(place) && !any_at(
            links,
            place,
        ),
        without(disk, links).contains_key(place) ==> without(disk, links)[place] == disk[place],
    decreases links.len(),
{
    if links.len() > 0 {
        let front = links.drop_last();
        lemma_without(disk, front, place);
        if any_at(front, place) {
            let k = choose|k: int|
                0 <= k < front.len() && link_path_of((#[trigger] front[k]).path)->0 == place;
            assert(links[k] == front[k]);
        }
        let last = links.len() - 1;
        if link_path_of(links.last().path)->0 == place {
            assert(link_path_of(links[last].path)->0 == place);
        }
        if any_at(links, place) && link_path_of(links.last().path)->0 != place {
            let k = choose|k: int|
                0 <= k < links.len() && link_path_of((#[trigger] links[k]).path)->0 == place;
            assert(front[k] == links[k]);
        }
    }
}

/// What stands on disk after links were made.
proof fn lemma_with(
    disk: Map<LinkPathModel, Seq<char>>,
    links: Seq<LinkModel>,
    place: LinkPathModel,
    target: Seq<char>,
)
    requires
        only_target(links, place, target),
    ensures
        with(disk, links).contains_key(place) <==> disk.contains_key(place) || any_at(links, place),
        any_at(links, place) ==> with(disk, links)[place] == target,
        !any_at(links, place) && disk.contains_key(place) ==> with(disk, links)[place]
            == disk[place],
    decreases links.len(),
{
    if links.len() > 0 {
        let front = links.drop_last();
        assert forall|k: int|
            0 <= k < front.len() && link_path_of((#[trigger] front[k]).path)->0 == place implies front[k].target
            == target by {
            assert(links[k] == front[k]);
        }
        lemma_with(disk, front, place, target);
        let last = links.len() - 1;
        assert(links[last] == links.last());
        if any_at(front, place) {
            let k = choose|k: int|
                0 <= k < front.len() && link_path_of((#[trigger] front[k]).path)->0 == place;
            assert(links[k] == front[k]);
        }
        if any_at(links, place) && link_path_of(links.last().path)->0 != place {
            let k = choose|k: int|
                0 <= k < links.len() && link_path_of((#[trigger] links[k]).path)->0 == place;
            assert(front[k] == links[k]);
        }
    }
}

/// The links are kept under the places they stand at.
pub open spec fn at_their_places(index: Map<LinkPathModel, ManagedLink>) -> bool {
    forall|place: LinkPathModel| #[trigger]
        index.contains_key(place) ==> stands_at(index[place]@, place)
}

/// What was observed of the places is what stands on disk: the previous link, or nothing.
pub open spec fn observed_right(
    disk: Map<LinkPathModel, Seq<char>>,
    places: Seq<LinkPathModel>,
    previous: Map<LinkPathModel, ManagedLink>,
    exists: Seq<bool>,
) -> bool {
    forall|k: int|
        0 <= k < places.len() ==> {
            &&& exists[k] == disk.contains_key(#[trigger] places[k])
            &&& exists[k] ==> previous.contains_key(places[k]) && equal_paths(
                disk[places[k]],
                previous[places[k]]@.target,
            )
        }
}

/// The change at one place is made at that place.
pub(crate) proof fn lemma_change_at(
    places: Seq<LinkPathModel>,
    previous: Map<LinkPathModel, ManagedLink>,
    desired: Map<LinkPathModel, ManagedLink>,
    exists: Seq<bool>,
    k: int,
)
    requires
        0 <= k < places.len(),
        places.no_duplicates(),
        at_their_places(previous),
        at_their_places(desired),
    ensures
        any_at(present(removal_list(places, previous, desired, exists)), places[k])
            <==> removal_list(places, previous, desired, exists)[k] is Some,
        any_at(present(creation_list(places, previous, desired, exists)), places[k])
            <==> creation_list(places, previous, desired, exists)[k] is Some,
        creation_list(places, previous, desired, exists)[k] is Some ==> only_target(
            present(creation_list(places, previous, desired, exists)),
            places[k],
            desired[places[k]]@.target,
        ),
{
    let gone = removal_list(places, previous, desired, exists);
    let made = creation_list(places, previous, desired, exists);
    let removals = present(gone);
    let creations = present(made);
    if gone[k] is Some {
        let i = lemma_present_at(gone, k);
        assert(previous.contains_key(places[k]));
        assert(link_path_of(removals[i].path)->0 == places[k]);
    }
    if any_at(removals, places[k]) {
        let i = choose|i: int|
            0 <= i < removals.len() && link_path_of((#[trigger] removals[i]).path)->0 == places[k];
        let j = lemma_present_from(gone, i);
        assert(previous.contains_key(places[j]));
        assert(stands_at(previous[places[j]]@, places[j]));
        assert(places[j] == places[k]);
    }
    if made[k] is Some {
        let i = lemma_present_at(made, k);
        assert(desired.contains_key(places[k]));
        assert(link_path_of(creations[i].path)->0 == places[k]);
    }
    if any_at(creations, places[k]) {
        let i = choose|i: int|
            0 <= i < creations.len() && link_path_of((#[trigger] creations[i]).path)->0
                == places[k];
        let j = lemma_present_from(made, i);
        assert(desired.contains_key(places[j]));
        assert(stands_at(desired[places[j]]@, places[j]));
        assert(places[j] == places[k]);
    }
    assert forall|i: int|
        0 <= i < creations.len() && link_path_of((#[trigger] creations[i]).path)->0
            == places[k] implies creations[i].target == desired[places[k]]@.target by {
        let j = lemma_present_from(made, i);
        assert(desired.contains_key(places[j]));
        assert(stands_at(desired[places[j]]@, places[j]));
        assert(places[j] == places[k]);
    }
}

/// Once the update is made, the desired links stand, the previous ones that are not desired are
/// gone, and nothing else was touched.
pub proof fn lemma_update_reaches_desired(
    disk: Map<LinkPathModel, Seq<char>>,
    places: Seq<LinkPathModel>,
    previous: Map<LinkPathModel, ManagedLink>,
    desired: Map<LinkPathModel, ManagedLink>,
    exists: Seq<bool>,
)
    requires
        exists.len() == places.len(),
        places.no_duplicates(),
        at_their_places(previous),
        at_their_places(desired),
        forall|place: LinkPathModel| #[trigger]
            places.contains(place) <==> previous.contains_key(place) || desired.contains_key(place),
        observed_right(disk, places, previous, exists),
    ensures
        ({
            let after = with(
                without(disk, present(removal_list(places, previous, desired, exists))),
                present(creation_list(places, previous, desired, exists)),
            );
            &&& forall|place: LinkPathModel| #[trigger]
                desired.contains_key(place) ==> after.contains_key(place) && equal_paths(
                    after[place],
                    desired[place]@.target,
                )
            &&& forall|place: LinkPathModel|
                previous.contains_key(place) && !desired.contains_key(place)
                    ==> !#[trigger] after.contains_key(place)
            &&& forall|place: LinkPathModel|
                !#[trigger] places.contains(place) ==> (after.contains_key(place)
                    <==> disk.contains_key(place)) && (disk.contains_key(place) ==> after[place]
                    == disk[place])
        }),
{
    let gone = removal_list(places, previous, desired, exists);
    let made = creation_list(places, previous, desired, exists);
    let removals = present(gone);
    let creations = present(made);
    let middle = without(disk, removals);
    let after = with(middle, creations);
    assert forall|place: LinkPathModel| #[trigger] desired.contains_key(place) implies after.contains_key(
        place,
    ) && equal_paths(after[place], desired[place]@.target) by {
        assert(places.contains(place));
        let k = choose|k: int| 0 <= k < places.len() && places[k] == place;
        lemma_change_at(places, previous, desired, exists, k);
        lemma_without(disk, removals, place);
        if made[k] is Some {
            lemma_with(middle, creations, place, desired[place]@.target);
        } else {
            assert(only_target(creations, place, Seq::<char>::empty()));
            lemma_with(middle, creations, place, Seq::<char>::empty());
            assert(exists[k]);
            assert(previous.contains_key(places[k]));
        }
    }
    assert forall|place: LinkPathModel|
        previous.contains_key(place) && !desired.contains_key(
            place,
        ) implies !#[trigger] after.contains_key(place) by {
        assert(places.contains(place));
        let k = choose|k: int| 0 <= k < places.len() && places[k] == place;
        lemma_change_at(places, previous, desired, exists, k);
        lemma_without(disk, removals, place);
        assert(made[k] is None);
        assert(only_target(creations, place, Seq::<char>::empty()));
        lemma_with(middle, creations, place, Seq::<char>::empty());
        assert(exists[k] == disk.contains_key(places[k]));
    }
    assert forall|place: LinkPathModel| !#[trigger] places.contains(place) implies (
    after.contains_key(place) <==> disk.contains_key(place)) && (disk.contains_key(place)
        ==> after[place] == disk[place]) by {
        if any_at(removals, place) {
            let i = choose|i: int|
                0 <= i < removals.len() && link_path_of((#[trigger] removals[i]).path)->0 == place;
            let j = lemma_present_from(gone, i);
            assert(previous.contains_key(places[j]));
            assert(stands_at(previous[places[j]]@, places[j]));
            assert(places[j] == place);
        }
        if any_at(creations, place) {
            let i = choose|i: int|
                0 <= i < creations.len() && link_path_of((#[trigger] creations[i]).path)->0
                    == place;
            let j = lemma_present_from(made, i);
            assert(desired.contains_key(places[j]));
            assert(stands_at(desired[places[j]]@, places[j]));
            assert(places[j] == place);
        }
        lemma_without(disk, removals, place);
        assert(only_target(creations, place, Seq::<char>::empty()));
        lemma_with(middle, creations, place, Seq::<char>::empty());
    }
}

/// What was done so far of an update.
#[derive(Debug)]
pub struct AppliedLinkChanges {
    pub removed: Vec<ManagedLink>,
    pub created: Vec<ManagedLink>,
    pub directories: Vec<String>,
}

/// A step back.
#[derive(Debug)]
pub enum Undo {
    Remove(ManagedLink),
    Create(ManagedLink),
}

/// A step back, with its texts.
pub enum UndoModel {
    Remove(LinkModel),
    Create(LinkModel),
}

impl View for Undo {
    type V = UndoModel;

    open spec fn view(&self) -> UndoModel {
        match self {
            Undo::Remove(link) => UndoModel::Remove(link@),
            Undo::Create(link) => UndoModel::Create(link@),
        }
    }
}

/// The steps back with their texts.
pub open spec fn undo_models(steps: Seq<Undo>) -> Seq<UndoModel> {
    steps.map_values(|u: Undo| u@)
}

/// The steps back: what was made is removed, the last first, then what was removed is made again,
/// the last first.
pub open spec fn undo_steps(removed: Seq<LinkModel>, created: Seq<LinkModel>) -> Seq<UndoModel> {
    created.reverse().map_values(|l: LinkModel| UndoModel::Remove(l))
        + removed.reverse().map_values(|l: LinkModel| UndoModel::Create(l))
}

impl AppliedLinkChanges {
    /// Nothing done yet.
    pub fn new() -> (r: Self)
        ensures
            r.removed@ == Seq::<ManagedLink>::empty(),
            r.created@ == Seq::<ManagedLink>::empty(),
            r.directories@ == Seq::<String>::empty(),
    {
        AppliedLinkChanges {
            removed: Vec::new(),
            created: Vec::new(),
            directories: Vec::new(),
        }
    }

    /// The steps back from what was done.
    pub fn rollback_links(&self) -> (r: Vec<Undo>)
        ensures
            undo_models(r@) == undo_steps(link_models(self.removed@), link_models(self.created@)),
    {
        let ghost removed = link_models(self.removed@);
        let ghost created = link_models(self.created@);
        let ghost first = created.reverse().map_values(|l: LinkModel| UndoModel::Remove(l));
        let ghost second = removed.reverse().map_values(|l: LinkModel| UndoModel::Create(l));
        let mut r: Vec<Undo> = Vec::new();
        let mut i: usize = self.created.len();
        assert(undo_models(r@) =~= first.take(0));
        while i > 0
            invariant
                i <= self.created@.len(),
                created == link_models(self.created@),
                first == created.reverse().map_values(|l: LinkModel| UndoModel::Remove(l)),
                first.len() == self.created@.len(),
                undo_models(r@) == first.take(self.created@.len() - i),
            decreases i,
        {
            i = i - 1;
            let link = self.created[i].clone();
            proof {
                let n = self.created@.len();
                assert(created[i as int] == self.created@[i as int]@);
                assert(first[n - i - 1] == UndoModel::Remove(link@));
                assert(first.take(n - i) =~= first.take(n - i - 1).push(UndoModel::Remove(link@)));
                assert(undo_models(r@.push(Undo::Remove(link))) =~= undo_models(r@).push(
                    UndoModel::Remove(link@),
                ));
            }
            r.push(Undo::Remove(link));
        }
        assert(first.take(self.created@.len() as int) =~= first);
        let mut k: usize = self.removed.len();
        assert(undo_models(r@) =~= first + second.take(0));
        while k > 0
            invariant
                k <= self.removed@.len(),
                removed == link_models(self.removed@),
                second == removed.reverse().map_values(|l: LinkModel| UndoModel::Create(l)),
                second.len() == self.removed@.len(),
                undo_models(r@) == first + second.take(self.removed@.len() - k),
            decreases k,
        {
            k = k - 1;
            let link = self.removed[k].clone();
            proof {
                let n = self.removed@.len();
                assert(removed[k as int] == self.removed@[k as int]@);
                assert(second[n - k - 1] == UndoModel::Create(link@));
                assert(first + second.take(n - k) =~= (first + second.take(n - k - 1)).push(
                    UndoModel::Create(link@),
                ));
                assert(undo_models(r@.push(Undo::Create(link))) =~= undo_models(r@).push(
                    UndoModel::Create(link@),
                ));
            }
            r.push(Undo::Create(link));
        }
        assert(second.take(self.removed@.len() as int) =~= second);
        r
    }

    /// The directories that were made, the last first.
    pub fn created_directories(&self) -> (r: Vec<String>)
        ensures
            texts(r@) == texts(self.directories@).reverse(),
    {
        let ghost wanted = texts(self.directories@).reverse();
        let mut r: Vec<String> = Vec::new();
        let mut i: usize = self.directories.len();
        assert(texts(r@) =~= wanted.take(0));
        while i > 0
            invariant
                i <= self.directories@.len(),
                wanted == texts(self.directories@).reverse(),
                wanted.len() == self.directories@.len(),
                texts(r@) == wanted.take(self.directories@.len() - i),
            decreases i,
        {
            i = i - 1;
            let directory = self.directories[i].clone();
            proof {
                let n = self.directories@.len();
                crate::text::lemma_texts_push(r@, directory);
                assert(wanted.take(n - i) =~= wanted.take(n - i - 1).push(directory@));
            }
            r.push(directory);
        }
        assert(wanted.take(self.directories@.len() as int) =~= wanted);
        r
    }
}

/// The links on disk after steps back.
pub open spec fn undone(disk: Map<LinkPathModel, Seq<char>>, steps: Seq<UndoModel>) -> Map<
    LinkPathModel,
    Seq<char>,
>
    decreases steps.len(),
{
    if steps.len() == 0 {
        disk
    } else {
        let before = undone(disk, steps.drop_last());
        match steps.last() {
            UndoModel::Remove(link) => before.remove(link_path_of(link.path)->0),
            UndoModel::Create(link) => before.insert(link_path_of(link.path)->0, link.target),
        }
    }
}

/// The steps back one after the other.
proof fn lemma_undone_plus(
    disk: Map<LinkPathModel, Seq<char>>,
    a: Seq<UndoModel>,
    b: Seq<UndoModel>,
)
    ensures
        undone(disk, a + b) == undone(undone(disk, a), b),
    decreases b.len(),
{
    if b.len() == 0 {
        assert(a + b =~= a);
    } else {
        assert((a + b).drop_last() =~= a + b.drop_last());
        lemma_undone_plus(disk, a, b.drop_last());
    }
}

/// Removing links as steps back.
proof fn lemma_undone_removes(disk: Map<LinkPathModel, Seq<char>>, links: Seq<LinkModel>)
    ensures
        undone(disk, links.map_values(|l: LinkModel| UndoModel::Remove(l))) == without(disk, links),
    decreases links.len(),
{
    let steps = links.map_values(|l: LinkModel| UndoModel::Remove(l));
    if links.len() > 0 {
        assert(steps.drop_last() =~= links.drop_last().map_values(
            |l: LinkModel| UndoModel::Remove(l),
        ));
        lemma_undone_removes(disk, links.drop_last());
        assert(steps.last() == UndoModel::Remove(links.last()));
    }
}

/// Making links as steps back.
proof fn lemma_undone_creates(disk: Map<LinkPathModel, Seq<char>>, links: Seq<LinkModel>)
    ensures
        undone(disk, links.map_values(|l: LinkModel| UndoModel::Create(l))) == with(disk, links),
    decreases links.len(),
{
    let steps = links.map_values(|l: LinkModel| UndoModel::Create(l));
    if links.len() > 0 {
        assert(steps.drop_last() =~= links.drop_last().map_values(
            |l: LinkModel| UndoModel::Create(l),
        ));
        lemma_undone_creates(disk, links.drop_last());
        assert(steps.last() == UndoModel::Create(links.last()));
    }
}

/// The same links in reverse stand at the same places.
proof fn lemma_reverse_any_at(links: Seq<LinkModel>, place: LinkPathModel)
    ensures
        any_at(links.reverse(), place) == any_at(links, place),
{
    let back = links.reverse();
    let n = links.len();
    if any_at(links, place) {
        let k = choose|k: int|
            0 <= k < links.len() && link_path_of((#[trigger] links[k]).path)->0 == place;
        assert(back[n - 1 - k] == links[k]);
    }
    if any_at(back, place) {
        let k = choose|k: int|
            0 <= k < back.len() && link_path_of((#[trigger] back[k]).path)->0 == place;
        assert(links[n - 1 - k] == back[k]);
    }
}

/// However far an update came, the steps back restore the links that stood before: the same places
/// are taken, by links to the same targets.
pub proof fn lemma_rollback_restores(
    disk: Map<LinkPathModel, Seq<char>>,
    removed: Seq<LinkModel>,
    created: Seq<LinkModel>,
)
    requires
        forall|i: int, j: int|
            0 <= i < j < removed.len() ==> link_path_of((#[trigger] removed[i]).path)->0
                != link_path_of((#[trigger] removed[j]).path)->0,
        forall|i: int|
            0 <= i < removed.len() ==> disk.contains_key(
                link_path_of((#[trigger] removed[i]).path)->0,
            ) && equal_paths(disk[link_path_of(removed[i].path)->0], removed[i].target),
        forall|i: int|
            0 <= i < created.len() ==> !without(disk, removed).contains_key(
                link_path_of((#[trigger] created[i]).path)->0,
            ),
    ensures
        ({
            let changed = with(without(disk, removed), created);
            let restored = undone(changed, undo_steps(removed, created));
            &&& restored.dom() == disk.dom()
            &&& forall|place: LinkPathModel| #[trigger]
                disk.contains_key(place) ==> equal_paths(restored[place], disk[place])
        }),
{
    let middle = without(disk, removed);
    let changed = with(middle, created);
    let first = created.reverse().map_values(|l: LinkModel| UndoModel::Remove(l));
    let second = removed.reverse().map_values(|l: LinkModel| UndoModel::Create(l));
    lemma_undone_plus(changed, first, second);
    lemma_undone_removes(changed, created.reverse());
    let back = without(changed, created.reverse());
    lemma_undone_creates(back, removed.reverse());
    let restored = with(back, removed.reverse());
    assert(restored == undone(changed, undo_steps(removed, created)));
    assert forall|place: LinkPathModel| #[trigger] restored.contains_key(place)
        <==> disk.contains_key(place) by {
        lemma_one_restored(disk, removed, created, place);
    }
    assert(restored.dom() =~= disk.dom());
    assert forall|place: LinkPathModel| #[trigger] disk.contains_key(place) implies equal_paths(
        restored[place],
        disk[place],
    ) by {
        lemma_one_restored(disk, removed, created, place);
    }
}

/// One place after the steps back.
proof fn lemma_one_restored(
    disk: Map<LinkPathModel, Seq<char>>,
    removed: Seq<LinkModel>,
    created: Seq<LinkModel>,
    place: LinkPathModel,
)
    requires
        forall|i: int, j: int|
            0 <= i < j < removed.len() ==> link_path_of((#[trigger] removed[i]).path)->0
                != link_path_of((#[trigger] removed[j]).path)->0,
        forall|i: int|
            0 <= i < removed.len() ==> disk.contains_key(
                link_path_of((#[trigger] removed[i]).path)->0,
            ) && equal_paths(disk[link_path_of(removed[i].path)->0], removed[i].target),
        forall|i: int|
            0 <= i < created.len() ==> !without(disk, removed).contains_key(
                link_path_of((#[trigger] created[i]).path)->0,
            ),
    ensures
        ({
            let changed = with(without(disk, removed), created);
            let restored = with(without(changed, created.reverse()), removed.reverse());
            &&& restored.contains_key(place) <==> disk.contains_key(place)
            &&& disk.contains_key(place) ==> equal_paths(restored[place], disk[place])
        }),
{
    let middle = without(disk, removed);
    let changed = with(middle, created);
    let back = without(changed, created.reverse());
    let again = removed.reverse();
    lemma_without(disk, removed, place);
    lemma_without(changed, created.reverse(), place);
    lemma_reverse_any_at(created, place);
    lemma_reverse_any_at(removed, place);
    if any_at(created, place) {
        let k = choose|k: int|
            0 <= k < created.len() && link_path_of((#[trigger] created[k]).path)->0 == place;
        assert(!middle.contains_key(place));
    } else {
        assert(only_target(created, place, Seq::<char>::empty()));
        lemma_with(middle, created, place, Seq::<char>::empty());
    }
    if any_at(removed, place) {
        let k = choose|k: int|
            0 <= k < removed.len() && link_path_of((#[trigger] removed[k]).path)->0 == place;
        let n = removed.len();
        assert forall|i: int|
            0 <= i < again.len() && link_path_of((#[trigger] again[i]).path)->0 == place implies again[i].target
            == removed[k].target by {
            assert(again[i] == removed[n - 1 - i]);
            if n - 1 - i < k {
                assert(link_path_of(removed[n - 1 - i].path)->0 != link_path_of(
                    removed[k].path,
                )->0);
            }
            if k < n - 1 - i {
                assert(link_path_of(removed[k].path)->0 != link_path_of(
                    removed[n - 1 - i].path,
                )->0);
            }
        }
        lemma_with(back, again, place, removed[k].target);
        assert(disk.contains_key(place));
    } else {
        assert(only_target(again, place, Seq::<char>::empty()));
        lemma_with(back, again, place, Seq::<char>::empty());
    }
}

/// However far the update from the previous to the desired links came before it failed, the steps
/// back restore the links that stood before. Links are made only after all removals.
pub proof fn lemma_failed_update_restores(
    disk: Map<LinkPathModel, Seq<char>>,
    places: Seq<LinkPathModel>,
    previous: Map<LinkPathModel, ManagedLink>,
    desired: Map<LinkPathModel, ManagedLink>,
    exists: Seq<bool>,
    removed: int,
    created: int,
)
    requires
        exists.len() == places.len(),
        places.no_duplicates(),
        at_their_places(previous),
        at_their_places(desired),
        observed_right(disk, places, previous, exists),
        0 <= removed <= present(removal_list(places, previous, desired, exists)).len(),
        0 <= created <= present(creation_list(places, previous, desired, exists)).len(),
        created > 0 ==> removed == present(removal_list(places, previous, desired, exists)).len(),
    ensures
        ({
            let gone = present(removal_list(places, previous, desired, exists)).take(removed);
            let made = present(creation_list(places, previous, desired, exists)).take(created);
            let restored = undone(with(without(disk, gone), made), undo_steps(gone, made));
            &&& restored.dom() == disk.dom()
            &&& forall|place: LinkPathModel| #[trigger]
                disk.contains_key(place) ==> equal_paths(restored[place], disk[place])
        }),
{
    let removals = removal_list(places, previous, desired, exists);
    let creations = creation_list(places, previous, desired, exists);
    let gone = present(removals).take(removed);
    let made = present(creations).take(created);
    assert forall|i: int, j: int| 0 <= i < j < gone.len() implies link_path_of(
        (#[trigger] gone[i]).path,
    )->0 != link_path_of((#[trigger] gone[j]).path)->0 by {
        let a = lemma_present_from(removals, i);
        let b = lemma_present_from(removals, j);
        lemma_place_in_order(removals, i, j);
        assert(previous.contains_key(places[a]) && previous.contains_key(places[b]));
        assert(stands_at(previous[places[a]]@, places[a]));
        assert(stands_at(previous[places[b]]@, places[b]));
        assert(places[a] != places[b]);
    }
    assert forall|i: int| 0 <= i < gone.len() implies disk.contains_key(
        link_path_of((#[trigger] gone[i]).path)->0,
    ) && equal_paths(disk[link_path_of(gone[i].path)->0], gone[i].target) by {
        let a = lemma_present_from(removals, i);
        assert(previous.contains_key(places[a]));
        assert(stands_at(previous[places[a]]@, places[a]));
        assert(exists[a]);
        assert(exists[a] == disk.contains_key(places[a]));
    }
    assert forall|i: int| 0 <= i < made.len() implies !without(disk, gone).contains_key(
        link_path_of((#[trigger] made[i]).path)->0,
    ) by {
        let a = lemma_present_from(creations, i);
        assert(desired.contains_key(places[a]));
        assert(stands_at(desired[places[a]]@, places[a]));
        assert(gone =~= present(removals));
        lemma_without(disk, gone, places[a]);
        lemma_change_at(places, previous, desired, exists, a);
        assert(exists[a] == disk.contains_key(places[a]));
        if exists[a] {
            assert(removals[a] is Some);
        }
    }
    lemma_rollback_restores(disk, gone, made);
}

/// The steps of a change to a project, in their order.
#[derive(Clone, Copy, Debug, PartialEq, Eq, Structural)]
pub enum Step {
    /// Bring the links to the desired ones. A failure here leaves them as they were.
    Reconcile,
    /// Write the pins.
    WriteLockfile,
    /// Write the manifest.
    WriteManifest,
    /// Nothing: the change is made.
    Done,
}

/// A step by which a failed change is taken back.
#[derive(Clone, Copy, Debug, PartialEq, Eq, Structural)]
pub enum Restore {
    /// Write the pins that were there, or remove the file where there were none.
    Lockfile,
    /// Bring the links back to the previous ones.
    Links,
}

/// The pins are written where there are some, or where there were.
pub fn writes_lockfile(pins_packages: bool, had_lockfile: bool) -> (r: bool)
    ensures
        r == (pins_packages || had_lockfile),
{
    pins_packages || had_lockfile
}

/// The step after one that succeeded.
pub open spec fn step_after(step: Step, lockfile: bool, manifest: bool) -> Step {
    match step {
        Step::Reconcile => if lockfile {
            Step::WriteLockfile
        } else if manifest {
            Step::WriteManifest
        } else {
            Step::Done
        },
        Step::WriteLockfile => if manifest {
            Step::WriteManifest
        } else {
            Step::Done
        },
        Step::WriteManifest | Step::Done => Step::Done,
    }
}

/// The step after one that succeeded; `lockfile` and `manifest` tell which files are written.
pub fn next_step(step: Step, lockfile: bool, manifest: bool) -> (r: Step)
    ensures
        r == step_after(step, lockfile, manifest),
{
    match step {
        Step::Reconcile => if lockfile {
            Step::WriteLockfile
        } else if manifest {
            Step::WriteManifest
        } else {
            Step::Done
        },
        Step::WriteLockfile => if manifest {
            Step::WriteManifest
        } else {
            Step::Done
        },
        Step::WriteManifest | Step::Done => Step::Done,
    }
}

/// How a change is taken back that failed at a step.
pub open spec fn restores(failed: Step, lockfile: bool) -> Seq<Restore> {
    match failed {
        Step::Reconcile | Step::Done => Seq::empty(),
        Step::WriteLockfile => seq![Restore::Links],
        Step::WriteManifest => if lockfile {
            seq![Restore::Lockfile, Restore::Links]
        } else {
            seq![Restore::Links]
        },
    }
}

/// How a change is taken back that failed at a step.
pub fn restore_snapshot(failed: Step, lockfile: bool) -> (r: Vec<Restore>)
    ensures
        r@ == restores(failed, lockfile),
{
    let mut r: Vec<Restore> = Vec::new();
    match failed {
        Step::Reconcile | Step::Done => {},
        Step::WriteLockfile => {
            r.push(Restore::Links);
        },
        Step::WriteManifest => {
            if lockfile {
                r.push(Restore::Lockfile);
            }
            r.push(Restore::Links);
        },
    }
    assert(r@ =~= restores(failed, lockfile));
    r
}

/// What a project consists of: its pins, its links and its manifest. `L` stands for the links.
pub struct ProjectFiles<L> {
    pub lockfile: Option<Seq<char>>,
    pub links: L,
    pub manifest: Option<Seq<char>>,
}

/// A project after a step of a change to the wanted one.
pub open spec fn stepped<L>(now: ProjectFiles<L>, wanted: ProjectFiles<L>, step: Step) -> ProjectFiles<
    L,
> {
    match step {
        Step::Reconcile => ProjectFiles { links: wanted.links, ..now },
        Step::WriteLockfile => ProjectFiles { lockfile: wanted.lockfile, ..now },
        Step::WriteManifest => ProjectFiles { manifest: wanted.manifest, ..now },
        Step::Done => now,
    }
}

/// A project after the steps of a change that come before one.
pub open spec fn before_step<L>(
    start: ProjectFiles<L>,
    wanted: ProjectFiles<L>,
    lockfile: bool,
    step: Step,
) -> ProjectFiles<L> {
    let linked = stepped(start, wanted, Step::Reconcile);
    match step {
        Step::Reconcile => start,
        Step::WriteLockfile => linked,
        Step::WriteManifest => if lockfile {
            stepped(linked, wanted, Step::WriteLockfile)
        } else {
            linked
        },
        Step::Done => start,
    }
}

/// A project after steps by which a change is taken back to the first one.
pub open spec fn restored<L>(
    now: ProjectFiles<L>,
    start: ProjectFiles<L>,
    steps: Seq<Restore>,
) -> ProjectFiles<L>
    decreases steps.len(),
{
    if steps.len() == 0 {
        now
    } else {
        let before = restored(now, start, steps.drop_last());
        match steps.last() {
            Restore::Lockfile => ProjectFiles { lockfile: start.lockfile, ..before },
            Restore::Links => ProjectFiles { links: start.links, ..before },
        }
    }
}

/// At whichever step a change fails, taking it back leaves the project as it was: its pins, its
/// links and its manifest.
pub proof fn lemma_failed_change_is_taken_back<L>(
    start: ProjectFiles<L>,
    wanted: ProjectFiles<L>,
    lockfile: bool,
    failed: Step,
)
    requires
        !(failed is Done),
    ensures
        restored(
            before_step(start, wanted, lockfile, failed),
            start,
            restores(failed, lockfile),
        ) == start,
{
    let steps = restores(failed, lockfile);
    reveal_with_fuel(restored, 3);
    if steps.len() == 2 {
        assert(steps.drop_last() =~= seq![Restore::Lockfile]);
        assert(steps.drop_last().drop_last() =~= Seq::<Restore>::empty());
    }
    if steps.len() == 1 {
        assert(steps.drop_last() =~= Seq::<Restore>::empty());
    }
}

/// The text for links that could not all be changed back.
pub fn rollback_failure(error: &str, failures: &Vec<String>) -> (r: String)
    ensures
        r@ == error@ + "; could not fully restore package links: "@ + joined(
            texts(failures@),
            "; "@,
        ),
{
    plus3(
        error,
        "; could not fully restore package links: ",
        join(failures, "; ").as_str(),
    )
}

/// The text for a change that could not be taken back whole.
pub fn incomplete_rollback(failures: &Vec<String>) -> (r: String)
    ensures
        r@ == "rollback incomplete: "@ + joined(texts(failures@), "; "@),
{
    plus("rollback incomplete: ", join(failures, "; ").as_str())
}

} // verus!
