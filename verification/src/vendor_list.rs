//! The global vendor list: vendors, purposes and features, each kept in a
//! map from its ID, and each map written out as a list in ascending order
//! of ID.

use std::collections::HashMap;
use std::hash::Hash;
use vstd::prelude::*;
use vstd::std_specs::hash::obeys_key_model;

verus! {

/// Something that carries an ID of type `T`.
pub trait HasId<T> {
    /// The ID.
    spec fn id_spec(&self) -> T;

    /// The ID.
    fn id(&self) -> (id: T)
        ensures
            id == self.id_spec(),
    ;
}

/// A type of IDs: finitely many values, each at its place in a fixed
/// ascending order, fit to key a hash map.
pub trait Key: Copy + Eq + Hash {
    /// How many IDs the type has.
    spec fn count() -> nat;

    /// The ID at a place of the ascending order, counted from 0.
    spec fn at(place: nat) -> Self;

    /// The place of an ID in the ascending order.
    spec fn place(self) -> nat;

    /// How many IDs the type has.
    fn total() -> (total: usize)
        ensures
            total == Self::count(),
    ;

    /// The ID at a place of the ascending order, counted from 0.
    fn nth(place: usize) -> (key: Self)
        requires
            place < Self::count(),
        ensures
            key == Self::at(place as nat),
    ;

    /// Every ID has a place, and stands at it.
    proof fn lemma_every_key_has_a_place(key: Self)
        ensures
            key.place() < Self::count(),
            Self::at(key.place()) == key,
    ;

    /// The ID at a place has that place, so the IDs at two places differ.
    proof fn lemma_place_of_at(place: nat)
        requires
            place < Self::count(),
        ensures
            Self::at(place).place() == place,
    ;

    /// A hash map finds what was stored under an ID of this type.
    proof fn lemma_hashes()
        ensures
            obeys_key_model::<Self>(),
    ;
}

impl Key for u8 {
    open spec fn count() -> nat {
        256
    }

    open spec fn at(place: nat) -> u8 {
        place as u8
    }

    open spec fn place(self) -> nat {
        self as nat
    }

    fn total() -> (total: usize) {
        256
    }

    fn nth(place: usize) -> (key: u8) {
        place as u8
    }

    proof fn lemma_every_key_has_a_place(key: u8) {
    }

    proof fn lemma_place_of_at(place: nat) {
    }

    proof fn lemma_hashes() {
        broadcast use vstd::std_specs::hash::group_hash_axioms;

    }
}

impl Key for u16 {
    open spec fn count() -> nat {
        65536
    }

    open spec fn at(place: nat) -> u16 {
        place as u16
    }

    open spec fn place(self) -> nat {
        self as nat
    }

    fn total() -> (total: usize) {
        65536
    }

    fn nth(place: usize) -> (key: u16) {
        place as u16
    }

    proof fn lemma_every_key_has_a_place(key: u16) {
    }

    proof fn lemma_place_of_at(place: nat) {
    }

    proof fn lemma_hashes() {
        broadcast use vstd::std_specs::hash::group_hash_axioms;

    }
}

/// A company that takes part in the framework.
#[derive(Debug)]
pub struct Vendor {
    pub id: u16,
    pub name: String,
    pub policy_url: String,
    pub purpose_ids: Vec<u8>,
    pub leg_int_purpose_ids: Vec<u8>,
    pub feature_ids: Vec<u8>,
}

impl HasId<u16> for Vendor {
    open spec fn id_spec(&self) -> u16 {
        self.id
    }

    fn id(&self) -> (id: u16) {
        self.id
    }
}

/// A purpose for which personal data is processed.
#[derive(Debug)]
pub struct Purpose {
    pub id: u8,
    pub name: String,
    pub description: String,
}

impl HasId<u8> for Purpose {
    open spec fn id_spec(&self) -> u8 {
        self.id
    }

    fn id(&self) -> (id: u8) {
        self.id
    }
}

/// A feature of data processing that vendors can declare.
#[derive(Debug)]
pub struct Feature {
    pub id: u8,
    pub name: String,
    pub description: String,
}

impl HasId<u8> for Feature {
    open spec fn id_spec(&self) -> u8 {
        self.id
    }

    fn id(&self) -> (id: u8) {
        self.id
    }
}

/// The global vendor list.
#[derive(Debug)]
pub struct VendorList {
    /// The version of the list.
    pub version: u16,
    /// When the list was last updated, in milliseconds since the Unix epoch.
    pub last_updated: i64,
    pub purposes: HashMap<u8, Purpose>,
    pub features: HashMap<u8, Feature>,
    pub vendors: HashMap<u16, Vendor>,
}

/// The map that holds each value of a list under its ID. Of two values
/// with one ID the later one stays.
pub open spec fn keyed<K, V: HasId<K>>(values: Seq<V>) -> Map<K, V>
    decreases values.len(),
{
    if values.len() == 0 {
        Map::empty()
    } else {
        keyed(values.drop_last()).insert(values.last().id_spec(), values.last())
    }
}

/// Whether each value of a map stands under its own ID.
pub open spec fn keyed_by_id<K, V: HasId<K>>(map: Map<K, V>) -> bool {
    forall|key: K| map.contains_key(key) ==> (#[trigger] map[key]).id_spec() == key
}

/// The places, among the first `places` of the ascending order, whose IDs
/// are keys of a map, in ascending order.
pub open spec fn key_places<K: Key, V>(map: Map<K, V>, places: nat) -> Seq<nat>
    decreases places,
{
    if places == 0 {
        Seq::empty()
    } else if map.contains_key(K::at((places - 1) as nat)) {
        key_places(map, (places - 1) as nat).push((places - 1) as nat)
    } else {
        key_places(map, (places - 1) as nat)
    }
}

/// The values of a map in ascending order of their keys.
pub open spec fn listed<K: Key, V>(map: Map<K, V>) -> Seq<V> {
    key_places(map, K::count()).map_values(|place: nat| map[K::at(place)])
}

/// The places of the keys of a map are below the bound, each place of a
/// key among them, and each below the one after it.
pub proof fn lemma_key_places<K: Key, V>(map: Map<K, V>, places: nat)
    ensures
        forall|i: int|
            0 <= i < key_places(map, places).len() ==> (#[trigger] key_places(map, places)[i])
                < places && map.contains_key(K::at(key_places(map, places)[i])),
        forall|i: int, j: int|
            0 <= i < j < key_places(map, places).len() ==> key_places(map, places)[i]
                < key_places(map, places)[j],
        forall|place: nat|
            place < places && map.contains_key(K::at(place)) ==> key_places(
                map,
                places,
            ).contains(place),
    decreases places,
{
    if places > 0 {
        let before = key_places(map, (places - 1) as nat);
        let list = key_places(map, places);
        lemma_key_places(map, (places - 1) as nat);
        assert forall|place: nat|
            place < places && map.contains_key(K::at(place)) implies list.contains(place) by {
            if place == places - 1 {
                assert(list[list.len() - 1] == place);
            } else {
                assert(before.contains(place));
                let i = choose|i: int| 0 <= i < before.len() && before[i] == place;
                assert(list[i] == place);
            }
        }
    }
}

/// The keys of a map whose places are among the first `places`.
pub open spec fn keys_below<K: Key, V>(map: Map<K, V>, places: nat) -> Set<K> {
    Set::new(|key: K| map.contains_key(key) && key.place() < places)
}

/// Among the first `places` places there are as many places of keys as the
/// map has keys with such a place.
pub proof fn lemma_key_places_count<K: Key, V>(map: Map<K, V>, places: nat)
    requires
        map.dom().finite(),
        places <= K::count(),
    ensures
        keys_below(map, places).finite(),
        key_places(map, places).len() == keys_below(map, places).len(),
    decreases places,
{
    let keys = keys_below(map, places);
    vstd::set_lib::lemma_len_subset(keys, map.dom());
    if places == 0 {
        assert(keys =~= Set::<K>::empty());
    } else {
        let last = (places - 1) as nat;
        let key = K::at(last);
        let before = keys_below(map, last);
        lemma_key_places_count(map, last);
        K::lemma_place_of_at(last);
        if map.contains_key(key) {
            assert(keys =~= before.insert(key)) by {
                assert forall|other: K| keys.contains(other) implies before.insert(key).contains(
                    other,
                ) by {
                    if other.place() == last {
                        K::lemma_every_key_has_a_place(other);
                    }
                }
            }
            assert(!before.contains(key));
        } else {
            assert(keys =~= before) by {
                assert forall|other: K| keys.contains(other) implies before.contains(other) by {
                    if other.place() == last {
                        K::lemma_every_key_has_a_place(other);
                    }
                }
            }
        }
    }
}

/// The list of the values of a map holds the value of every key of the map,
/// and as many values as the map has keys.
pub proof fn lemma_listed_holds_all<K: Key, V>(map: Map<K, V>)
    requires
        map.dom().finite(),
    ensures
        listed(map).len() == map.len(),
        forall|key: K|
            map.contains_key(key) ==> exists|i: int|
                0 <= i < listed(map).len() && #[trigger] listed(map)[i] == map[key],
{
    let places = key_places(map, K::count());
    lemma_key_places(map, K::count());
    lemma_key_places_count(map, K::count());
    assert(keys_below(map, K::count()) =~= map.dom()) by {
        assert forall|key: K| map.dom().contains(key) implies keys_below(
            map,
            K::count(),
        ).contains(key) by {
            K::lemma_every_key_has_a_place(key);
        }
    }
    assert forall|key: K| map.contains_key(key) implies exists|i: int|
        0 <= i < listed(map).len() && #[trigger] listed(map)[i] == map[key] by {
        K::lemma_every_key_has_a_place(key);
        assert(places.contains(key.place()));
        let i = choose|i: int| 0 <= i < places.len() && places[i] == key.place();
        assert(listed(map)[i] == map[key]);
    }
}

/// Where each value of a map stands under its own ID, the values of the
/// list stand in ascending order of their IDs, so each ID occurs once.
pub proof fn lemma_listed_by_id<K: Key, V: HasId<K>>(map: Map<K, V>)
    requires
        keyed_by_id(map),
    ensures
        listed(map).len() == key_places(map, K::count()).len(),
        forall|i: int|
            0 <= i < listed(map).len() ==> (#[trigger] listed(map)[i]).id_spec() == K::at(
                key_places(map, K::count())[i],
            ),
        forall|i: int, j: int|
            0 <= i < j < listed(map).len() ==> listed(map)[i].id_spec().place() < listed(
                map,
            )[j].id_spec().place(),
        forall|i: int, j: int|
            0 <= i < j < listed(map).len() ==> listed(map)[i].id_spec() != listed(
                map,
            )[j].id_spec(),
{
    lemma_key_places(map, K::count());
    let places = key_places(map, K::count());
    assert forall|i: int, j: int| 0 <= i < j < listed(map).len() implies listed(
        map,
    )[i].id_spec().place() < listed(map)[j].id_spec().place() by {
        assert(places[i] < places[j] && places[j] < K::count());
        K::lemma_place_of_at(places[i]);
        K::lemma_place_of_at(places[j]);
        assert(map.contains_key(K::at(places[i])));
        assert(map.contains_key(K::at(places[j])));
    }
}

/// A map from a list built by `keyed` holds each value under its own ID.
pub proof fn lemma_keyed_by_id<K, V: HasId<K>>(values: Seq<V>)
    ensures
        keyed_by_id(keyed::<K, V>(values)),
    decreases values.len(),
{
    if values.len() > 0 {
        lemma_keyed_by_id::<K, V>(values.drop_last());
    }
}

/// Keys each value of a list by its ID.
pub fn deserialize_list_as_id_map<K: Key, V: HasId<K>>(values: Vec<V>) -> (map: HashMap<K, V>)
    ensures
        map@ == keyed::<K, V>(values@),
{
    broadcast use vstd::std_specs::hash::group_hash_axioms;

    proof {
        K::lemma_hashes();
    }
    let mut map: HashMap<K, V> = HashMap::new();
    let ghost all = values@;
    for value in iter: values
        invariant
            obeys_key_model::<K>(),
            iter.seq() == all,
            map@ == keyed::<K, V>(all.take(iter.index())),
    {
        assert(all.take(iter.index() + 1).drop_last() =~= all.take(iter.index()));
        let key = value.id();
        map.insert(key, value);
    }
    assert(all.take(all.len() as int) =~= all);
    map
}

/// Lists the values of a map in ascending order of their keys: every value
/// of the map once. Where each value stands under its own ID, that is the
/// ascending order of the IDs.
pub fn serialize_id_map_as_list<'a, K: Key, V: HasId<K>>(map: &'a HashMap<K, V>) -> (list: Vec<
    &'a V,
>)
    ensures
        list@.len() == listed(map@).len(),
        forall|i: int| 0 <= i < list@.len() ==> *list@[i] == listed(map@)[i],
        list@.len() == map@.len(),
        forall|key: K|
            map@.contains_key(key) ==> exists|i: int|
                0 <= i < list@.len() && *#[trigger] list@[i] == map@[key],
        keyed_by_id(map@) ==> forall|i: int, j: int|
            0 <= i < j < list@.len() ==> (*list@[i]).id_spec().place() < (
            *list@[j]).id_spec().place(),
{
    broadcast use vstd::std_specs::hash::group_hash_axioms;

    proof {
        K::lemma_hashes();
    }
    let mut list: Vec<&'a V> = Vec::new();
    let total = K::total();
    let mut place: usize = 0;
    while place < total
        invariant
            obeys_key_model::<K>(),
            place <= total,
            total == K::count(),
            list@.len() == key_places(map@, place as nat).len(),
            forall|i: int|
                0 <= i < list@.len() ==> *list@[i] == map@[K::at(
                    key_places(map@, place as nat)[i],
                )],
        decreases total - place,
    {
        let key = K::nth(place);
        match map.get(&key) {
            Some(value) => {
                list.push(value);
            },
            None => {},
        }
        place = place + 1;
    }
    proof {
        lemma_listed_holds_all(map@);
        assert forall|key: K| map@.contains_key(key) implies exists|i: int|
            0 <= i < list@.len() && *#[trigger] list@[i] == map@[key] by {
            let i = choose|i: int| 0 <= i < listed(map@).len() && listed(map@)[i] == map@[key];
            assert(*list@[i] == map@[key]);
        }
        if keyed_by_id(map@) {
            lemma_listed_by_id(map@);
            assert forall|i: int, j: int| 0 <= i < j < list@.len() implies (
            *list@[i]).id_spec().place() < (*list@[j]).id_spec().place() by {
                assert(*list@[i] == listed(map@)[i]);
                assert(*list@[j] == listed(map@)[j]);
            }
        }
    }
    list
}

impl VendorList {
    /// The vendor list with the given purposes, features and vendors, each
    /// kept under its ID.
    pub fn from_lists(
        version: u16,
        last_updated: i64,
        purposes: Vec<Purpose>,
        features: Vec<Feature>,
        vendors: Vec<Vendor>,
    ) -> (list: VendorList)
        ensures
            list.version == version,
            list.last_updated == last_updated,
            list.purposes@ == keyed::<u8, Purpose>(purposes@),
            list.features@ == keyed::<u8, Feature>(features@),
            list.vendors@ == keyed::<u16, Vendor>(vendors@),
    {
        VendorList {
            version,
            last_updated,
            purposes: deserialize_list_as_id_map(purposes),
            features: deserialize_list_as_id_map(features),
            vendors: deserialize_list_as_id_map(vendors),
        }
    }
}

} // verus!
