use gdpr_consent::vendor_list::{
    deserialize_list_as_id_map, serialize_id_map_as_list, Feature, HasId, Purpose, Vendor,
    VendorList,
};
use std::collections::HashMap;

#[test]
fn vendor_list_serialize_good() {}

#[test]
fn vendor_list_deserialize_good() {}

fn purpose(id: u8, name: &str) -> Purpose {
    Purpose { id, name: name.to_string(), description: format!("about {}", name) }
}

fn vendor(id: u16, name: &str) -> Vendor {
    Vendor {
        id,
        name: name.to_string(),
        policy_url: format!("https://{}.example/privacy", name),
        purpose_ids: vec![1, 2],
        leg_int_purpose_ids: vec![3],
        feature_ids: vec![],
    }
}

#[test]
fn ids_are_the_id_fields() {
    assert_eq!(purpose(5, "ads").id(), 5);
    assert_eq!(vendor(32, "appnexus").id(), 32);
    let feature = Feature { id: 3, name: "matching".to_string(), description: String::new() };
    assert_eq!(feature.id(), 3);
}

#[test]
fn list_is_keyed_by_id() {
    let map: HashMap<u8, Purpose> =
        deserialize_list_as_id_map(vec![purpose(3, "c"), purpose(1, "a"), purpose(2, "b")]);
    assert_eq!(map.len(), 3);
    assert_eq!(map.get(&1).unwrap().name, "a");
    assert_eq!(map.get(&2).unwrap().name, "b");
    assert_eq!(map.get(&3).unwrap().name, "c");
    assert!(map.get(&4).is_none());
}

#[test]
fn later_value_of_one_id_stays() {
    let map: HashMap<u8, Purpose> =
        deserialize_list_as_id_map(vec![purpose(1, "first"), purpose(1, "second")]);
    assert_eq!(map.len(), 1);
    assert_eq!(map.get(&1).unwrap().name, "second");
}

#[test]
fn map_is_listed_in_ascending_order_of_id() {
    let map: HashMap<u16, Vendor> = deserialize_list_as_id_map(vec![
        vendor(700, "g"),
        vendor(32, "a"),
        vendor(65535, "z"),
        vendor(0, "o"),
        vendor(256, "m"),
    ]);
    let list = serialize_id_map_as_list(&map);
    let ids: Vec<u16> = list.iter().map(|v| v.id).collect();
    assert_eq!(ids, vec![0, 32, 256, 700, 65535]);
    let names: Vec<&str> = list.iter().map(|v| v.name.as_str()).collect();
    assert_eq!(names, vec!["o", "a", "m", "g", "z"]);
}

#[test]
fn empty_map_lists_nothing() {
    let map: HashMap<u8, Feature> = HashMap::new();
    assert!(serialize_id_map_as_list(&map).is_empty());
}

#[test]
fn vendor_list_from_lists() {
    let list = VendorList::from_lists(
        8,
        1_525_263_550_000,
        vec![purpose(2, "b"), purpose(1, "a")],
        vec![],
        vec![vendor(32, "appnexus")],
    );
    assert_eq!(list.version, 8);
    assert_eq!(list.last_updated, 1_525_263_550_000);
    assert_eq!(list.purposes.len(), 2);
    assert!(list.features.is_empty());
    assert_eq!(list.vendors.get(&32).unwrap().name, "appnexus");
}

#[test]
fn every_value_of_the_map_is_listed_once() {
    let purposes: Vec<Purpose> =
        [255u8, 0, 17, 128, 1].iter().map(|id| purpose(*id, &format!("p{}", id))).collect();
    let map: HashMap<u8, Purpose> = deserialize_list_as_id_map(purposes);
    let list = serialize_id_map_as_list(&map);
    assert_eq!(list.len(), map.len());
    let ids: Vec<u8> = list.iter().map(|p| p.id).collect();
    assert_eq!(ids, vec![0, 1, 17, 128, 255]);
    for value in map.values() {
        assert_eq!(list.iter().filter(|p| p.id == value.id && p.name == value.name).count(), 1);
    }
    let all: Vec<Vendor> = (0..=65535u16).rev().map(|id| vendor(id, "v")).collect();
    let map: HashMap<u16, Vendor> = deserialize_list_as_id_map(all);
    let list = serialize_id_map_as_list(&map);
    assert_eq!(list.len(), 65536);
    assert!(list.iter().enumerate().all(|(place, v)| v.id as usize == place));
}
