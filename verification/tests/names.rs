use cjseq::{CityObject, CjseqError, Extension, IdRemap, NameMap, ReferenceSystem};

#[test]
fn reference_system_reads_as_its_url() {
    let r = ReferenceSystem::new(None, "EPSG".to_string(), "0".to_string(), "7415".to_string());
    assert_eq!(r.base_url, "https://www.opengis.net/def/crs");
    assert_eq!(r.to_url(), "https://www.opengis.net/def/crs/EPSG/0/7415");
    let r = ReferenceSystem::new(
        Some("http://x".to_string()),
        "OGC".to_string(),
        "1.3".to_string(),
        "CRS84".to_string(),
    );
    assert_eq!(r.to_url(), "http://x/OGC/1.3/CRS84");
}

#[test]
fn reference_system_is_read_from_its_url() {
    let r = ReferenceSystem::from_url("https://www.opengis.net/def/crs/EPSG/0/7415").unwrap();
    assert_eq!(r.base_url, "https://www.opengis.net/def/crs");
    assert_eq!(r.authority, "EPSG");
    assert_eq!(r.version, "0");
    assert_eq!(r.code, "7415");
    assert_eq!(r.to_url(), "https://www.opengis.net/def/crs/EPSG/0/7415");
    let r = ReferenceSystem::from_url("http://www.opengis.net/def/crs/OGC//").unwrap();
    assert_eq!((r.authority.as_str(), r.version.as_str(), r.code.as_str()), ("OGC", "", ""));
}

#[test]
fn reference_system_rejects_other_texts() {
    let invalid = Err(CjseqError::Generic("Invalid reference system URL".to_string()));
    assert_eq!(ReferenceSystem::from_url("https://example.org/def/crs/EPSG/0/7415"), invalid);
    assert_eq!(ReferenceSystem::from_url("https://www.opengis.net/def/crs/EPSG/0"), invalid);
    assert_eq!(ReferenceSystem::from_url("https://www.opengis.net/def/crs/EPSG/0/1/2"), invalid);
    assert_eq!(ReferenceSystem::from_url("https://www.opengis.net/def/crs"), invalid);
    assert_eq!(ReferenceSystem::from_url("https://www.opengis.net/def/crs/"), invalid);
    assert_eq!(ReferenceSystem::from_url(""), invalid);
    assert_eq!(
        ReferenceSystem::from_url("http://crs.org//www.opengis.net/def/crs/EPSG/0/7415"),
        invalid
    );
    assert_eq!(ReferenceSystem::from_url("https://www.opengis.net/def/crs\u{e9}EPSG/0/1"), invalid);
}

#[test]
fn extension_holds_its_url_and_version() {
    let e = Extension::new("https://x/ext.json".to_string(), "1.0".to_string());
    assert_eq!(e.url, "https://x/ext.json");
    assert_eq!(e.version, "1.0");
    assert_eq!(e.clone(), e);
}

#[test]
fn name_map_keeps_the_order_and_replaces_in_place() {
    let mut m: NameMap<u32> = NameMap::new();
    assert!(m.is_empty());
    m.insert("b".to_string(), 1);
    m.insert("a".to_string(), 2);
    m.insert("b".to_string(), 3);
    assert_eq!(m.len(), 2);
    assert_eq!(m.entries, vec![("b".to_string(), 3), ("a".to_string(), 2)]);
    assert_eq!(m.get(&"a".to_string()), Some(&2));
    assert_eq!(m.get(&"c".to_string()), None);
    assert_eq!(m.find(&"a".to_string()), Some(1));
    assert!(m.contains_key(&"b".to_string()));
    assert!(!m.contains_key(&"".to_string()));
    assert_eq!(m.clone(), m);
}

#[test]
fn table_gives_the_next_free_id_to_a_new_old_id() {
    let mut t = IdRemap::new();
    assert_eq!(t.resolve(40, 0), 0);
    assert_eq!(t.resolve(7, 0), 1);
    assert_eq!(t.resolve(40, 0), 0);
    assert_eq!(t.resolve(8, 10), 12);
    assert_eq!(t.len(), 3);
    assert_eq!(t.get(8), Some(12));
    assert_eq!(t.get(9), None);
    t.record(7, 99);
    t.record(0, 5);
    assert_eq!(t.get(7), Some(99));
    assert_eq!(t.len(), 4);
    assert_eq!(t.pair_at(1), (7, 99));
    assert_eq!(t.pair_at(3), (0, 5));
    assert_eq!(t.resolve(1, 0), 4);
}

fn typed(t: &str) -> CityObject {
    CityObject::new(t.to_string(), None, None, None, None, None, None, None)
}

#[test]
fn city_object_tells_its_extension() {
    assert_eq!(typed("Building").get_type(), "Building");
    assert!(!typed("Building").is_extension_type());
    assert_eq!(typed("Building").get_extension_type(), None);
    assert!(typed("+NoiseBuilding").is_extension_type());
    assert_eq!(typed("+NoiseBuilding").get_extension_type(), Some("NoiseBuilding".to_string()));
    assert_eq!(typed("+Noise.Building").get_extension_type(), Some("Noise".to_string()));
    assert_eq!(typed("+Noise+Building").get_extension_type(), Some("Noise".to_string()));
    assert_eq!(typed("++A.b").get_extension_type(), Some("A".to_string()));
    assert_eq!(typed("+").get_extension_type(), Some("".to_string()));
    assert_eq!(typed("").get_extension_type(), None);
    assert!(!typed("").is_extension_type());
}

#[test]
fn city_object_without_parents_is_toplevel() {
    let mut o = typed("Building");
    assert!(o.is_toplevel());
    assert_eq!(o.get_children_keys(), Vec::<String>::new());
    o.parents = Some(vec![]);
    assert!(o.is_toplevel());
    o.parents = Some(vec!["p".to_string()]);
    assert!(!o.is_toplevel());
    o.children = Some(vec!["c1".to_string(), "c2".to_string()]);
    assert_eq!(o.get_children_keys(), vec!["c1", "c2"]);
    o.attributes = Some(serde_json::Value::from("x"));
    assert_eq!(o.clone(), o);
}
