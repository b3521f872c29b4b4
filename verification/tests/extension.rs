use cjseq::{CjseqError, ExtensionFile};

#[test]
fn test_extension_file_validation() {
    let valid_ext = ExtensionFile::new(
        "Noise".to_string(),
        "https://www.cityjson.org/schemas/extensions/noise.ext.json".to_string(),
        "1.0".to_string(),
    );
    assert!(valid_ext.validate().is_ok());

    let mut invalid_type = valid_ext.clone();
    invalid_type.thetype = "Invalid".to_string();
    assert!(invalid_type.validate().is_err());

    let mut invalid_name = valid_ext.clone();
    invalid_name.name = "".to_string();
    assert!(invalid_name.validate().is_err());

    let mut invalid_url = valid_ext.clone();
    invalid_url.url = "".to_string();
    assert!(invalid_url.validate().is_err());
}

#[test]
fn extension_file_faults_in_order() {
    let valid = ExtensionFile::new("Noise".to_string(), "u".to_string(), "1.0".to_string());
    let mut e = valid.clone();
    e.version = "".to_string();
    e.extra_attributes = serde_json::Value::Null;
    assert_eq!(
        e.validate(),
        Err(CjseqError::InvalidValue {
            field: "version".to_string(),
            reason: "cannot be empty".to_string(),
        })
    );
    let mut e = valid.clone();
    e.version_city_json = "".to_string();
    assert_eq!(
        e.validate(),
        Err(CjseqError::InvalidValue {
            field: "versionCityJSON".to_string(),
            reason: "cannot be empty".to_string(),
        })
    );
    let mut e = valid.clone();
    e.extra_root_properties = serde_json::Value::from(3);
    e.extra_semantic_surfaces = serde_json::Value::Null;
    assert_eq!(
        e.validate(),
        Err(CjseqError::InvalidValue {
            field: "extraRootProperties".to_string(),
            reason: "must be a JSON object".to_string(),
        })
    );
    let mut e = valid.clone();
    e.thetype = "CityJSON".to_string();
    assert_eq!(
        e.validate(),
        Err(CjseqError::InvalidValue {
            field: "thetype".to_string(),
            reason: "must be 'CityJSONExtension'".to_string(),
        })
    );
}

#[test]
fn extension_file_takes_what_the_schema_says() {
    let schema: serde_json::Value = serde_json::from_str(
        "{\"description\": \"Noise data\", \"extraAttributes\": {\"a\": 1}, \
         \"extraCityObjects\": {\"+NoiseBuilding\": {}, \"+NoiseCityFurnitureSegment\": {}}, \
         \"extraRootProperties\": [1, 2], \"other\": true}",
    )
    .unwrap();
    let mut e = ExtensionFile::new("Noise".to_string(), "u".to_string(), "1.0".to_string());
    assert_eq!(e.get_city_object_types(), Vec::<String>::new());
    ExtensionFile::populate_extension_from_json(&mut e, schema.clone());
    assert_eq!(e.description, "Noise data");
    assert_eq!(e.extra_attributes, schema["extraAttributes"]);
    assert_eq!(e.extra_city_objects, schema["extraCityObjects"]);
    assert!(e.extra_root_properties.is_object());
    assert_eq!(e.extra_root_properties.as_object().unwrap().len(), 0);
    assert!(e.extra_semantic_surfaces.is_object());
    assert_eq!(e.name, "Noise");
    assert_eq!(
        e.get_city_object_types(),
        vec!["+NoiseBuilding".to_string(), "+NoiseCityFurnitureSegment".to_string()]
    );
    assert!(e.validate().is_ok());
}

#[test]
fn extension_file_keeps_its_description_without_a_text() {
    let schema: serde_json::Value = serde_json::from_str("{\"description\": 5}").unwrap();
    let mut e = ExtensionFile::new("Noise".to_string(), "u".to_string(), "1.0".to_string());
    e.description = "before".to_string();
    ExtensionFile::populate_extension_from_json(&mut e, schema);
    assert_eq!(e.description, "before");
}
