use cjseq::{
    Appearance, CjseqError, MaterialObject, Scalar, TextFormat, TextType, TextureObject, Validate,
    WrapMode,
};

fn s(x: f64) -> Scalar {
    Scalar::from_bits(x.to_bits())
}

fn color(a: f64, b: f64, c: f64) -> Option<[Scalar; 3]> {
    Some([s(a), s(b), s(c)])
}

#[test]
fn test_add_material() {
    let mut appearance = Appearance::new();

    let mat1 = MaterialObject {
        name: "roofandground".to_string(),
        ambient_intensity: Some(s(0.2)),
        diffuse_color: color(0.9, 0.1, 0.75),
        emissive_color: color(0.9, 0.1, 0.75),
        specular_color: color(0.9, 0.1, 0.75),
        shininess: Some(s(0.2)),
        transparency: Some(s(0.5)),
        is_smooth: Some(false),
    };
    let index1 = appearance.add_material(mat1.clone());
    assert_eq!(index1, 0);

    let index2 = appearance.add_material(mat1.clone());
    assert_eq!(index2, 0);

    let mat2 = MaterialObject {
        name: "wall".to_string(),
        ambient_intensity: Some(s(0.4)),
        diffuse_color: color(0.1, 0.1, 0.9),
        emissive_color: color(0.1, 0.1, 0.9),
        specular_color: color(0.9, 0.1, 0.75),
        shininess: Some(s(0.0)),
        transparency: Some(s(0.5)),
        is_smooth: Some(true),
    };
    let index3 = appearance.add_material(mat2);
    assert_eq!(index3, 1);
}

#[test]
fn test_add_texture() {
    let mut appearance = Appearance::new();

    let tex1 = TextureObject {
        texture_format: TextFormat::Jpg,
        image: "appearances/0320_2_12.jpg".to_string(),
        wrap_mode: None,
        texture_type: None,
        border_color: None,
    };
    let index1 = appearance.add_texture(tex1.clone());
    assert_eq!(index1, 0);

    let index2 = appearance.add_texture(tex1);
    assert_eq!(index2, 0);

    let tex2 = TextureObject {
        texture_format: TextFormat::Jpg,
        image: "appearances/0320_2_13.jpg".to_string(),
        wrap_mode: None,
        texture_type: None,
        border_color: None,
    };
    let index3 = appearance.add_texture(tex2);
    assert_eq!(index3, 1);
}

#[test]
fn test_add_vertices_texture() {
    let mut appearance = Appearance::new();

    let vertices1 = vec![[s(0.2517), s(0.1739)], [s(0.3155), s(0.2015)]];
    appearance.add_vertices_texture(vertices1.clone());
    assert_eq!(appearance.vertices_texture.as_ref().unwrap().len(), 2);

    let vertices2 = vec![[s(0.2734), s(0.3057)], [s(0.2269), s(0.2883)]];
    appearance.add_vertices_texture(vertices2);
    assert_eq!(appearance.vertices_texture.as_ref().unwrap().len(), 4);

    let all_vertices = appearance.vertices_texture.unwrap();
    assert_eq!(all_vertices[0], [s(0.2517), s(0.1739)]);
    assert_eq!(all_vertices[1], [s(0.3155), s(0.2015)]);
    assert_eq!(all_vertices[2], [s(0.2734), s(0.3057)]);
    assert_eq!(all_vertices[3], [s(0.2269), s(0.2883)]);
}

fn valid_material() -> MaterialObject {
    MaterialObject {
        name: "test".to_string(),
        ambient_intensity: Some(s(0.5)),
        diffuse_color: color(0.1, 0.2, 0.3),
        emissive_color: color(0.4, 0.5, 0.6),
        specular_color: color(0.7, 0.8, 0.9),
        shininess: Some(s(0.4)),
        transparency: Some(s(0.3)),
        is_smooth: Some(true),
    }
}

#[test]
fn test_material_validation() {
    let valid_material = valid_material();
    assert!(valid_material.validate().is_ok());

    let invalid_ambient = MaterialObject {
        ambient_intensity: Some(s(1.5)),
        ..valid_material.clone()
    };
    assert!(invalid_ambient.validate().is_err());

    let invalid_diffuse = MaterialObject {
        diffuse_color: color(-0.1, 0.5, 1.2),
        ..valid_material.clone()
    };
    assert!(invalid_diffuse.validate().is_err());

    let invalid_emissive = MaterialObject {
        emissive_color: color(0.5, 1.5, 0.5),
        ..valid_material.clone()
    };
    assert!(invalid_emissive.validate().is_err());

    let invalid_specular = MaterialObject {
        specular_color: color(0.5, 0.5, 1.5),
        ..valid_material.clone()
    };
    assert!(invalid_specular.validate().is_err());

    let invalid_shininess = MaterialObject {
        shininess: Some(s(2.0)),
        ..valid_material.clone()
    };
    assert!(invalid_shininess.validate().is_err());

    let invalid_transparency = MaterialObject {
        transparency: Some(s(-0.5)),
        ..valid_material.clone()
    };
    assert!(invalid_transparency.validate().is_err());
}

#[test]
fn test_texture_validation() {
    let valid_texture = TextureObject {
        texture_format: TextFormat::Jpg,
        image: "test.jpg".to_string(),
        wrap_mode: Some(WrapMode::Wrap),
        texture_type: Some(TextType::Specific),
        border_color: Some([s(0.1), s(0.2), s(0.3), s(0.4)]),
    };
    assert!(valid_texture.validate().is_ok());

    let invalid_border_color = TextureObject {
        border_color: Some([s(-0.1), s(0.5), s(1.2), s(0.5)]),
        ..valid_texture.clone()
    };
    assert!(invalid_border_color.validate().is_err());

    let invalid_border_color_2 = TextureObject {
        border_color: Some([s(0.5), s(0.5), s(0.5), s(1.5)]),
        ..valid_texture.clone()
    };
    assert!(invalid_border_color_2.validate().is_err());
}

#[test]
fn unit_interval_agrees_with_the_comparison_of_numbers() {
    let samples: Vec<f64> = vec![
        0.0,
        -0.0,
        1.0,
        0.5,
        5e-324,
        1.0 - f64::EPSILON / 2.0,
        1.0 + f64::EPSILON,
        -5e-324,
        -1.0,
        2.0,
        f64::MAX,
        f64::MIN,
        f64::INFINITY,
        f64::NEG_INFINITY,
        f64::NAN,
        -f64::NAN,
    ];
    for x in samples {
        let expected = (0.0..=1.0).contains(&x);
        assert_eq!(s(x).is_in_unit_interval(), expected);
    }
}

#[test]
fn material_fault_names_the_first_field_out_of_range() {
    let m = MaterialObject {
        diffuse_color: color(0.1, 0.2, 1.5),
        shininess: Some(s(7.0)),
        ..valid_material()
    };
    assert_eq!(
        m.validate(),
        Err(CjseqError::InvalidValue {
            field: "diffuse_color".to_string(),
            reason: "must be between 0.0 and 1.0".to_string(),
        })
    );
    let m = MaterialObject { transparency: Some(s(1.01)), ..valid_material() };
    assert_eq!(
        m.validate(),
        Err(CjseqError::InvalidValue {
            field: "transparency".to_string(),
            reason: "must be between 0.0 and 1.0".to_string(),
        })
    );
}

#[test]
fn texture_fault_names_the_first_part_out_of_range() {
    let t = TextureObject {
        texture_format: TextFormat::Png,
        image: "a.png".to_string(),
        wrap_mode: Some(WrapMode::NoWrap),
        texture_type: Some(TextType::Unknown),
        border_color: Some([s(0.5), s(0.5), s(1.5), s(2.5)]),
    };
    assert_eq!(
        t.validate(),
        Err(CjseqError::InvalidValue {
            field: "border_color".to_string(),
            reason: "border_color[2] must be between 0.0 and 1.0".to_string(),
        })
    );
}

#[test]
fn defaults_are_empty() {
    let m = MaterialObject::default();
    assert_eq!(m.name, "");
    assert!(m.ambient_intensity.is_none() && m.is_smooth.is_none());
    let t = TextureObject::default();
    assert_eq!(t.texture_format, TextFormat::Jpg);
    assert_eq!(t.image, "");
    assert_eq!(TextFormat::default(), TextFormat::Jpg);
}

#[test]
fn error_messages_read_as_text() {
    let e = CjseqError::InvalidValue { field: "name".to_string(), reason: "cannot be empty".to_string() };
    assert_eq!(e.message(), "Invalid value for name: cannot be empty");
    assert_eq!(CjseqError::Generic("plain".to_string()).message(), "plain");
    assert_eq!(
        CjseqError::CityJsonError("Input file not CityJSON.".to_string()).message(),
        "CityJSON error: Input file not CityJSON."
    );
    assert_eq!(CjseqError::MissingObject("b1".to_string()).message(), "Missing city object: b1");
    assert_eq!(CjseqError::MissingField("x".to_string()).message(), "Missing required field: x");
    assert_eq!(CjseqError::JsonParseError("x".to_string()).message(), "Failed to parse JSON: x");
    assert_eq!(CjseqError::IoError("x".to_string()).message(), "I/O error: x");
    assert_eq!(CjseqError::FileNotFound("x".to_string()).message(), "File not found: x");
    assert_eq!(CjseqError::HttpError("x".to_string()).message(), "HTTP error: x");
}
