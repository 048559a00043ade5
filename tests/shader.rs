use meshview::shader::Specification;

#[test]
fn no_attributes_no_defines() {
    assert!(Specification::default().get_defines().is_empty());
}

#[test]
fn defines_follow_attribute_order() {
    let spec = Specification {
        has_normals: true,
        has_tangents: false,
        has_texcoords: true,
        has_colors: false,
        has_joints: true,
    };
    let d = spec.get_defines();
    assert_eq!(
        d,
        vec![
            ("HAS_NORMALS".to_string(), "1".to_string()),
            ("HAS_TEXCOORDS".to_string(), "1".to_string()),
            ("HAS_JOINTS".to_string(), "1".to_string()),
        ]
    );
}

#[test]
fn all_attributes_all_defines() {
    let spec = Specification {
        has_normals: true,
        has_tangents: true,
        has_texcoords: true,
        has_colors: true,
        has_joints: true,
    };
    let names: Vec<String> = spec.get_defines().into_iter().map(|(k, _)| k).collect();
    assert_eq!(names, vec!["HAS_NORMALS", "HAS_TANGENTS", "HAS_TEXCOORDS", "HAS_COLORS", "HAS_JOINTS"]);
}
