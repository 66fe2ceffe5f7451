use mmdr::c4::{
    c4_shape_colors, c4_shape_font_family, c4_shape_font_weight, font_faces_to_embed, C4Config,
    C4ShapeKind, FontDiagram,
};

fn config() -> C4Config {
    C4Config {
        person_bg_color: "person_bg_color".to_string(),
        person_border_color: "person_border_color".to_string(),
        person_font_family: "person_font_family".to_string(),
        person_font_weight: "person_font_weight".to_string(),
        external_person_bg_color: "external_person_bg_color".to_string(),
        external_person_border_color: "external_person_border_color".to_string(),
        external_person_font_family: "external_person_font_family".to_string(),
        external_person_font_weight: "external_person_font_weight".to_string(),
        system_bg_color: "system_bg_color".to_string(),
        system_border_color: "system_border_color".to_string(),
        system_font_family: "system_font_family".to_string(),
        system_font_weight: "system_font_weight".to_string(),
        system_db_bg_color: "system_db_bg_color".to_string(),
        system_db_border_color: "system_db_border_color".to_string(),
        system_db_font_family: "system_db_font_family".to_string(),
        system_db_font_weight: "system_db_font_weight".to_string(),
        system_queue_bg_color: "system_queue_bg_color".to_string(),
        system_queue_border_color: "system_queue_border_color".to_string(),
        system_queue_font_family: "system_queue_font_family".to_string(),
        system_queue_font_weight: "system_queue_font_weight".to_string(),
        external_system_bg_color: "external_system_bg_color".to_string(),
        external_system_border_color: "external_system_border_color".to_string(),
        external_system_font_family: "external_system_font_family".to_string(),
        external_system_font_weight: "external_system_font_weight".to_string(),
        external_system_db_bg_color: "external_system_db_bg_color".to_string(),
        external_system_db_border_color: "external_system_db_border_color".to_string(),
        external_system_db_font_family: "external_system_db_font_family".to_string(),
        external_system_db_font_weight: "external_system_db_font_weight".to_string(),
        external_system_queue_bg_color: "external_system_queue_bg_color".to_string(),
        external_system_queue_border_color: "external_system_queue_border_color".to_string(),
        external_system_queue_font_family: "external_system_queue_font_family".to_string(),
        external_system_queue_font_weight: "external_system_queue_font_weight".to_string(),
        container_bg_color: "container_bg_color".to_string(),
        container_border_color: "container_border_color".to_string(),
        container_font_family: "container_font_family".to_string(),
        container_font_weight: "container_font_weight".to_string(),
        container_db_bg_color: "container_db_bg_color".to_string(),
        container_db_border_color: "container_db_border_color".to_string(),
        container_db_font_family: "container_db_font_family".to_string(),
        container_db_font_weight: "container_db_font_weight".to_string(),
        container_queue_bg_color: "container_queue_bg_color".to_string(),
        container_queue_border_color: "container_queue_border_color".to_string(),
        container_queue_font_family: "container_queue_font_family".to_string(),
        container_queue_font_weight: "container_queue_font_weight".to_string(),
        external_container_bg_color: "external_container_bg_color".to_string(),
        external_container_border_color: "external_container_border_color".to_string(),
        external_container_font_family: "external_container_font_family".to_string(),
        external_container_font_weight: "external_container_font_weight".to_string(),
        external_container_db_bg_color: "external_container_db_bg_color".to_string(),
        external_container_db_border_color: "external_container_db_border_color".to_string(),
        external_container_db_font_family: "external_container_db_font_family".to_string(),
        external_container_db_font_weight: "external_container_db_font_weight".to_string(),
        external_container_queue_bg_color: "external_container_queue_bg_color".to_string(),
        external_container_queue_border_color: "external_container_queue_border_color".to_string(),
        external_container_queue_font_family: "external_container_queue_font_family".to_string(),
        external_container_queue_font_weight: "external_container_queue_font_weight".to_string(),
        component_bg_color: "component_bg_color".to_string(),
        component_border_color: "component_border_color".to_string(),
        component_font_family: "component_font_family".to_string(),
        component_font_weight: "component_font_weight".to_string(),
        component_db_bg_color: "component_db_bg_color".to_string(),
        component_db_border_color: "component_db_border_color".to_string(),
        component_db_font_family: "component_db_font_family".to_string(),
        component_db_font_weight: "component_db_font_weight".to_string(),
        component_queue_bg_color: "component_queue_bg_color".to_string(),
        component_queue_border_color: "component_queue_border_color".to_string(),
        component_queue_font_family: "component_queue_font_family".to_string(),
        component_queue_font_weight: "component_queue_font_weight".to_string(),
        external_component_bg_color: "external_component_bg_color".to_string(),
        external_component_border_color: "external_component_border_color".to_string(),
        external_component_font_family: "external_component_font_family".to_string(),
        external_component_font_weight: "external_component_font_weight".to_string(),
        external_component_db_bg_color: "external_component_db_bg_color".to_string(),
        external_component_db_border_color: "external_component_db_border_color".to_string(),
        external_component_db_font_family: "external_component_db_font_family".to_string(),
        external_component_db_font_weight: "external_component_db_font_weight".to_string(),
        external_component_queue_bg_color: "external_component_queue_bg_color".to_string(),
        external_component_queue_border_color: "external_component_queue_border_color".to_string(),
        external_component_queue_font_family: "external_component_queue_font_family".to_string(),
        external_component_queue_font_weight: "external_component_queue_font_weight".to_string(),
        boundary_font_family: "boundary_font_family".to_string(),
        message_font_family: "message_font_family".to_string(),
    }
}

#[test]
fn c4_styles_by_kind() {
    let conf = config();
    assert_eq!(c4_shape_colors(&conf, C4ShapeKind::Person), ("person_bg_color", "person_border_color"));
    assert_eq!(c4_shape_font_family(&conf, C4ShapeKind::Person), "person_font_family");
    assert_eq!(c4_shape_font_weight(&conf, C4ShapeKind::Person), "person_font_weight");
    assert_eq!(c4_shape_colors(&conf, C4ShapeKind::ExternalPerson), ("external_person_bg_color", "external_person_border_color"));
    assert_eq!(c4_shape_font_family(&conf, C4ShapeKind::ExternalPerson), "external_person_font_family");
    assert_eq!(c4_shape_font_weight(&conf, C4ShapeKind::ExternalPerson), "external_person_font_weight");
    assert_eq!(c4_shape_colors(&conf, C4ShapeKind::System), ("system_bg_color", "system_border_color"));
    assert_eq!(c4_shape_font_family(&conf, C4ShapeKind::System), "system_font_family");
    assert_eq!(c4_shape_font_weight(&conf, C4ShapeKind::System), "system_font_weight");
    assert_eq!(c4_shape_colors(&conf, C4ShapeKind::SystemDb), ("system_db_bg_color", "system_db_border_color"));
    assert_eq!(c4_shape_font_family(&conf, C4ShapeKind::SystemDb), "system_db_font_family");
    assert_eq!(c4_shape_font_weight(&conf, C4ShapeKind::SystemDb), "system_db_font_weight");
    assert_eq!(c4_shape_colors(&conf, C4ShapeKind::SystemQueue), ("system_queue_bg_color", "system_queue_border_color"));
    assert_eq!(c4_shape_font_family(&conf, C4ShapeKind::SystemQueue), "system_queue_font_family");
    assert_eq!(c4_shape_font_weight(&conf, C4ShapeKind::SystemQueue), "system_queue_font_weight");
    assert_eq!(c4_shape_colors(&conf, C4ShapeKind::ExternalSystem), ("external_system_bg_color", "external_system_border_color"));
    assert_eq!(c4_shape_font_family(&conf, C4ShapeKind::ExternalSystem), "external_system_font_family");
    assert_eq!(c4_shape_font_weight(&conf, C4ShapeKind::ExternalSystem), "external_system_font_weight");
    assert_eq!(c4_shape_colors(&conf, C4ShapeKind::ExternalSystemDb), ("external_system_db_bg_color", "external_system_db_border_color"));
    assert_eq!(c4_shape_font_family(&conf, C4ShapeKind::ExternalSystemDb), "external_system_db_font_family");
    assert_eq!(c4_shape_font_weight(&conf, C4ShapeKind::ExternalSystemDb), "external_system_db_font_weight");
    assert_eq!(c4_shape_colors(&conf, C4ShapeKind::ExternalSystemQueue), ("external_system_queue_bg_color", "external_system_queue_border_color"));
    assert_eq!(c4_shape_font_family(&conf, C4ShapeKind::ExternalSystemQueue), "external_system_queue_font_family");
    assert_eq!(c4_shape_font_weight(&conf, C4ShapeKind::ExternalSystemQueue), "external_system_queue_font_weight");
    assert_eq!(c4_shape_colors(&conf, C4ShapeKind::Container), ("container_bg_color", "container_border_color"));
    assert_eq!(c4_shape_font_family(&conf, C4ShapeKind::Container), "container_font_family");
    assert_eq!(c4_shape_font_weight(&conf, C4ShapeKind::Container), "container_font_weight");
    assert_eq!(c4_shape_colors(&conf, C4ShapeKind::ContainerDb), ("container_db_bg_color", "container_db_border_color"));
    assert_eq!(c4_shape_font_family(&conf, C4ShapeKind::ContainerDb), "container_db_font_family");
    assert_eq!(c4_shape_font_weight(&conf, C4ShapeKind::ContainerDb), "container_db_font_weight");
    assert_eq!(c4_shape_colors(&conf, C4ShapeKind::ContainerQueue), ("container_queue_bg_color", "container_queue_border_color"));
    assert_eq!(c4_shape_font_family(&conf, C4ShapeKind::ContainerQueue), "container_queue_font_family");
    assert_eq!(c4_shape_font_weight(&conf, C4ShapeKind::ContainerQueue), "container_queue_font_weight");
    assert_eq!(c4_shape_colors(&conf, C4ShapeKind::ExternalContainer), ("external_container_bg_color", "external_container_border_color"));
    assert_eq!(c4_shape_font_family(&conf, C4ShapeKind::ExternalContainer), "external_container_font_family");
    assert_eq!(c4_shape_font_weight(&conf, C4ShapeKind::ExternalContainer), "external_container_font_weight");
    assert_eq!(c4_shape_colors(&conf, C4ShapeKind::ExternalContainerDb), ("external_container_db_bg_color", "external_container_db_border_color"));
    assert_eq!(c4_shape_font_family(&conf, C4ShapeKind::ExternalContainerDb), "external_container_db_font_family");
    assert_eq!(c4_shape_font_weight(&conf, C4ShapeKind::ExternalContainerDb), "external_container_db_font_weight");
    assert_eq!(c4_shape_colors(&conf, C4ShapeKind::ExternalContainerQueue), ("external_container_queue_bg_color", "external_container_queue_border_color"));
    assert_eq!(c4_shape_font_family(&conf, C4ShapeKind::ExternalContainerQueue), "external_container_queue_font_family");
    assert_eq!(c4_shape_font_weight(&conf, C4ShapeKind::ExternalContainerQueue), "external_container_queue_font_weight");
    assert_eq!(c4_shape_colors(&conf, C4ShapeKind::Component), ("component_bg_color", "component_border_color"));
    assert_eq!(c4_shape_font_family(&conf, C4ShapeKind::Component), "component_font_family");
    assert_eq!(c4_shape_font_weight(&conf, C4ShapeKind::Component), "component_font_weight");
    assert_eq!(c4_shape_colors(&conf, C4ShapeKind::ComponentDb), ("component_db_bg_color", "component_db_border_color"));
    assert_eq!(c4_shape_font_family(&conf, C4ShapeKind::ComponentDb), "component_db_font_family");
    assert_eq!(c4_shape_font_weight(&conf, C4ShapeKind::ComponentDb), "component_db_font_weight");
    assert_eq!(c4_shape_colors(&conf, C4ShapeKind::ComponentQueue), ("component_queue_bg_color", "component_queue_border_color"));
    assert_eq!(c4_shape_font_family(&conf, C4ShapeKind::ComponentQueue), "component_queue_font_family");
    assert_eq!(c4_shape_font_weight(&conf, C4ShapeKind::ComponentQueue), "component_queue_font_weight");
    assert_eq!(c4_shape_colors(&conf, C4ShapeKind::ExternalComponent), ("external_component_bg_color", "external_component_border_color"));
    assert_eq!(c4_shape_font_family(&conf, C4ShapeKind::ExternalComponent), "external_component_font_family");
    assert_eq!(c4_shape_font_weight(&conf, C4ShapeKind::ExternalComponent), "external_component_font_weight");
    assert_eq!(c4_shape_colors(&conf, C4ShapeKind::ExternalComponentDb), ("external_component_db_bg_color", "external_component_db_border_color"));
    assert_eq!(c4_shape_font_family(&conf, C4ShapeKind::ExternalComponentDb), "external_component_db_font_family");
    assert_eq!(c4_shape_font_weight(&conf, C4ShapeKind::ExternalComponentDb), "external_component_db_font_weight");
    assert_eq!(c4_shape_colors(&conf, C4ShapeKind::ExternalComponentQueue), ("external_component_queue_bg_color", "external_component_queue_border_color"));
    assert_eq!(c4_shape_font_family(&conf, C4ShapeKind::ExternalComponentQueue), "external_component_queue_font_family");
    assert_eq!(c4_shape_font_weight(&conf, C4ShapeKind::ExternalComponentQueue), "external_component_queue_font_weight");
}

#[test]
fn faces_to_embed_by_diagram() {
    let conf = config();
    assert_eq!(font_faces_to_embed("Inter", FontDiagram::Other, &conf), vec![("Inter", 400)]);
    assert_eq!(
        font_faces_to_embed("Inter", FontDiagram::Cynefin, &conf),
        vec![("Inter", 400), ("Inter", 700)]
    );
    let c4 = font_faces_to_embed("Inter", FontDiagram::C4, &conf);
    assert_eq!(c4.len(), 23);
    assert_eq!(c4[0], ("Inter", 400));
    assert_eq!(c4[1], ("person_font_family", 400));
    assert_eq!(c4[2], ("external_person_font_family", 400));
    assert_eq!(c4[3], ("system_font_family", 400));
    assert_eq!(c4[9], ("boundary_font_family", 400));
    assert_eq!(c4[10], ("message_font_family", 400));
    assert_eq!(c4[11], ("container_font_family", 400));
    assert_eq!(c4[22], ("external_component_queue_font_family", 400));
    assert!(c4.iter().all(|(_, weight)| *weight == 400));
}
