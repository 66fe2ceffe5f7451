//! C4 diagram styling: which colours, font family and weight each kind of
//! C4 shape is drawn with.
use vstd::prelude::*;

verus! {

/// The kinds of C4 shapes.
#[derive(Clone, Copy, Debug, PartialEq, Eq, Structural)]
pub enum C4ShapeKind {
    Person,
    ExternalPerson,
    System,
    SystemDb,
    SystemQueue,
    ExternalSystem,
    ExternalSystemDb,
    ExternalSystemQueue,
    Container,
    ContainerDb,
    ContainerQueue,
    ExternalContainer,
    ExternalContainerDb,
    ExternalContainerQueue,
    Component,
    ComponentDb,
    ComponentQueue,
    ExternalComponent,
    ExternalComponentDb,
    ExternalComponentQueue,
}

/// The per-kind styling settings of a C4 diagram.
pub struct C4Config {
    pub person_bg_color: String,
    pub person_border_color: String,
    pub person_font_family: String,
    pub person_font_weight: String,
    pub external_person_bg_color: String,
    pub external_person_border_color: String,
    pub external_person_font_family: String,
    pub external_person_font_weight: String,
    pub system_bg_color: String,
    pub system_border_color: String,
    pub system_font_family: String,
    pub system_font_weight: String,
    pub system_db_bg_color: String,
    pub system_db_border_color: String,
    pub system_db_font_family: String,
    pub system_db_font_weight: String,
    pub system_queue_bg_color: String,
    pub system_queue_border_color: String,
    pub system_queue_font_family: String,
    pub system_queue_font_weight: String,
    pub external_system_bg_color: String,
    pub external_system_border_color: String,
    pub external_system_font_family: String,
    pub external_system_font_weight: String,
    pub external_system_db_bg_color: String,
    pub external_system_db_border_color: String,
    pub external_system_db_font_family: String,
    pub external_system_db_font_weight: String,
    pub external_system_queue_bg_color: String,
    pub external_system_queue_border_color: String,
    pub external_system_queue_font_family: String,
    pub external_system_queue_font_weight: String,
    pub container_bg_color: String,
    pub container_border_color: String,
    pub container_font_family: String,
    pub container_font_weight: String,
    pub container_db_bg_color: String,
    pub container_db_border_color: String,
    pub container_db_font_family: String,
    pub container_db_font_weight: String,
    pub container_queue_bg_color: String,
    pub container_queue_border_color: String,
    pub container_queue_font_family: String,
    pub container_queue_font_weight: String,
    pub external_container_bg_color: String,
    pub external_container_border_color: String,
    pub external_container_font_family: String,
    pub external_container_font_weight: String,
    pub external_container_db_bg_color: String,
    pub external_container_db_border_color: String,
    pub external_container_db_font_family: String,
    pub external_container_db_font_weight: String,
    pub external_container_queue_bg_color: String,
    pub external_container_queue_border_color: String,
    pub external_container_queue_font_family: String,
    pub external_container_queue_font_weight: String,
    pub component_bg_color: String,
    pub component_border_color: String,
    pub component_font_family: String,
    pub component_font_weight: String,
    pub component_db_bg_color: String,
    pub component_db_border_color: String,
    pub component_db_font_family: String,
    pub component_db_font_weight: String,
    pub component_queue_bg_color: String,
    pub component_queue_border_color: String,
    pub component_queue_font_family: String,
    pub component_queue_font_weight: String,
    pub external_component_bg_color: String,
    pub external_component_border_color: String,
    pub external_component_font_family: String,
    pub external_component_font_weight: String,
    pub external_component_db_bg_color: String,
    pub external_component_db_border_color: String,
    pub external_component_db_font_family: String,
    pub external_component_db_font_weight: String,
    pub external_component_queue_bg_color: String,
    pub external_component_queue_border_color: String,
    pub external_component_queue_font_family: String,
    pub external_component_queue_font_weight: String,
    pub boundary_font_family: String,
    pub message_font_family: String,
}

/// The fill and border colour configured for a shape kind.
pub open spec fn c4_colors_of(conf: C4Config, kind: C4ShapeKind) -> (Seq<char>, Seq<char>) {
    match kind {
        C4ShapeKind::Person => (conf.person_bg_color@, conf.person_border_color@),
        C4ShapeKind::ExternalPerson => (conf.external_person_bg_color@, conf.external_person_border_color@),
        C4ShapeKind::System => (conf.system_bg_color@, conf.system_border_color@),
        C4ShapeKind::SystemDb => (conf.system_db_bg_color@, conf.system_db_border_color@),
        C4ShapeKind::SystemQueue => (conf.system_queue_bg_color@, conf.system_queue_border_color@),
        C4ShapeKind::ExternalSystem => (conf.external_system_bg_color@, conf.external_system_border_color@),
        C4ShapeKind::ExternalSystemDb => (conf.external_system_db_bg_color@, conf.external_system_db_border_color@),
        C4ShapeKind::ExternalSystemQueue => (conf.external_system_queue_bg_color@, conf.external_system_queue_border_color@),
        C4ShapeKind::Container => (conf.container_bg_color@, conf.container_border_color@),
        C4ShapeKind::ContainerDb => (conf.container_db_bg_color@, conf.container_db_border_color@),
        C4ShapeKind::ContainerQueue => (conf.container_queue_bg_color@, conf.container_queue_border_color@),
        C4ShapeKind::ExternalContainer => (conf.external_container_bg_color@, conf.external_container_border_color@),
        C4ShapeKind::ExternalContainerDb => (conf.external_container_db_bg_color@, conf.external_container_db_border_color@),
        C4ShapeKind::ExternalContainerQueue => (conf.external_container_queue_bg_color@, conf.external_container_queue_border_color@),
        C4ShapeKind::Component => (conf.component_bg_color@, conf.component_border_color@),
        C4ShapeKind::ComponentDb => (conf.component_db_bg_color@, conf.component_db_border_color@),
        C4ShapeKind::ComponentQueue => (conf.component_queue_bg_color@, conf.component_queue_border_color@),
        C4ShapeKind::ExternalComponent => (conf.external_component_bg_color@, conf.external_component_border_color@),
        C4ShapeKind::ExternalComponentDb => (conf.external_component_db_bg_color@, conf.external_component_db_border_color@),
        C4ShapeKind::ExternalComponentQueue => (conf.external_component_queue_bg_color@, conf.external_component_queue_border_color@),
    }
}

/// The configured fill and border colour of a shape kind.
pub fn c4_shape_colors<'a>(conf: &'a C4Config, kind: C4ShapeKind) -> (res: (&'a str, &'a str))
    ensures
        (res.0@, res.1@) == c4_colors_of(*conf, kind),
{
    match kind {
        C4ShapeKind::Person => (conf.person_bg_color.as_str(), conf.person_border_color.as_str()),
        C4ShapeKind::ExternalPerson => (conf.external_person_bg_color.as_str(), conf.external_person_border_color.as_str()),
        C4ShapeKind::System => (conf.system_bg_color.as_str(), conf.system_border_color.as_str()),
        C4ShapeKind::SystemDb => (conf.system_db_bg_color.as_str(), conf.system_db_border_color.as_str()),
        C4ShapeKind::SystemQueue => (conf.system_queue_bg_color.as_str(), conf.system_queue_border_color.as_str()),
        C4ShapeKind::ExternalSystem => (conf.external_system_bg_color.as_str(), conf.external_system_border_color.as_str()),
        C4ShapeKind::ExternalSystemDb => (conf.external_system_db_bg_color.as_str(), conf.external_system_db_border_color.as_str()),
        C4ShapeKind::ExternalSystemQueue => (conf.external_system_queue_bg_color.as_str(), conf.external_system_queue_border_color.as_str()),
        C4ShapeKind::Container => (conf.container_bg_color.as_str(), conf.container_border_color.as_str()),
        C4ShapeKind::ContainerDb => (conf.container_db_bg_color.as_str(), conf.container_db_border_color.as_str()),
        C4ShapeKind::ContainerQueue => (conf.container_queue_bg_color.as_str(), conf.container_queue_border_color.as_str()),
        C4ShapeKind::ExternalContainer => (conf.external_container_bg_color.as_str(), conf.external_container_border_color.as_str()),
        C4ShapeKind::ExternalContainerDb => (conf.external_container_db_bg_color.as_str(), conf.external_container_db_border_color.as_str()),
        C4ShapeKind::ExternalContainerQueue => (conf.external_container_queue_bg_color.as_str(), conf.external_container_queue_border_color.as_str()),
        C4ShapeKind::Component => (conf.component_bg_color.as_str(), conf.component_border_color.as_str()),
        C4ShapeKind::ComponentDb => (conf.component_db_bg_color.as_str(), conf.component_db_border_color.as_str()),
        C4ShapeKind::ComponentQueue => (conf.component_queue_bg_color.as_str(), conf.component_queue_border_color.as_str()),
        C4ShapeKind::ExternalComponent => (conf.external_component_bg_color.as_str(), conf.external_component_border_color.as_str()),
        C4ShapeKind::ExternalComponentDb => (conf.external_component_db_bg_color.as_str(), conf.external_component_db_border_color.as_str()),
        C4ShapeKind::ExternalComponentQueue => (conf.external_component_queue_bg_color.as_str(), conf.external_component_queue_border_color.as_str()),
    }
}

/// The font family configured for a shape kind.
pub open spec fn c4_font_family_of(conf: C4Config, kind: C4ShapeKind) -> Seq<char> {
    match kind {
        C4ShapeKind::Person => conf.person_font_family@,
        C4ShapeKind::ExternalPerson => conf.external_person_font_family@,
        C4ShapeKind::System => conf.system_font_family@,
        C4ShapeKind::SystemDb => conf.system_db_font_family@,
        C4ShapeKind::SystemQueue => conf.system_queue_font_family@,
        C4ShapeKind::ExternalSystem => conf.external_system_font_family@,
        C4ShapeKind::ExternalSystemDb => conf.external_system_db_font_family@,
        C4ShapeKind::ExternalSystemQueue => conf.external_system_queue_font_family@,
        C4ShapeKind::Container => conf.container_font_family@,
        C4ShapeKind::ContainerDb => conf.container_db_font_family@,
        C4ShapeKind::ContainerQueue => conf.container_queue_font_family@,
        C4ShapeKind::ExternalContainer => conf.external_container_font_family@,
        C4ShapeKind::ExternalContainerDb => conf.external_container_db_font_family@,
        C4ShapeKind::ExternalContainerQueue => conf.external_container_queue_font_family@,
        C4ShapeKind::Component => conf.component_font_family@,
        C4ShapeKind::ComponentDb => conf.component_db_font_family@,
        C4ShapeKind::ComponentQueue => conf.component_queue_font_family@,
        C4ShapeKind::ExternalComponent => conf.external_component_font_family@,
        C4ShapeKind::ExternalComponentDb => conf.external_component_db_font_family@,
        C4ShapeKind::ExternalComponentQueue => conf.external_component_queue_font_family@,
    }
}

/// The configured font family of a shape kind.
pub fn c4_shape_font_family<'a>(conf: &'a C4Config, kind: C4ShapeKind) -> (res: &'a str)
    ensures
        res@ == c4_font_family_of(*conf, kind),
{
    match kind {
        C4ShapeKind::Person => conf.person_font_family.as_str(),
        C4ShapeKind::ExternalPerson => conf.external_person_font_family.as_str(),
        C4ShapeKind::System => conf.system_font_family.as_str(),
        C4ShapeKind::SystemDb => conf.system_db_font_family.as_str(),
        C4ShapeKind::SystemQueue => conf.system_queue_font_family.as_str(),
        C4ShapeKind::ExternalSystem => conf.external_system_font_family.as_str(),
        C4ShapeKind::ExternalSystemDb => conf.external_system_db_font_family.as_str(),
        C4ShapeKind::ExternalSystemQueue => conf.external_system_queue_font_family.as_str(),
        C4ShapeKind::Container => conf.container_font_family.as_str(),
        C4ShapeKind::ContainerDb => conf.container_db_font_family.as_str(),
        C4ShapeKind::ContainerQueue => conf.container_queue_font_family.as_str(),
        C4ShapeKind::ExternalContainer => conf.external_container_font_family.as_str(),
        C4ShapeKind::ExternalContainerDb => conf.external_container_db_font_family.as_str(),
        C4ShapeKind::ExternalContainerQueue => conf.external_container_queue_font_family.as_str(),
        C4ShapeKind::Component => conf.component_font_family.as_str(),
        C4ShapeKind::ComponentDb => conf.component_db_font_family.as_str(),
        C4ShapeKind::ComponentQueue => conf.component_queue_font_family.as_str(),
        C4ShapeKind::ExternalComponent => conf.external_component_font_family.as_str(),
        C4ShapeKind::ExternalComponentDb => conf.external_component_db_font_family.as_str(),
        C4ShapeKind::ExternalComponentQueue => conf.external_component_queue_font_family.as_str(),
    }
}

/// The font weight configured for a shape kind.
pub open spec fn c4_font_weight_of(conf: C4Config, kind: C4ShapeKind) -> Seq<char> {
    match kind {
        C4ShapeKind::Person => conf.person_font_weight@,
        C4ShapeKind::ExternalPerson => conf.external_person_font_weight@,
        C4ShapeKind::System => conf.system_font_weight@,
        C4ShapeKind::SystemDb => conf.system_db_font_weight@,
        C4ShapeKind::SystemQueue => conf.system_queue_font_weight@,
        C4ShapeKind::ExternalSystem => conf.external_system_font_weight@,
        C4ShapeKind::ExternalSystemDb => conf.external_system_db_font_weight@,
        C4ShapeKind::ExternalSystemQueue => conf.external_system_queue_font_weight@,
        C4ShapeKind::Container => conf.container_font_weight@,
        C4ShapeKind::ContainerDb => conf.container_db_font_weight@,
        C4ShapeKind::ContainerQueue => conf.container_queue_font_weight@,
        C4ShapeKind::ExternalContainer => conf.external_container_font_weight@,
        C4ShapeKind::ExternalContainerDb => conf.external_container_db_font_weight@,
        C4ShapeKind::ExternalContainerQueue => conf.external_container_queue_font_weight@,
        C4ShapeKind::Component => conf.component_font_weight@,
        C4ShapeKind::ComponentDb => conf.component_db_font_weight@,
        C4ShapeKind::ComponentQueue => conf.component_queue_font_weight@,
        C4ShapeKind::ExternalComponent => conf.external_component_font_weight@,
        C4ShapeKind::ExternalComponentDb => conf.external_component_db_font_weight@,
        C4ShapeKind::ExternalComponentQueue => conf.external_component_queue_font_weight@,
    }
}

/// The configured font weight of a shape kind.
pub fn c4_shape_font_weight<'a>(conf: &'a C4Config, kind: C4ShapeKind) -> (res: &'a str)
    ensures
        res@ == c4_font_weight_of(*conf, kind),
{
    match kind {
        C4ShapeKind::Person => conf.person_font_weight.as_str(),
        C4ShapeKind::ExternalPerson => conf.external_person_font_weight.as_str(),
        C4ShapeKind::System => conf.system_font_weight.as_str(),
        C4ShapeKind::SystemDb => conf.system_db_font_weight.as_str(),
        C4ShapeKind::SystemQueue => conf.system_queue_font_weight.as_str(),
        C4ShapeKind::ExternalSystem => conf.external_system_font_weight.as_str(),
        C4ShapeKind::ExternalSystemDb => conf.external_system_db_font_weight.as_str(),
        C4ShapeKind::ExternalSystemQueue => conf.external_system_queue_font_weight.as_str(),
        C4ShapeKind::Container => conf.container_font_weight.as_str(),
        C4ShapeKind::ContainerDb => conf.container_db_font_weight.as_str(),
        C4ShapeKind::ContainerQueue => conf.container_queue_font_weight.as_str(),
        C4ShapeKind::ExternalContainer => conf.external_container_font_weight.as_str(),
        C4ShapeKind::ExternalContainerDb => conf.external_container_db_font_weight.as_str(),
        C4ShapeKind::ExternalContainerQueue => conf.external_container_queue_font_weight.as_str(),
        C4ShapeKind::Component => conf.component_font_weight.as_str(),
        C4ShapeKind::ComponentDb => conf.component_db_font_weight.as_str(),
        C4ShapeKind::ComponentQueue => conf.component_queue_font_weight.as_str(),
        C4ShapeKind::ExternalComponent => conf.external_component_font_weight.as_str(),
        C4ShapeKind::ExternalComponentDb => conf.external_component_db_font_weight.as_str(),
        C4ShapeKind::ExternalComponentQueue => conf.external_component_queue_font_weight.as_str(),
    }
}

/// Which diagram is drawn, as far as the fonts to embed depend on it.
#[derive(Clone, Copy, Debug, PartialEq, Eq, Structural)]
pub enum FontDiagram {
    C4,
    Cynefin,
    Other,
}

/// The font families that a C4 diagram draws its shapes, boundaries and
/// messages with, in the order their faces are embedded.
pub open spec fn c4_font_families(conf: C4Config) -> Seq<Seq<char>> {
    seq![
        conf.person_font_family@,
        conf.external_person_font_family@,
        conf.system_font_family@,
        conf.external_system_font_family@,
        conf.system_db_font_family@,
        conf.external_system_db_font_family@,
        conf.system_queue_font_family@,
        conf.external_system_queue_font_family@,
        conf.boundary_font_family@,
        conf.message_font_family@,
        conf.container_font_family@,
        conf.external_container_font_family@,
        conf.container_db_font_family@,
        conf.external_container_db_font_family@,
        conf.container_queue_font_family@,
        conf.external_container_queue_font_family@,
        conf.component_font_family@,
        conf.external_component_font_family@,
        conf.component_db_font_family@,
        conf.external_component_db_font_family@,
        conf.component_queue_font_family@,
        conf.external_component_queue_font_family@,
    ]
}

/// The (family, weight) faces a diagram embeds: the theme's family at
/// regular weight; a Cynefin diagram adds its bold face; a C4 diagram adds
/// every family its configuration names, at regular weight.
pub open spec fn faces_to_embed_of(theme_family: Seq<char>, diagram: FontDiagram, conf: C4Config) -> Seq<(Seq<char>, u16)> {
    match diagram {
        FontDiagram::Cynefin => seq![(theme_family, 400u16), (theme_family, 700u16)],
        FontDiagram::C4 => seq![(theme_family, 400u16)] + c4_font_families(conf).map_values(|f: Seq<char>| (f, 400u16)),
        FontDiagram::Other => seq![(theme_family, 400u16)],
    }
}

/// The view of a list of borrowed (family, weight) faces.
pub open spec fn faces_view(faces: Seq<(&str, u16)>) -> Seq<(Seq<char>, u16)> {
    faces.map_values(|p: (&str, u16)| (p.0@, p.1))
}

/// The font faces whose data a diagram's stylesheet embeds.
#[verifier::rlimit(40)]
pub fn font_faces_to_embed<'a>(theme_family: &'a str, diagram: FontDiagram, conf: &'a C4Config) -> (res: Vec<(&'a str, u16)>)
    ensures
        faces_view(res@) == faces_to_embed_of(theme_family@, diagram, *conf),
{
    let mut faces: Vec<(&'a str, u16)> = Vec::new();
    faces.push((theme_family, 400));
    match diagram {
        FontDiagram::Cynefin => {
            faces.push((theme_family, 700));
            assert(faces_view(faces@) =~= faces_to_embed_of(theme_family@, diagram, *conf));
            return faces;
        }
        FontDiagram::Other => {
            assert(faces_view(faces@) =~= faces_to_embed_of(theme_family@, diagram, *conf));
            return faces;
        }
        FontDiagram::C4 => {}
    }
    faces.push((conf.person_font_family.as_str(), 400));
    faces.push((conf.external_person_font_family.as_str(), 400));
    faces.push((conf.system_font_family.as_str(), 400));
    faces.push((conf.external_system_font_family.as_str(), 400));
    faces.push((conf.system_db_font_family.as_str(), 400));
    faces.push((conf.external_system_db_font_family.as_str(), 400));
    faces.push((conf.system_queue_font_family.as_str(), 400));
    faces.push((conf.external_system_queue_font_family.as_str(), 400));
    faces.push((conf.boundary_font_family.as_str(), 400));
    faces.push((conf.message_font_family.as_str(), 400));
    faces.push((conf.container_font_family.as_str(), 400));
    faces.push((conf.external_container_font_family.as_str(), 400));
    faces.push((conf.container_db_font_family.as_str(), 400));
    faces.push((conf.external_container_db_font_family.as_str(), 400));
    faces.push((conf.container_queue_font_family.as_str(), 400));
    faces.push((conf.external_container_queue_font_family.as_str(), 400));
    faces.push((conf.component_font_family.as_str(), 400));
    faces.push((conf.external_component_font_family.as_str(), 400));
    faces.push((conf.component_db_font_family.as_str(), 400));
    faces.push((conf.external_component_db_font_family.as_str(), 400));
    faces.push((conf.component_queue_font_family.as_str(), 400));
    faces.push((conf.external_component_queue_font_family.as_str(), 400));
    assert(faces_view(faces@) =~= faces_to_embed_of(theme_family@, diagram, *conf));
    faces
}

} // verus!
