use lib::shader_code::{uniform_declarations, UniformKind};
use lib::shader_code::{filter_shader_lines, ShaderFlags};

fn flags(for_prefer_variable: bool, use_300_version: bool) -> ShaderFlags {
    ShaderFlags {
        for_prefer_variable,
        disable_antialiasing: true,
        disable_camera_teleportation: false,
        use_300_version,
    }
}

#[test]
fn shader_lines_are_filtered_by_flags_and_trimmed() {
    let text = "  a\n!GLSL300! x\n!GLSL100! y\r\nb\r\n\n";
    assert_eq!(filter_shader_lines(text, flags(false, true)), "a\n!GLSL300! x\n\nb");
    assert_eq!(filter_shader_lines(text, flags(false, false)), "a\n\n!GLSL100! y\nb");
}

#[test]
fn shader_loop_and_feature_lines() {
    let text = "for (int i = 0; i < n; i++) // !FOR_VARIABLE!\nfor (int i = 0; i < 8; i++) // !FOR_NUMBER!\naa(); // !ANTIALIASING!\ntp(); // !CAMERA_TELEPORTATION!\nend";
    assert_eq!(
        filter_shader_lines(text, flags(true, true)),
        "for (int i = 0; i < n; i++) // !FOR_VARIABLE!\n\n\ntp(); // !CAMERA_TELEPORTATION!\nend"
    );
    assert_eq!(
        filter_shader_lines(text, flags(false, true)),
        "for (int i = 0; i < 8; i++) // !FOR_NUMBER!\n\ntp(); // !CAMERA_TELEPORTATION!\nend"
    );
}

#[test]
fn empty_shader_text_stays_empty() {
    assert_eq!(filter_shader_lines("", flags(false, false)), "");
    assert_eq!(filter_shader_lines("\n\n", flags(false, false)), "");
}

use lib::arithmetic::Arithmetic;
use lib::glsl::{IntersectCode, IsInsideCode};
use lib::ids::{ArithmeticId, MatrixId, ObjectId};
use lib::object::{Object, ObjectType, SubspaceType};
use lib::shader_code::{generate_shader_code, intersection_material_processing, intersections_code, portal_materials, skybox_processing, texture_declarations};
use lib::code_generation::{ErrId, StringStorage};
use lib::glsl::{GlslCode, LibraryCode};
use lib::ids::LibraryId;
use lib::shader_code::{intersection_functions, library_code};
use lib::texture::TextureName;
use lib::ids::TextureId;
use lib::storage2::Storage2;
use lib::unique_id::UniqueId;

fn mid(n: usize) -> MatrixId {
    MatrixId(UniqueId(n))
}

/// Matrices by name: 0 is named `m`, 1 is anonymous.
fn matrices() -> Storage2<Arithmetic> {
    let mut m: Storage2<Arithmetic> = Storage2::new();
    m.push_default();
    m.rename(ArithmeticId(UniqueId(0)), "m".to_owned());
    let mut field = None;
    m.toggle_inline(&mut field);
    assert_eq!(field, Some(ArithmeticId(UniqueId(1))));
    m
}

fn objects(list: Vec<Object>) -> Storage2<Object> {
    let mut s: Storage2<Object> = Storage2::new();
    for (k, o) in list.into_iter().enumerate() {
        s.push_default();
        s.set(ObjectId(UniqueId(k)), o);
    }
    s
}

fn transform(inv: &str) -> String {
    format!("transformed_ray = transform({}, r);\nlen = length(transformed_ray.d);\ntransformed_ray = normalize_ray(transformed_ray);", inv)
}

#[test]
fn intersections_of_debug_and_flat_objects() {
    let objs = objects(vec![
        Object::DebugMatrix(Some(mid(0))),
        Object::Flat {
            kind: ObjectType::Simple(Some(mid(1))),
            is_inside: IsInsideCode::default(),
            in_subspace: SubspaceType::Both,
        },
    ]);
    let mut expected = String::new();
    expected += &transform("m_mat_inv");
    expected += "ihit = debug_intersect(transformed_ray);\nihit.hit.t /= len;\n";
    expected += &format!("if (nearer(i, ihit)) {{ i = ihit; i.hit.n = normalize(adjugate({}) * i.hit.n); }}\n\n", "m_mat_inv");
    expected += "\n";
    expected += &format!("normal = -get_normal({});\n", "id1_mat");
    expected += &format!("hit = plane_intersect(r, {}, get_normal({}));\n", "id1_mat_inv", "id1_mat");
    expected += &format!("if (nearer(i, hit)) {{ i = process_plane_intersection(i, hit, is_inside_{}(r.o + r.d * hit.t, hit.u, hit.v, is_collinear(hit.n, normal))); }}\n\n", 1);
    expected += "\n";
    assert_eq!(intersections_code(&objs, &matrices()), Some(expected));
}

#[test]
fn intersections_of_a_complex_portal_in_the_subspace() {
    let objs = objects(vec![Object::Complex {
        kind: ObjectType::Portal(Some(mid(0)), Some(mid(1))),
        intersect: IntersectCode::default(),
        in_subspace: SubspaceType::Subspace,
    }]);
    let mut expected = String::from("if (r.in_subspace == true) {");
    for (name, first, material) in [("m", true, "teleport_0_1_M"), ("id1", false, "teleport_0_2_M")] {
        expected += &transform(&format!("{}_mat_inv", name));
        expected += &format!("ihit = intersect_{}(transformed_ray, {});\nihit.hit.t /= len;\n", 0, first);
        expected += &format!("if (nearer(i, ihit) && ihit.material != NOT_INSIDE) {{ if (ihit.material == TELEPORT) {{ ihit.material = {}; }} if (ihit.material == TELEPORT_SUBSPACE) {{ ihit.material = {}; ihit.in_subspace = true; }} i = ihit; i.hit.n = normalize(adjugate({}) * i.hit.n); }}\n\n", material, material, format!("{}_mat", name));
    }
    expected += "}\n";
    assert_eq!(intersections_code(&objs, &matrices()), Some(expected));
}

#[test]
fn intersections_fail_on_a_missing_matrix() {
    let flat_portal = Object::Flat {
        kind: ObjectType::Portal(Some(mid(0)), Some(mid(7))),
        is_inside: IsInsideCode::default(),
        in_subspace: SubspaceType::Normal,
    };
    assert_eq!(intersections_code(&objects(vec![flat_portal]), &matrices()), None);
    assert_eq!(intersections_code(&objects(vec![Object::DebugMatrix(None)]), &matrices()), None);
    assert_eq!(intersections_code(&objects(vec![]), &matrices()), Some(String::new()));
}

#[test]
fn intersections_of_a_flat_portal() {
    let objs = objects(vec![
        Object::DebugMatrix(Some(mid(0))),
        Object::Flat {
            kind: ObjectType::Portal(Some(mid(1)), Some(mid(0))),
            is_inside: IsInsideCode::default(),
            in_subspace: SubspaceType::Normal,
        },
    ]);
    let code = intersections_code(&objs, &matrices()).unwrap();
    let mut part = String::from("if (r.in_subspace == false) {");
    for (name, first, material) in [("id1", true, "teleport_1_1_M"), ("m", false, "teleport_1_2_M")] {
        part += &format!("normal = {}get_normal({});\n", if first { "-" } else { "" }, format!("{}_mat", name));
        part += &format!("hit = plane_intersect(r, {}, normal);\n", format!("{}_mat_inv", name));
        part += &format!("if (nearer(i, hit)) {{ i = process_portal_intersection(i, hit, is_inside_{}(r.o + r.d * hit.t, hit.u, hit.v, is_collinear(hit.n, normal), {}), {}); }}\n\n", 1, first, material);
    }
    part += "}\n";
    assert!(code.ends_with(&part));
}

#[test]
fn skybox_code_with_and_without_texture() {
    assert_eq!(
        skybox_processing(&Some("sky".to_owned())),
        format!(
            "vec4 rd2 = _camera_mul_inv * r.d;float u = atan(rd2.z, rd2.x);float v = atan(sqrt(rd2.x * rd2.x + rd2.z * rd2.z), rd2.y);vec3 not_found_color = sqrvec(texture({}_tex, vec2((u/PI+1.)/2., v/PI)).rgb);",
            "sky"
        )
    );
    assert_eq!(skybox_processing(&None), "vec3 not_found_color = color(0.6, 0.6, 0.6);");
}

#[test]
fn intersection_materials_are_tried_in_turn() {
    let mut s: Storage2<Arithmetic> = Storage2::new();
    assert_eq!(intersection_material_processing(&s), "");
    s.push_default();
    s.push_default();
    let mut expected = String::new();
    for pos in 0..2 {
        expected += &format!("hit = intersect_material_{}(r);\n", pos);
        expected += "if (nearer(result.scene.hit, hit.scene.hit)) { result = hit; }\n\n";
    }
    assert_eq!(intersection_material_processing(&s), expected);
}

fn named_textures(names: &[&str]) -> Storage2<TextureName> {
    let mut s: Storage2<TextureName> = Storage2::new();
    for (k, n) in names.iter().enumerate() {
        s.push_default();
        s.rename(TextureId(UniqueId(k)), (*n).to_owned());
    }
    s
}

#[test]
fn texture_variables_are_declared_once_in_name_order() {
    let textures = named_textures(&["sky", "Wall", "floor"]);
    let videos = named_textures(&["floor", "clip"]);
    assert_eq!(
        texture_declarations(&textures, &videos),
        "uniform sampler2D Wall_tex;\nuniform sampler2D clip_tex;\nuniform sampler2D floor_tex;\nuniform sampler2D sky_tex;\n"
    );
    assert_eq!(texture_declarations(&named_textures(&[]), &named_textures(&[])), "");
}

#[test]
fn portal_materials_are_numbered_after_the_user_materials() {
    let portal = |a: usize, b: usize| Object::Complex {
        kind: ObjectType::Portal(Some(mid(a)), Some(mid(b))),
        intersect: IntersectCode::default(),
        in_subspace: SubspaceType::Both,
    };
    let objs = objects(vec![
        Object::DebugMatrix(Some(mid(0))),
        Object::Flat {
            kind: ObjectType::Portal(Some(mid(0)), Some(mid(1))),
            is_inside: IsInsideCode::default(),
            in_subspace: SubspaceType::Normal,
        },
        portal(0, 9),
        portal(1, 0),
    ]);
    let (processing, defines) = portal_materials(&objs, &matrices(), 5);
    let mut counter = 5;
    let mut exp_defines = String::new();
    let mut exp_processing = String::new();
    for (pos, first, second) in [(1, "m", "id1"), (3, "id1", "m")] {
        let name_m_1 = format!("teleport_{}_1_M", pos);
        let name_m_2 = format!("teleport_{}_2_M", pos);
        exp_defines += &format!("#define {} (USER_MATERIAL_OFFSET + {})\n", name_m_1, counter);
        counter += 1;
        exp_defines += &format!("#define {} (USER_MATERIAL_OFFSET + {})\n", name_m_2, counter);
        counter += 1;
        exp_processing += &format!("}} else if (i.material == {}) {{\n", name_m_1);
        exp_processing += &format!("return material_teleport(hit, r, {});", format!("{}_to_{}_mat_teleport", first, second));
        exp_processing += &format!("}} else if (i.material == {}) {{\n", name_m_2);
        exp_processing += &format!("return material_teleport(hit, r, {});", format!("{}_to_{}_mat_teleport", second, first));
    }
    assert_eq!(defines, exp_defines);
    assert_eq!(processing, exp_processing);
}

#[test]
fn shader_code_is_filled_in_and_filtered() {
    let mut library: Storage2<LibraryCode> = Storage2::new();
    library.push_default();
    library.set(LibraryId(UniqueId(0)), LibraryCode(GlslCode("lib();".to_owned())));
    let given = vec![];
    let textures = named_textures(&["sky"]);
    let none = named_textures(&[]);
    let template = "//%uniforms//%//%textures//%//%skybox_processing//%\n  drop !GLSL100!\n//%library//%";
    let uniforms = Some(vec![("time".to_owned(), UniformKind::Float1), ("_hidden".to_owned(), UniformKind::Int1)]);
    let result = generate_shader_code(
        template,
        &uniforms,
        given,
        StringStorage::default(),
        StringStorage::default(),
        0,
        &objects(vec![]),
        &matrices(),
        &textures,
        &none,
        &none,
        &library,
        &Some("sky".to_owned()),
        flags(false, true),
    )
    .unwrap();
    let sky = skybox_processing(&Some("sky".to_owned()));
    assert_eq!(result.storage, format!("uniform float time;\nuniform sampler2D sky_tex;\n{}\n\nlib();", sky));
    assert_eq!(result.line_numbers.entries(), vec![(ErrId(3000), 5, 6)]);
    assert_eq!(result.current_line_no(), 5);
}

#[test]
fn shader_code_fails_on_a_missing_matrix() {
    let none = named_textures(&[]);
    let result = generate_shader_code(
        "//%intersections//%",
        &Some(vec![]),
        vec![],
        StringStorage::default(),
        StringStorage::default(),
        0,
        &objects(vec![Object::DebugMatrix(Some(mid(5)))]),
        &matrices(),
        &none,
        &none,
        &none,
        &Storage2::new(),
        &None,
        flags(false, false),
    );
    assert!(result.is_none());
}

#[test]
fn trim_agrees_with_str_trim() {
    assert_eq!(lib::shader_code::trim("\u{3000} a b\u{85}\n"), "a b");
    assert_eq!(lib::shader_code::trim("   "), "");
    for u in 0u32..0x3100 {
        if let Some(c) = char::from_u32(u) {
            let s = format!("{}{}x{}{}", c, c, c, c);
            assert_eq!(lib::shader_code::trim(&s), s.trim(), "char {:x}", u);
        }
    }
}

#[test]
fn object_functions_carry_their_code_lines() {
    let objs = objects(vec![
        Object::DebugMatrix(None),
        Object::Flat {
            kind: ObjectType::Portal(None, None),
            is_inside: IsInsideCode(GlslCode("a\nb".to_owned())),
            in_subspace: SubspaceType::Both,
        },
        Object::Complex {
            kind: ObjectType::Simple(None),
            intersect: IntersectCode(GlslCode("c".to_owned())),
            in_subspace: SubspaceType::Both,
        },
    ]);
    let s = intersection_functions(&objs);
    let mut expected = String::new();
    expected += &format!("int is_inside_{}(vec4 pos, float x, float y, bool back, bool first) {{\n", 1);
    expected += "a\nb";
    expected += "\n}\n";
    expected += &format!("SceneIntersection intersect_{}(Ray r) {{\n", 2);
    expected += "c";
    expected += "\n}\n";
    assert_eq!(s.storage, expected);
    assert_eq!(s.line_numbers.entries(), vec![(ErrId(2001), 2, 4), (ErrId(2002), 6, 7)]);
    assert_eq!(s.line_numbers.get_identifier(3), Some((ErrId(2001), 2)));
}

#[test]
fn library_code_is_traced_by_position() {
    let mut library: Storage2<LibraryCode> = Storage2::new();
    library.push_default();
    library.push_default();
    library.set(LibraryId(UniqueId(0)), LibraryCode(GlslCode("x\n".to_owned())));
    library.set(LibraryId(UniqueId(1)), LibraryCode(GlslCode("y".to_owned())));
    let s = library_code(&library);
    assert_eq!(s.storage, "x\ny");
    assert_eq!(s.line_numbers.entries(), vec![(ErrId(3000), 1, 3), (ErrId(3001), 2, 3)]);
}

#[test]
fn uniforms_are_declared_except_hidden_ones() {
    let us = vec![
        ("a".to_owned(), UniformKind::Float1),
        ("_camera".to_owned(), UniformKind::Mat4),
        ("m_mat".to_owned(), UniformKind::Mat4),
        ("n".to_owned(), UniformKind::Int1),
    ];
    let mut expected = String::new();
    for (name, t) in [("a", "float"), ("m_mat", "mat4"), ("n", "int")] {
        expected += &format!("uniform {} {};\n", t, name);
    }
    assert_eq!(uniform_declarations(&us), expected);
}

#[test]
fn shader_code_needs_the_uniforms() {
    let none = named_textures(&[]);
    let result = generate_shader_code(
        "//%uniforms//%",
        &None,
        vec![],
        StringStorage::default(),
        StringStorage::default(),
        0,
        &objects(vec![]),
        &matrices(),
        &none,
        &none,
        &none,
        &Storage2::new(),
        &None,
        flags(false, false),
    );
    assert!(result.is_none());
}
