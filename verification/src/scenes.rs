use crate::text::same_text;
use vstd::prelude::*;

verus! {

/// Whether the scene list also shows the scenes marked hidden.
#[derive(Debug, Clone, Copy, Default, PartialEq, Eq, Structural)]
pub struct ShowHiddenScenes(pub bool);

/// A scene that can be opened from the scene list.
pub struct Scene {
    name: &'static str,
    link: &'static str,
    content: &'static str,
    hidden: bool,
}

impl Scene {
    /// A scene called `name`, reachable under `link`, saved as `content`.
    pub fn new(name: &'static str, link: &'static str, content: &'static str, hidden: bool) -> (result: Self)
        ensures
            result.spec_name() == name,
            result.spec_link() == link,
            result.spec_content() == content,
            result.spec_hidden() == hidden,
    {
        Scene { name, link, content, hidden }
    }

    pub closed spec fn spec_name(&self) -> &'static str {
        self.name
    }

    pub closed spec fn spec_link(&self) -> &'static str {
        self.link
    }

    pub closed spec fn spec_content(&self) -> &'static str {
        self.content
    }

    pub closed spec fn spec_hidden(&self) -> bool {
        self.hidden
    }
}

/// A group of scenes in the scene list.
pub struct SceneSection {
    name: &'static str,
    hidden: bool,
    scenes: Vec<Scene>,
}

impl SceneSection {
    /// A group called `name` holding `scenes`.
    pub fn new(name: &'static str, hidden: bool, scenes: Vec<Scene>) -> (result: Self)
        ensures
            result.spec_name() == name,
            result.spec_hidden() == hidden,
            result.spec_scenes() == scenes@,
    {
        SceneSection { name, hidden, scenes }
    }

    pub closed spec fn spec_name(&self) -> &'static str {
        self.name
    }

    pub closed spec fn spec_hidden(&self) -> bool {
        self.hidden
    }

    pub closed spec fn spec_scenes(&self) -> Seq<Scene> {
        self.scenes@
    }
}

/// The scenes of all `sections`, section after section.
pub open spec fn all_scenes(sections: Seq<SceneSection>) -> Seq<Scene>
    decreases sections.len(),
{
    if sections.len() == 0 {
        Seq::<Scene>::empty()
    } else {
        all_scenes(sections.drop_last()) + sections.last().spec_scenes()
    }
}

/// The scene list.
pub struct Scenes(Vec<SceneSection>);

impl Scenes {
    /// A scene list made of `sections`.
    pub fn new(sections: Vec<SceneSection>) -> (result: Self)
        ensures
            result.sections() == sections@,
    {
        Scenes(sections)
    }

    pub closed spec fn sections(&self) -> Seq<SceneSection> {
        self.0@
    }

    /// The content and name of the first scene whose link is `need_link`.
    pub fn get_by_link(&self, need_link: &str) -> (result: Option<(&'static str, &'static str)>)
        ensures
            match result {
                Some((content, name)) => exists|i: int|
                    0 <= i < all_scenes(self.sections()).len()
                    && (#[trigger] all_scenes(self.sections())[i]).spec_link()@ == need_link@
                    && (forall|j: int| 0 <= j < i ==> (#[trigger] all_scenes(self.sections())[j]).spec_link()@ != need_link@)
                    && content == all_scenes(self.sections())[i].spec_content()
                    && name == all_scenes(self.sections())[i].spec_name(),
                None => forall|i: int| 0 <= i < all_scenes(self.sections()).len()
                    ==> (#[trigger] all_scenes(self.sections())[i]).spec_link()@ != need_link@,
            },
    {
        let ghost secs = self.0@;
        let mut s: usize = 0;
        while s < self.0.len()
            invariant
                secs == self.0@,
                s <= secs.len(),
                forall|j: int| 0 <= j < all_scenes(secs.subrange(0, s as int)).len()
                    ==> (#[trigger] all_scenes(secs.subrange(0, s as int))[j]).spec_link()@ != need_link@,
            decreases secs.len() - s,
        {
            let ghost before = all_scenes(secs.subrange(0, s as int));
            let section = &self.0[s];
            proof {
                assert(secs.subrange(0, s + 1).drop_last() =~= secs.subrange(0, s as int));
            }
            let mut k: usize = 0;
            while k < section.scenes.len()
                invariant
                    secs == self.0@,
                    s < secs.len(),
                    *section == secs[s as int],
                    before == all_scenes(secs.subrange(0, s as int)),
                    k <= section.scenes@.len(),
                    forall|j: int| 0 <= j < before.len() ==> (#[trigger] before[j]).spec_link()@ != need_link@,
                    forall|j: int| 0 <= j < k ==> (#[trigger] section.scenes@[j]).spec_link()@ != need_link@,
                decreases section.scenes@.len() - k,
            {
                let scene = &section.scenes[k];
                if same_text(scene.link, need_link) {
                    proof {
                        let i = before.len() + k;
                        assert(secs.subrange(0, s + 1).drop_last() =~= secs.subrange(0, s as int));
                        assert(secs.subrange(0, s + 1).last() == secs[s as int]);
                        assert(all_scenes(secs.subrange(0, s + 1)) == before + section.scenes@);
                        lemma_all_scenes_prefix(secs, s + 1);
                        assert(all_scenes(secs)[i] == scene);
                        assert forall|j: int| 0 <= j < i implies (#[trigger] all_scenes(secs)[j]).spec_link()@ != need_link@ by {
                            if j < before.len() {
                                assert(all_scenes(secs)[j] == before[j]);
                            } else {
                                assert(all_scenes(secs)[j] == section.scenes@[j - before.len()]);
                            }
                        }
                        assert(self.sections() == secs);
                        assert(all_scenes(self.sections())[i].spec_link()@ == need_link@);
                    }
                    return Some((scene.content, scene.name));
                }
                k = k + 1;
            }
            proof {
                let next = all_scenes(secs.subrange(0, s + 1));
                assert(secs.subrange(0, s + 1).drop_last() =~= secs.subrange(0, s as int));
                assert(secs.subrange(0, s + 1).last() == secs[s as int]);
                assert(next == before + section.scenes@);
                assert forall|j: int| 0 <= j < next.len() implies (#[trigger] next[j]).spec_link()@ != need_link@ by {
                    if j < before.len() {
                        assert(next[j] == before[j]);
                    } else {
                        assert(next[j] == section.scenes@[j - before.len()]);
                    }
                }
            }
            s = s + 1;
        }
        proof {
            assert(secs.subrange(0, s as int) =~= secs);
        }
        None
    }

    /// The links of all scenes, section after section.
    pub fn get_all_scenes_links(&self) -> (result: Vec<String>)
        ensures
            result@.len() == all_scenes(self.sections()).len(),
            forall|i: int| 0 <= i < result@.len() ==> (#[trigger] result@[i])@ == all_scenes(self.sections())[i].spec_link()@,
    {
        let ghost secs = self.0@;
        let mut result: Vec<String> = Vec::new();
        let mut s: usize = 0;
        while s < self.0.len()
            invariant
                secs == self.0@,
                s <= secs.len(),
                result@.len() == all_scenes(secs.subrange(0, s as int)).len(),
                forall|j: int| 0 <= j < result@.len() ==> (#[trigger] result@[j])@ == all_scenes(secs.subrange(0, s as int))[j].spec_link()@,
            decreases secs.len() - s,
        {
            let ghost before = all_scenes(secs.subrange(0, s as int));
            let section = &self.0[s];
            let mut k: usize = 0;
            while k < section.scenes.len()
                invariant
                    secs == self.0@,
                    s < secs.len(),
                    *section == secs[s as int],
                    before == all_scenes(secs.subrange(0, s as int)),
                    k <= section.scenes@.len(),
                    result@.len() == before.len() + k,
                    forall|j: int| 0 <= j < before.len() ==> (#[trigger] result@[j])@ == before[j].spec_link()@,
                    forall|j: int| before.len() <= j < result@.len() ==> (#[trigger] result@[j])@ == section.scenes@[j - before.len()].spec_link()@,
                decreases section.scenes@.len() - k,
            {
                let link = section.scenes[k].link.to_owned();
                result.push(link);
                k = k + 1;
            }
            proof {
                let next = all_scenes(secs.subrange(0, s + 1));
                assert(secs.subrange(0, s + 1).drop_last() =~= secs.subrange(0, s as int));
                assert(secs.subrange(0, s + 1).last() == secs[s as int]);
                assert(next == before + section.scenes@);
                assert forall|j: int| 0 <= j < result@.len() implies (#[trigger] result@[j])@ == next[j].spec_link()@ by {
                    if j < before.len() {
                        assert(next[j] == before[j]);
                    } else {
                        assert(next[j] == section.scenes@[j - before.len()]);
                    }
                }
            }
            s = s + 1;
        }
        proof {
            assert(secs.subrange(0, s as int) =~= secs);
        }
        result
    }
}

/// The sections of the built-in scene list, in order: name, whether hidden, how many scenes.
pub open spec fn default_sections() -> Seq<(Seq<char>, bool, nat)> {
    seq![
        ("Technical"@, true, 9nat),
        ("Basics"@, false, 9nat),
        ("Physics"@, false, 3nat),
        ("Triple portal"@, false, 4nat),
        ("Advanced"@, false, 9nat),
        ("Monoportals"@, false, 8nat),
        ("Tilings"@, false, 7nat),
        ("Mobius band"@, false, 2nat),
        ("Portal in portal"@, false, 9nat),
        ("Community scenes"@, false, 19nat),
    ]
}

/// The scenes of the built-in scene list, section after section: name, link, whether hidden.
pub open spec fn default_scene_list() -> Seq<(Seq<char>, Seq<char>, bool)> {
    seq![
        ("Empty"@, "empty"@, true),
        ("Room"@, "room"@, true),
        ("White room"@, "white_room"@, true),
        ("Analytical approach (for video)"@, "analytical_approach"@, true),
        ("Digits texture"@, "digits_debug"@, true),
        ("Wheatley texture"@, "wheatley_texture"@, true),
        ("Companion cube texture"@, "companion_cube_texture"@, true),
        ("Teleportation degrees (for video)"@, "teleportation_degrees"@, true),
        ("Spheres (for video)"@, "spheres_anim"@, true),
        ("Basics"@, "basics"@, false),
        ("Same shape"@, "same_shape"@, false),
        ("Cutting prism"@, "cut_prism"@, false),
        ("Cutting plane"@, "cut_plane"@, false),
        ("Linear transformations"@, "linear_transformations"@, false),
        ("Surface portal"@, "surface_portal"@, false),
        ("Surface portal???"@, "surface_portal2"@, false),
        ("Support portals"@, "support_portals"@, false),
        ("Inverted surface"@, "inverted_surface"@, false),
        ("Moving doorway"@, "moving_doorway"@, false),
        ("Speed model"@, "speed_model"@, false),
        ("Non linear movement"@, "non_linear"@, false),
        ("Triple portal"@, "triple_portal"@, false),
        ("Triple portal fully in itself"@, "triple_portal2"@, false),
        ("\"Triple portal\""@, "triple_portal_ish"@, false),
        ("N-tuple portal"@, "n_tuple_portal"@, false),
        ("Cylinder"@, "cylinder"@, false),
        ("Cylinder spherical"@, "cylinder_spherical"@, false),
        ("Trefoil knot"@, "trefoil"@, false),
        ("Hopf Link portal"@, "hopf_link"@, false),
        ("Spherical geometry model"@, "spherical_geometry"@, false),
        ("Sphere to plane mapping portal"@, "sphere_to_plane"@, true),
        ("Sphere to sphere mapping portal"@, "sphere_to_sphere"@, true),
        ("Sphere intersection"@, "sphere_intersection"@, true),
        ("Recursive space"@, "recursive_space"@, true),
        ("Monoportal"@, "monoportal"@, false),
        ("Rotating monoportal"@, "monoportal_rotating"@, false),
        ("N-monoportal"@, "monoportal_n"@, false),
        ("Offsetting monoportal"@, "monoportal_offset"@, false),
        ("Offsetting monoportal 2"@, "monoportal_offset2"@, false),
        ("Scaling monoportal"@, "monoportal_scale"@, false),
        ("Scaling monoportal 2"@, "monoportal_scale2"@, false),
        ("Logarithmic spiral monoportal"@, "monoportal_log"@, false),
        ("Triangle tiling"@, "triangle_tiling"@, false),
        ("Square tiling"@, "square_tiling"@, false),
        ("Hexagonal tiling"@, "hexagonal_tiling"@, false),
        ("Triple tiling"@, "triple_tiling"@, false),
        ("Recursive room"@, "recursive_room"@, true),
        ("Double pentagon"@, "double_pentagon"@, true),
        ("Cone point"@, "cone"@, true),
        ("Mobius Portal"@, "mobius"@, false),
        ("Mobius Monoportal"@, "mobius_monoportal"@, false),
        ("Two pairs"@, "portal_in_portal_two_pairs"@, false),
        ("Ellipse"@, "portal_in_portal"@, false),
        ("Fully inside attempt with support portal"@, "portal_in_portal_1x_attempt"@, false),
        ("Plus ultra"@, "plus_ultra"@, false),
        ("Infinite planes to emulate plus ultra"@, "portal_in_portal_cone"@, false),
        ("Half-spheres"@, "half_spheres"@, false),
        ("Monoportal"@, "monoportal_in_monoportal"@, true),
        ("Self-intersect"@, "self_intersect"@, true),
        ("Matryoshka"@, "matryoshka"@, false),
        ("Borromean rings (by Frisk256)"@, "borromean_rings"@, false),
        ("Portal leaving Pocket Dimension using Supportal (by AiQube)"@, "leave_dimension"@, false),
        ("Flat triple portal (by AiQube)"@, "flat_triple_portal"@, false),
        ("Triangular Prism Portal (by AiQube)"@, "triangular_prism_portal"@, false),
        ("Zeno Portal (by Frisk256)"@, "zeno_portal"@, false),
        ("Octahedral Portal (by cuongvd)"@, "octahedral_portal"@, false),
        ("Cubic Portal (by cuongvd)"@, "cubic_portal"@, false),
        ("Tetrahedral Portal (by cuongvd)"@, "tetrahedral_portal"@, false),
        ("Pocket dimension in pocket dimension (by cuongvd)"@, "pocket_dimension_in_pocket_dimension"@, false),
        ("Borromean rings pocket dimension (by cuongvd)"@, "borromean_rings_pocket_dimension"@, false),
        ("2n Rotating Monoportal (by cuongvd)"@, "2n_rotating_monoportal"@, false),
        ("k-offsetting n-monoportal (by cuongvd)"@, "k_offsetting_n_monoportal"@, false),
        ("All Pocket Dimenions with Negatie Monopotals (by AiQube)"@, "all_dimension"@, false),
        ("Flower Monoportal made from Triple Portal (by AiQube)"@, "flower_monoportal"@, false),
        ("Time Portal (by AiQube)"@, "time_portal"@, false),
        ("Wormholes using 1 way portal (by cuongvd)"@, "wormholes_using_1_way_portal"@, false),
        ("Time Portal Plus Ultra (by cuongvd and AiQube)"@, "time_portal_plus_ultra"@, false),
        ("Infinitely nested pocket dimension (by cuongvd)"@, "nested_infinite_pocket_dimension"@, false),
        ("Pocket dimension using spherical portals (by cuongvd)"@, "spherical_pocket_dimension"@, false),
    ]
}

/// The files the built-in scenes are saved in, without the `.ron` ending, in the order of the
/// built-in list: `contents[k]` passed to [`default_scenes`] is the text of file `k`.
pub open spec fn scene_files() -> Seq<Seq<char>> {
    seq![
        "empty"@,
        "room"@,
        "white_room"@,
        "analytical_approach"@,
        "digits_debug"@,
        "wheatley_texture"@,
        "companion_cube_texture"@,
        "teleportation_degrees"@,
        "spheres_anim"@,
        "basics"@,
        "same_shape"@,
        "cut_prism"@,
        "cut_plane"@,
        "linear_transformations"@,
        "surface_portal"@,
        "surface_portal2"@,
        "support_portals"@,
        "inverted_surface"@,
        "moving_doorway"@,
        "speed_model"@,
        "non_linear"@,
        "triple_portal"@,
        "triple_portal2"@,
        "triple_portal_ish"@,
        "n_tuple_portal"@,
        "cylinder"@,
        "cylinder_spherical"@,
        "trefoil"@,
        "hopf_link"@,
        "spherical_geometry"@,
        "sphere_to_plane"@,
        "sphere_to_sphere"@,
        "sphere_intersection"@,
        "recursive_space"@,
        "monoportal"@,
        "monoportal_rotating"@,
        "monoportal_n"@,
        "monoportal_offset"@,
        "monoportal_offset2"@,
        "monoportal_scale"@,
        "monoportal_scale2"@,
        "monoportal_log"@,
        "triangle_tiling"@,
        "square_tiling"@,
        "hexagonal_tiling"@,
        "triple_tiling"@,
        "recursive_room"@,
        "double_pentagon"@,
        "cone"@,
        "mobius"@,
        "mobius_monoportal"@,
        "portal_in_portal_two_pairs"@,
        "portal_in_portal"@,
        "portal_in_portal_1x_attempt"@,
        "portal_in_portal_plus_ultra"@,
        "portal_in_portal_cone"@,
        "half_spheres"@,
        "monoportal_in_monoportal"@,
        "self_intersect"@,
        "matryoshka"@,
        "borromean_rings"@,
        "leave_dimension"@,
        "flat_triple_portal"@,
        "triangular_prism_portal"@,
        "zeno_portal"@,
        "octahedral_portal"@,
        "cubic_portal"@,
        "tetrahedral_portal"@,
        "pocket_dimension_in_pocket_dimension"@,
        "borromean_rings_pocket_dimension"@,
        "2n_rotating_monoportal"@,
        "k_offsetting_n_monoportal"@,
        "all_dimension"@,
        "flower_monoportal"@,
        "time_portal"@,
        "wormholes_using_1_way_portal"@,
        "time_portal_plus_ultra"@,
        "nested_infinite_pocket_dimension"@,
        "spherical_pocket_dimension"@,
    ]
}

/// Each built-in scene is reached under the name of the file it is saved in, so that its
/// link opens that file's text; the one exception is "Plus ultra", saved in
/// `portal_in_portal_plus_ultra` and reached as `plus_ultra`.
pub proof fn lemma_links_name_their_files()
    ensures
        scene_files().len() == default_scene_list().len(),
        forall|k: int| 0 <= k < scene_files().len() && k != 54 ==> #[trigger] default_scene_list()[k].1 == scene_files()[k],
        default_scene_list()[54].1 == "plus_ultra"@,
        scene_files()[54] == "portal_in_portal_plus_ultra"@,
{
    assert forall|k: int| 0 <= k < scene_files().len() && k != 54 implies #[trigger] default_scene_list()[k].1 == scene_files()[k] by {
        if k == 0 { assert(default_scene_list()[0].1 == scene_files()[0]); }
        if k == 1 { assert(default_scene_list()[1].1 == scene_files()[1]); }
        if k == 2 { assert(default_scene_list()[2].1 == scene_files()[2]); }
        if k == 3 { assert(default_scene_list()[3].1 == scene_files()[3]); }
        if k == 4 { assert(default_scene_list()[4].1 == scene_files()[4]); }
        if k == 5 { assert(default_scene_list()[5].1 == scene_files()[5]); }
        if k == 6 { assert(default_scene_list()[6].1 == scene_files()[6]); }
        if k == 7 { assert(default_scene_list()[7].1 == scene_files()[7]); }
        if k == 8 { assert(default_scene_list()[8].1 == scene_files()[8]); }
        if k == 9 { assert(default_scene_list()[9].1 == scene_files()[9]); }
        if k == 10 { assert(default_scene_list()[10].1 == scene_files()[10]); }
        if k == 11 { assert(default_scene_list()[11].1 == scene_files()[11]); }
        if k == 12 { assert(default_scene_list()[12].1 == scene_files()[12]); }
        if k == 13 { assert(default_scene_list()[13].1 == scene_files()[13]); }
        if k == 14 { assert(default_scene_list()[14].1 == scene_files()[14]); }
        if k == 15 { assert(default_scene_list()[15].1 == scene_files()[15]); }
        if k == 16 { assert(default_scene_list()[16].1 == scene_files()[16]); }
        if k == 17 { assert(default_scene_list()[17].1 == scene_files()[17]); }
        if k == 18 { assert(default_scene_list()[18].1 == scene_files()[18]); }
        if k == 19 { assert(default_scene_list()[19].1 == scene_files()[19]); }
        if k == 20 { assert(default_scene_list()[20].1 == scene_files()[20]); }
        if k == 21 { assert(default_scene_list()[21].1 == scene_files()[21]); }
        if k == 22 { assert(default_scene_list()[22].1 == scene_files()[22]); }
        if k == 23 { assert(default_scene_list()[23].1 == scene_files()[23]); }
        if k == 24 { assert(default_scene_list()[24].1 == scene_files()[24]); }
        if k == 25 { assert(default_scene_list()[25].1 == scene_files()[25]); }
        if k == 26 { assert(default_scene_list()[26].1 == scene_files()[26]); }
        if k == 27 { assert(default_scene_list()[27].1 == scene_files()[27]); }
        if k == 28 { assert(default_scene_list()[28].1 == scene_files()[28]); }
        if k == 29 { assert(default_scene_list()[29].1 == scene_files()[29]); }
        if k == 30 { assert(default_scene_list()[30].1 == scene_files()[30]); }
        if k == 31 { assert(default_scene_list()[31].1 == scene_files()[31]); }
        if k == 32 { assert(default_scene_list()[32].1 == scene_files()[32]); }
        if k == 33 { assert(default_scene_list()[33].1 == scene_files()[33]); }
        if k == 34 { assert(default_scene_list()[34].1 == scene_files()[34]); }
        if k == 35 { assert(default_scene_list()[35].1 == scene_files()[35]); }
        if k == 36 { assert(default_scene_list()[36].1 == scene_files()[36]); }
        if k == 37 { assert(default_scene_list()[37].1 == scene_files()[37]); }
        if k == 38 { assert(default_scene_list()[38].1 == scene_files()[38]); }
        if k == 39 { assert(default_scene_list()[39].1 == scene_files()[39]); }
        if k == 40 { assert(default_scene_list()[40].1 == scene_files()[40]); }
        if k == 41 { assert(default_scene_list()[41].1 == scene_files()[41]); }
        if k == 42 { assert(default_scene_list()[42].1 == scene_files()[42]); }
        if k == 43 { assert(default_scene_list()[43].1 == scene_files()[43]); }
        if k == 44 { assert(default_scene_list()[44].1 == scene_files()[44]); }
        if k == 45 { assert(default_scene_list()[45].1 == scene_files()[45]); }
        if k == 46 { assert(default_scene_list()[46].1 == scene_files()[46]); }
        if k == 47 { assert(default_scene_list()[47].1 == scene_files()[47]); }
        if k == 48 { assert(default_scene_list()[48].1 == scene_files()[48]); }
        if k == 49 { assert(default_scene_list()[49].1 == scene_files()[49]); }
        if k == 50 { assert(default_scene_list()[50].1 == scene_files()[50]); }
        if k == 51 { assert(default_scene_list()[51].1 == scene_files()[51]); }
        if k == 52 { assert(default_scene_list()[52].1 == scene_files()[52]); }
        if k == 53 { assert(default_scene_list()[53].1 == scene_files()[53]); }
        if k == 55 { assert(default_scene_list()[55].1 == scene_files()[55]); }
        if k == 56 { assert(default_scene_list()[56].1 == scene_files()[56]); }
        if k == 57 { assert(default_scene_list()[57].1 == scene_files()[57]); }
        if k == 58 { assert(default_scene_list()[58].1 == scene_files()[58]); }
        if k == 59 { assert(default_scene_list()[59].1 == scene_files()[59]); }
        if k == 60 { assert(default_scene_list()[60].1 == scene_files()[60]); }
        if k == 61 { assert(default_scene_list()[61].1 == scene_files()[61]); }
        if k == 62 { assert(default_scene_list()[62].1 == scene_files()[62]); }
        if k == 63 { assert(default_scene_list()[63].1 == scene_files()[63]); }
        if k == 64 { assert(default_scene_list()[64].1 == scene_files()[64]); }
        if k == 65 { assert(default_scene_list()[65].1 == scene_files()[65]); }
        if k == 66 { assert(default_scene_list()[66].1 == scene_files()[66]); }
        if k == 67 { assert(default_scene_list()[67].1 == scene_files()[67]); }
        if k == 68 { assert(default_scene_list()[68].1 == scene_files()[68]); }
        if k == 69 { assert(default_scene_list()[69].1 == scene_files()[69]); }
        if k == 70 { assert(default_scene_list()[70].1 == scene_files()[70]); }
        if k == 71 { assert(default_scene_list()[71].1 == scene_files()[71]); }
        if k == 72 { assert(default_scene_list()[72].1 == scene_files()[72]); }
        if k == 73 { assert(default_scene_list()[73].1 == scene_files()[73]); }
        if k == 74 { assert(default_scene_list()[74].1 == scene_files()[74]); }
        if k == 75 { assert(default_scene_list()[75].1 == scene_files()[75]); }
        if k == 76 { assert(default_scene_list()[76].1 == scene_files()[76]); }
        if k == 77 { assert(default_scene_list()[77].1 == scene_files()[77]); }
        if k == 78 { assert(default_scene_list()[78].1 == scene_files()[78]); }
    }
}

/// The scene at position `k` of the built-in list, saved as `contents[k]`.
fn listed_scene(name: &'static str, link: &'static str, hidden: bool, contents: &Vec<&'static str>, k: usize) -> (result: Scene)
    requires
        k < contents@.len(),
    ensures
        result.spec_name() == name,
        result.spec_link() == link,
        result.spec_hidden() == hidden,
        result.spec_content() == contents@[k as int],
{
    Scene::new(name, link, contents[k], hidden)
}

/// The built-in scene list, with `contents[k]` the saved scene at position `k`.
#[verifier::rlimit(100)]
#[verifier::spinoff_prover]
pub fn default_scenes(contents: Vec<&'static str>) -> (result: Scenes)
    requires
        contents@.len() == default_scene_list().len(),
    ensures
        result.sections().len() == default_sections().len(),
        forall|i: int| 0 <= i < default_sections().len() ==> (#[trigger] result.sections()[i]).spec_name()@ == default_sections()[i].0
            && result.sections()[i].spec_hidden() == default_sections()[i].1
            && result.sections()[i].spec_scenes().len() == default_sections()[i].2,
        all_scenes(result.sections()).len() == default_scene_list().len(),
        forall|k: int| 0 <= k < default_scene_list().len() ==> (#[trigger] all_scenes(result.sections())[k]).spec_name()@ == default_scene_list()[k].0
            && all_scenes(result.sections())[k].spec_link()@ == default_scene_list()[k].1
            && all_scenes(result.sections())[k].spec_hidden() == default_scene_list()[k].2
            && all_scenes(result.sections())[k].spec_content() == contents@[k],
        forall|k: int| 0 <= k < scene_files().len() && k != 54 ==> (#[trigger] all_scenes(result.sections())[k]).spec_link()@
            == scene_files()[k],
{

    let section0 = SceneSection::new("Technical", true, vec![
            listed_scene("Empty", "empty", true, &contents, 0),
            listed_scene("Room", "room", true, &contents, 1),
            listed_scene("White room", "white_room", true, &contents, 2),
            listed_scene("Analytical approach (for video)", "analytical_approach", true, &contents, 3),
            listed_scene("Digits texture", "digits_debug", true, &contents, 4),
            listed_scene("Wheatley texture", "wheatley_texture", true, &contents, 5),
            listed_scene("Companion cube texture", "companion_cube_texture", true, &contents, 6),
            listed_scene("Teleportation degrees (for video)", "teleportation_degrees", true, &contents, 7),
            listed_scene("Spheres (for video)", "spheres_anim", true, &contents, 8),
    ]);
    let section1 = SceneSection::new("Basics", false, vec![
            listed_scene("Basics", "basics", false, &contents, 9),
            listed_scene("Same shape", "same_shape", false, &contents, 10),
            listed_scene("Cutting prism", "cut_prism", false, &contents, 11),
            listed_scene("Cutting plane", "cut_plane", false, &contents, 12),
            listed_scene("Linear transformations", "linear_transformations", false, &contents, 13),
            listed_scene("Surface portal", "surface_portal", false, &contents, 14),
            listed_scene("Surface portal???", "surface_portal2", false, &contents, 15),
            listed_scene("Support portals", "support_portals", false, &contents, 16),
            listed_scene("Inverted surface", "inverted_surface", false, &contents, 17),
    ]);
    let section2 = SceneSection::new("Physics", false, vec![
            listed_scene("Moving doorway", "moving_doorway", false, &contents, 18),
            listed_scene("Speed model", "speed_model", false, &contents, 19),
            listed_scene("Non linear movement", "non_linear", false, &contents, 20),
    ]);
    let section3 = SceneSection::new("Triple portal", false, vec![
            listed_scene("Triple portal", "triple_portal", false, &contents, 21),
            listed_scene("Triple portal fully in itself", "triple_portal2", false, &contents, 22),
            listed_scene("\"Triple portal\"", "triple_portal_ish", false, &contents, 23),
            listed_scene("N-tuple portal", "n_tuple_portal", false, &contents, 24),
    ]);
    let section4 = SceneSection::new("Advanced", false, vec![
            listed_scene("Cylinder", "cylinder", false, &contents, 25),
            listed_scene("Cylinder spherical", "cylinder_spherical", false, &contents, 26),
            listed_scene("Trefoil knot", "trefoil", false, &contents, 27),
            listed_scene("Hopf Link portal", "hopf_link", false, &contents, 28),
            listed_scene("Spherical geometry model", "spherical_geometry", false, &contents, 29),
            listed_scene("Sphere to plane mapping portal", "sphere_to_plane", true, &contents, 30),
            listed_scene("Sphere to sphere mapping portal", "sphere_to_sphere", true, &contents, 31),
            listed_scene("Sphere intersection", "sphere_intersection", true, &contents, 32),
            listed_scene("Recursive space", "recursive_space", true, &contents, 33),
    ]);
    let section5 = SceneSection::new("Monoportals", false, vec![
            listed_scene("Monoportal", "monoportal", false, &contents, 34),
            listed_scene("Rotating monoportal", "monoportal_rotating", false, &contents, 35),
            listed_scene("N-monoportal", "monoportal_n", false, &contents, 36),
            listed_scene("Offsetting monoportal", "monoportal_offset", false, &contents, 37),
            listed_scene("Offsetting monoportal 2", "monoportal_offset2", false, &contents, 38),
            listed_scene("Scaling monoportal", "monoportal_scale", false, &contents, 39),
            listed_scene("Scaling monoportal 2", "monoportal_scale2", false, &contents, 40),
            listed_scene("Logarithmic spiral monoportal", "monoportal_log", false, &contents, 41),
    ]);
    let section6 = SceneSection::new("Tilings", false, vec![
            listed_scene("Triangle tiling", "triangle_tiling", false, &contents, 42),
            listed_scene("Square tiling", "square_tiling", false, &contents, 43),
            listed_scene("Hexagonal tiling", "hexagonal_tiling", false, &contents, 44),
            listed_scene("Triple tiling", "triple_tiling", false, &contents, 45),
            listed_scene("Recursive room", "recursive_room", true, &contents, 46),
            listed_scene("Double pentagon", "double_pentagon", true, &contents, 47),
            listed_scene("Cone point", "cone", true, &contents, 48),
    ]);
    let section7 = SceneSection::new("Mobius band", false, vec![
            listed_scene("Mobius Portal", "mobius", false, &contents, 49),
            listed_scene("Mobius Monoportal", "mobius_monoportal", false, &contents, 50),
    ]);
    let section8 = SceneSection::new("Portal in portal", false, vec![
            listed_scene("Two pairs", "portal_in_portal_two_pairs", false, &contents, 51),
            listed_scene("Ellipse", "portal_in_portal", false, &contents, 52),
            listed_scene("Fully inside attempt with support portal", "portal_in_portal_1x_attempt", false, &contents, 53),
            listed_scene("Plus ultra", "plus_ultra", false, &contents, 54),
            listed_scene("Infinite planes to emulate plus ultra", "portal_in_portal_cone", false, &contents, 55),
            listed_scene("Half-spheres", "half_spheres", false, &contents, 56),
            listed_scene("Monoportal", "monoportal_in_monoportal", true, &contents, 57),
            listed_scene("Self-intersect", "self_intersect", true, &contents, 58),
            listed_scene("Matryoshka", "matryoshka", false, &contents, 59),
    ]);
    let section9 = SceneSection::new("Community scenes", false, vec![
            listed_scene("Borromean rings (by Frisk256)", "borromean_rings", false, &contents, 60),
            listed_scene("Portal leaving Pocket Dimension using Supportal (by AiQube)", "leave_dimension", false, &contents, 61),
            listed_scene("Flat triple portal (by AiQube)", "flat_triple_portal", false, &contents, 62),
            listed_scene("Triangular Prism Portal (by AiQube)", "triangular_prism_portal", false, &contents, 63),
            listed_scene("Zeno Portal (by Frisk256)", "zeno_portal", false, &contents, 64),
            listed_scene("Octahedral Portal (by cuongvd)", "octahedral_portal", false, &contents, 65),
            listed_scene("Cubic Portal (by cuongvd)", "cubic_portal", false, &contents, 66),
            listed_scene("Tetrahedral Portal (by cuongvd)", "tetrahedral_portal", false, &contents, 67),
            listed_scene("Pocket dimension in pocket dimension (by cuongvd)", "pocket_dimension_in_pocket_dimension", false, &contents, 68),
            listed_scene("Borromean rings pocket dimension (by cuongvd)", "borromean_rings_pocket_dimension", false, &contents, 69),
            listed_scene("2n Rotating Monoportal (by cuongvd)", "2n_rotating_monoportal", false, &contents, 70),
            listed_scene("k-offsetting n-monoportal (by cuongvd)", "k_offsetting_n_monoportal", false, &contents, 71),
            listed_scene("All Pocket Dimenions with Negatie Monopotals (by AiQube)", "all_dimension", false, &contents, 72),
            listed_scene("Flower Monoportal made from Triple Portal (by AiQube)", "flower_monoportal", false, &contents, 73),
            listed_scene("Time Portal (by AiQube)", "time_portal", false, &contents, 74),
            listed_scene("Wormholes using 1 way portal (by cuongvd)", "wormholes_using_1_way_portal", false, &contents, 75),
            listed_scene("Time Portal Plus Ultra (by cuongvd and AiQube)", "time_portal_plus_ultra", false, &contents, 76),
            listed_scene("Infinitely nested pocket dimension (by cuongvd)", "nested_infinite_pocket_dimension", false, &contents, 77),
            listed_scene("Pocket dimension using spherical portals (by cuongvd)", "spherical_pocket_dimension", false, &contents, 78),
    ]);
    let sections = vec![section0, section1, section2, section3, section4, section5, section6, section7, section8, section9];
    let result = Scenes::new(sections);
    proof {
        reveal_with_fuel(all_scenes, 11);
        lemma_links_name_their_files();
    }
    result
}

/// A link opens a scene exactly when it is among the links of all scenes.
pub proof fn lemma_link_found_iff_listed(sections: Seq<SceneSection>, links: Seq<Seq<char>>, need: Seq<char>)
    requires
        links.len() == all_scenes(sections).len(),
        forall|i: int| 0 <= i < links.len() ==> #[trigger] links[i] == all_scenes(sections)[i].spec_link()@,
    ensures
        links.contains(need) <==> exists|i: int|
            0 <= i < all_scenes(sections).len() && (#[trigger] all_scenes(sections)[i]).spec_link()@ == need,
{
    if links.contains(need) {
        let i = choose|i: int| 0 <= i < links.len() && links[i] == need;
        assert(all_scenes(sections)[i].spec_link()@ == need);
    }
    if exists|i: int| 0 <= i < all_scenes(sections).len() && (#[trigger] all_scenes(sections)[i]).spec_link()@ == need {
        let i = choose|i: int| 0 <= i < all_scenes(sections).len() && (#[trigger] all_scenes(sections)[i]).spec_link()@ == need;
        assert(links[i] == need);
    }
}

/// The scenes of a prefix of the sections begin the scenes of all sections.
pub proof fn lemma_all_scenes_prefix(secs: Seq<SceneSection>, n: int)
    requires
        0 <= n <= secs.len(),
    ensures
        all_scenes(secs.subrange(0, n)).len() <= all_scenes(secs).len(),
        forall|j: int| 0 <= j < all_scenes(secs.subrange(0, n)).len() ==> #[trigger] all_scenes(secs)[j] == all_scenes(secs.subrange(0, n))[j],
    decreases secs.len() - n,
{
    if n < secs.len() {
        lemma_all_scenes_prefix(secs, n + 1);
        assert(secs.subrange(0, n + 1).drop_last() =~= secs.subrange(0, n));
    } else {
        assert(secs.subrange(0, n) =~= secs);
    }
}

} // verus!
