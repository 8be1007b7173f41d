use lib::animation::{get_end_cam, get_end_cam_checked, get_real_animation_name, get_stage_name, get_start_cam, get_start_cam_checked, Animation, CameraChoice, CurrentStage, RealAnimationPart};
use lib::arithmetic::Arithmetic;
use lib::combo_box::{apply_choice, ComboBoxChoosable};
use lib::eng_rus::{EngRusSettings, EngRusText};
use lib::glsl::{IntersectCode, IsInsideCode, MaterialCode};
use lib::glsl::GlslCode;
use lib::id_tools::{remap_object_value, IdMaps};
use lib::ids::{AnimationId, CameraId, CurrentCam, LibraryId, MatrixId, RealAnimationId, TextureId};
use lib::texture::TextureName;
use lib::object::{MatrixName, Object, ObjectType, SubspaceType};
use lib::scenes::{default_scenes, Scene, SceneSection, Scenes, ShowHiddenScenes};
use lib::storage2::Storage2;
use lib::unique_id::UniqueId;

fn mid(n: usize) -> MatrixId {
    MatrixId(UniqueId(n))
}

#[test]
fn id_maps_renumber() {
    let mut maps = IdMaps::default();
    assert_eq!(maps.map_camera(CameraId(UniqueId(3))), CameraId(UniqueId(3)));
    maps.cameras.insert(3, 7);
    maps.library.insert(1, 0);
    assert_eq!(maps.map_camera(CameraId(UniqueId(3))), CameraId(UniqueId(7)));
    assert_eq!(maps.map_camera(CameraId(UniqueId(4))), CameraId(UniqueId(4)));
    assert_eq!(maps.map_opt_camera(Some(CameraId(UniqueId(3)))), Some(CameraId(UniqueId(7))));
    assert_eq!(maps.map_opt_camera(None), None);
    assert_eq!(maps.map_library(LibraryId(UniqueId(1))), LibraryId(UniqueId(0)));
    assert_eq!(maps.map_matrix(mid(3)), mid(3));
    let current = CurrentCam(Some(CameraId(UniqueId(3))));
    assert_eq!(CurrentCam(maps.map_opt_camera(current.0)), CurrentCam(Some(CameraId(UniqueId(7)))));
}

#[test]
fn eng_rus_texts() {
    let t = EngRusText { eng: "Hello".to_owned(), rus: "Привет".to_owned() };
    assert_eq!(t.text(EngRusSettings::default()), "Hello");
    assert_eq!(t.text(EngRusSettings::Rus), "Привет");
    assert_eq!(EngRusSettings::Eng.toggled(), EngRusSettings::Rus);
    assert_eq!(EngRusSettings::Rus.toggled(), EngRusSettings::Eng);
}

#[test]
fn scenes_lookup() {
    let scenes = Scenes::new(vec![
        SceneSection::new("Technical", true, vec![Scene::new("Empty", "empty", "()", true)]),
        SceneSection::new(
            "Main",
            false,
            vec![Scene::new("Room", "room", "(room)", false), Scene::new("Other room", "room", "(other)", false)],
        ),
    ]);
    assert_eq!(scenes.get_by_link("room"), Some(("(room)", "Room")));
    assert_eq!(scenes.get_by_link("empty"), Some(("()", "Empty")));
    assert_eq!(scenes.get_by_link("nothing"), None);
    assert_eq!(scenes.get_all_scenes_links(), vec!["empty".to_owned(), "room".to_owned(), "room".to_owned()]);
    assert_eq!(ShowHiddenScenes::default(), ShowHiddenScenes(false));
}

#[test]
fn matrix_names() {
    let a = MatrixName("a".to_owned());
    let b = MatrixName("b".to_owned());
    assert_eq!(a.normal_name(), "a_mat");
    assert_eq!(a.inverse_name(), "a_mat_inv");
    assert_eq!(a.teleport_to_name(&b), "a_to_b_mat_teleport");
}

#[test]
fn object_matrix_names() {
    let mut matrices: Storage2<Arithmetic> = Storage2::new();
    matrices.push_default(); // 0, named "id0"
    let mut a = None;
    matrices.toggle_inline(&mut a); // 1, inline
    let aid = |n: usize| lib::ids::ArithmeticId(UniqueId(n));
    assert_eq!(Object::get_name(aid(0), &matrices).map(|n| n.0), Some("id0".to_owned()));
    matrices.rename(aid(0), "portal".to_owned());
    assert_eq!(Object::get_name(aid(0), &matrices).map(|n| n.0), Some("portal".to_owned()));
    assert_eq!(matrices.find_id("portal"), Some(aid(0)));
    assert_eq!(matrices.lookup_name("id0"), None);
    assert_eq!(Object::get_name(aid(1), &matrices).map(|n| n.0), Some("id1".to_owned()));
    assert_eq!(Object::get_name(aid(9), &matrices).map(|n| n.0), None);
    assert_eq!(a, Some(aid(1)));
}

#[test]
fn objects_choose_kind() {
    let mut o = Object::default();
    assert_eq!(o.get_number(), 0);
    assert!(apply_choice(&mut o, 2));
    match &o {
        Object::Complex { kind, intersect, in_subspace } => {
            assert_eq!(*kind, ObjectType::Simple(None));
            assert_eq!(*in_subspace, SubspaceType::Normal);
            assert_eq!(intersect.0 .0, IntersectCode::default().0 .0);
        }
        _ => panic!("expected a complex object"),
    }
    let mut k = ObjectType::Simple(Some(mid(1)));
    assert!(apply_choice(&mut k, 1));
    assert_eq!(k, ObjectType::Portal(None, None));
    let mut s = SubspaceType::default();
    assert!(apply_choice(&mut s, 2));
    assert_eq!(s, SubspaceType::Both);
    assert!(IsInsideCode::default().0 .0.contains("NOT_INSIDE"));
    assert!(MaterialCode::default().0 .0.starts_with("return material_simple"));
}

#[test]
fn animation_parts() {
    let a: Animation<Arithmetic> = Animation::Changed(Some(lib::ids::ArithmeticId(UniqueId(4))));
    assert_eq!(a.get_t(), Some(&lib::ids::ArithmeticId(UniqueId(4))));
    let b: Animation<Arithmetic> = Animation::default();
    assert!(matches!(b, Animation::FromDev));
    assert_eq!(b.get_t(), None);
    let mut c: Animation<Arithmetic> = Animation::ChangedAndToUser(Some(lib::ids::ArithmeticId(UniqueId(1))));
    assert_eq!(c.get_number(), 3);
    c.set_number(0);
    assert!(matches!(c, Animation::ProvidedToUser));
    let p: RealAnimationPart<Arithmetic> = RealAnimationPart::default();
    assert_eq!(p.get_t(), None);
    assert_eq!(RealAnimationPart::<Arithmetic>::variants(), &["Copy prev", "Changed"]);
}

#[test]
fn stage_names() {
    let stages = vec![(AnimationId(UniqueId(1)), "intro".to_owned()), (AnimationId(UniqueId(1)), "again".to_owned())];
    let anims = vec![(RealAnimationId(UniqueId(0)), "fly".to_owned())];
    assert_eq!(get_stage_name(CurrentStage::Dev, &stages, &anims), "dev");
    assert_eq!(get_stage_name(CurrentStage::Animation(AnimationId(UniqueId(1))), &stages, &anims), "intro");
    assert_eq!(get_stage_name(CurrentStage::Animation(AnimationId(UniqueId(5))), &stages, &anims), "??? animation");
    assert_eq!(get_stage_name(CurrentStage::RealAnimation(RealAnimationId(UniqueId(0))), &stages, &anims), "fly");
    assert_eq!(get_stage_name(CurrentStage::RealAnimation(RealAnimationId(UniqueId(2))), &stages, &anims), "??? real animation");
    assert_eq!(get_real_animation_name(None, &anims), "None");
    assert_eq!(get_real_animation_name(Some(RealAnimationId(UniqueId(0))), &anims), "fly");
    assert_eq!(get_real_animation_name(Some(RealAnimationId(UniqueId(3))), &anims), "???");
    assert!(CurrentStage::default().is_dev());
    assert!(!CurrentStage::Animation(AnimationId(UniqueId(0))).is_dev());
}

fn rid(n: usize) -> RealAnimationId {
    RealAnimationId(UniqueId(n))
}

fn cam(n: usize) -> CameraId {
    CameraId(UniqueId(n))
}

fn plain(start: Option<CameraId>, end: Option<CameraId>) -> CameraChoice {
    CameraChoice {
        use_prev_cam: false,
        use_start_cam_as_end: false,
        cam_start: start,
        cam_end: end,
        use_any_cam_as_start: None,
        use_any_cam_as_end: None,
        cam_any_start: None,
        cam_any_end: None,
    }
}

#[test]
fn cameras_follow_references() {
    let first = plain(Some(cam(1)), Some(cam(2)));
    let mut second = plain(None, Some(cam(3)));
    second.use_prev_cam = true;
    let mut third = plain(Some(cam(9)), None);
    third.use_start_cam_as_end = true;
    let mut fourth = plain(None, None);
    fourth.use_any_cam_as_start = Some(true);
    fourth.cam_any_start = Some(rid(1));
    fourth.use_any_cam_as_end = Some(false);
    fourth.cam_any_end = Some(rid(0));
    let list = vec![(rid(0), first), (rid(1), second), (rid(2), third), (rid(3), fourth)];
    assert_eq!(get_start_cam(&list, &first, rid(0)), Some(cam(1)));
    assert_eq!(get_end_cam(&list, &first, rid(0)), Some(cam(2)));
    // The second starts where the first ends.
    assert_eq!(get_start_cam(&list, &second, rid(1)), Some(cam(2)));
    assert_eq!(get_end_cam(&list, &second, rid(1)), Some(cam(3)));
    // The third ends where it starts.
    assert_eq!(get_end_cam(&list, &third, rid(2)), Some(cam(9)));
    // The fourth starts with the end of the second and ends with the start of the first.
    assert_eq!(get_start_cam(&list, &fourth, rid(3)), Some(cam(3)));
    assert_eq!(get_end_cam(&list, &fourth, rid(3)), Some(cam(1)));
    // The first in the list has no previous one.
    let mut lonely = plain(None, None);
    lonely.use_prev_cam = true;
    let list2 = vec![(rid(5), lonely)];
    assert_eq!(get_start_cam(&list2, &lonely, rid(5)), None);
}

#[test]
fn texture_variables_skip_repeated_names() {
    let mut textures: Storage2<TextureName> = Storage2::new();
    textures.push_default();
    textures.push_default();
    textures.rename(TextureId(UniqueId(1)), "id0".to_owned());
    let mut videos: Storage2<TextureName> = Storage2::new();
    videos.push_default();
    videos.push_default();
    assert_eq!(lib::texture::textures(&textures, &videos), vec!["id0_tex".to_owned(), "id1_tex".to_owned()]);
}

#[test]
fn remapping_an_object_renumbers_its_matrices_only() {
    let mut maps = IdMaps::default();
    maps.matrices.insert(1, 10);
    maps.objects.insert(1, 20);
    let portal = Object::Flat {
        kind: ObjectType::Portal(Some(mid(1)), Some(mid(2))),
        is_inside: IsInsideCode(GlslCode("return black_M;".to_owned())),
        in_subspace: SubspaceType::Both,
    };
    match remap_object_value(&portal, &maps) {
        Object::Flat { kind, is_inside, in_subspace } => {
            assert_eq!(kind, ObjectType::Portal(Some(mid(10)), Some(mid(2))));
            assert_eq!(is_inside.0 .0, "return black_M;");
            assert_eq!(in_subspace, SubspaceType::Both);
        }
        other => panic!("unexpected {:?}", other),
    }
    match remap_object_value(&Object::DebugMatrix(None), &maps) {
        Object::DebugMatrix(a) => assert_eq!(a, None),
        other => panic!("unexpected {:?}", other),
    }
    match remap_object_value(&Object::DebugMatrix(Some(mid(1))), &maps) {
        Object::DebugMatrix(a) => assert_eq!(a, Some(mid(10))),
        other => panic!("unexpected {:?}", other),
    }
}

#[test]
fn default_scene_list_holds_the_built_in_scenes() {
    let contents: Vec<&'static str> =
        (0..79).map(|k| &*Box::leak(format!("scene {}", k).into_boxed_str())).collect();
    let scenes = default_scenes(contents);
    let links = scenes.get_all_scenes_links();
    assert_eq!(links.len(), 79);
    assert_eq!(links[0], "empty");
    assert_eq!(scenes.get_by_link("triple_portal_ish"), Some(("scene 23", "\"Triple portal\"")));
    assert_eq!(scenes.get_by_link("nested_infinite_pocket_dimension").map(|x| x.1),
        Some("Infinitely nested pocket dimension (by cuongvd)"));
    assert_eq!(scenes.get_by_link("no such scene"), None);
    let mut sorted = links.clone();
    sorted.sort();
    sorted.dedup();
    assert_eq!(sorted.len(), 79);
}

#[test]
fn camera_choices_are_made_exclusive() {
    let mut c = plain(None, None);
    c.use_prev_cam = true;
    c.use_any_cam_as_start = Some(true);
    c.use_start_cam_as_end = true;
    c.settle_exclusive();
    assert!(!c.use_prev_cam);
    assert_eq!(c.use_any_cam_as_start, Some(true));
    assert!(c.use_start_cam_as_end);
    assert_eq!(c.use_any_cam_as_end, None);

    let mut d = plain(None, None);
    d.use_start_cam_as_end = true;
    d.use_any_cam_as_end = Some(false);
    d.settle_exclusive();
    assert!(!d.use_start_cam_as_end);
    assert_eq!(d.use_any_cam_as_end, Some(false));
}

#[test]
fn checked_cameras_stop_on_cycles() {
    let rid = |n: usize| RealAnimationId(UniqueId(n));
    let mut a = plain(Some(CameraId(UniqueId(1))), Some(CameraId(UniqueId(2))));
    a.use_any_cam_as_start = Some(false);
    a.cam_any_start = Some(rid(0));
    let b = plain(Some(CameraId(UniqueId(3))), Some(CameraId(UniqueId(4))));
    let mut c = plain(None, None);
    c.use_prev_cam = true;
    let list = vec![(rid(0), a), (rid(1), b), (rid(2), c)];
    // Animation 0 starts where itself starts: the references never end.
    assert_eq!(get_start_cam_checked(&list, &a, rid(0), 50), None);
    // Animation 2 starts with the end camera of animation 1.
    assert_eq!(get_start_cam_checked(&list, &c, rid(2), 2), Some(Some(CameraId(UniqueId(4)))));
    assert_eq!(get_start_cam_checked(&list, &c, rid(2), 1), None);
    assert_eq!(get_end_cam_checked(&list, &b, rid(1), 1), Some(Some(CameraId(UniqueId(4)))));
    assert_eq!(get_end_cam_checked(&list, &b, rid(1), 0), None);
}
