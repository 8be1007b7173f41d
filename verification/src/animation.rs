use crate::combo_box::ComboBoxChoosable;
use crate::ids::{AnimationId, CameraId, RealAnimationId};
use crate::storage2::StorageElem2;
use vstd::prelude::*;

verus! {

/// The stage the scene shows: the developer's setup, an animation stage, or an animation.
#[derive(Debug, Clone, Copy, PartialEq, Eq, Structural)]
pub enum CurrentStage {
    Dev,
    Animation(AnimationId),
    RealAnimation(RealAnimationId),
}

impl Default for CurrentStage {
    /// The developer's setup.
    fn default() -> (result: Self)
        ensures
            result == CurrentStage::Dev,
    {
        CurrentStage::Dev
    }
}

impl CurrentStage {
    /// Whether this is the developer's setup.
    pub fn is_dev(&self) -> (result: bool)
        ensures
            result == (*self == CurrentStage::Dev),
    {
        match self {
            CurrentStage::Dev => true,
            _ => false,
        }
    }
}

/// What an animation stage does with one element: shows it to the user, takes it from the
/// developer's setup, or replaces it by another element (possibly also showing it).
#[derive(Debug)]
pub enum Animation<T: StorageElem2> {
    ProvidedToUser,
    FromDev,
    Changed(Option<T::IdWrapper>),
    ChangedAndToUser(Option<T::IdWrapper>),
}

impl<T: StorageElem2> Animation<T> {
    /// The element that replaces this one, if one is chosen.
    pub open spec fn spec_t(&self) -> Option<T::IdWrapper> {
        match self {
            Animation::Changed(Some(t)) => Some(*t),
            Animation::ChangedAndToUser(Some(t)) => Some(*t),
            _ => None,
        }
    }

    /// The element that replaces this one, if one is chosen.
    pub fn get_t(&self) -> (result: Option<&T::IdWrapper>)
        ensures
            match result {
                Some(t) => self.spec_t() == Some(*t),
                None => self.spec_t() is None,
            },
    {
        match self {
            Animation::Changed(Some(t)) => Some(t),
            Animation::ChangedAndToUser(Some(t)) => Some(t),
            _ => None,
        }
    }
}

impl<T: StorageElem2> Default for Animation<T> {
    /// Taken from the developer's setup.
    fn default() -> (result: Self)
        ensures
            result matches Animation::FromDev,
    {
        Animation::FromDev
    }
}

impl<T: StorageElem2> ComboBoxChoosable for Animation<T> {
    open spec fn variant_count() -> nat {
        4
    }

    open spec fn number(&self) -> nat {
        match self {
            Animation::ProvidedToUser => 0,
            Animation::FromDev => 1,
            Animation::Changed(_) => 2,
            Animation::ChangedAndToUser(_) => 3,
        }
    }

    open spec fn variant_names() -> Seq<Seq<char>> {
        seq!["To user"@, "From dev"@, "Changed"@, "Changed + To user"@]
    }

    fn variants() -> (result: &'static [&'static str]) {
        let names: &'static [&'static str] = &["To user", "From dev", "Changed", "Changed + To user"];
        names
    }

    fn get_number(&self) -> (result: usize) {
        match self {
            Animation::ProvidedToUser => 0,
            Animation::FromDev => 1,
            Animation::Changed(_) => 2,
            Animation::ChangedAndToUser(_) => 3,
        }
    }

    /// Becomes the chosen kind, replaced by nothing yet.
    fn set_number(&mut self, number: usize)
        ensures
            final(self).spec_t() is None,
    {
        *self = match number {
            0 => Animation::ProvidedToUser,
            1 => Animation::FromDev,
            2 => Animation::Changed(None),
            _ => Animation::ChangedAndToUser(None),
        };
    }
}

/// What an animation does with one element: keeps it from the previous animation, or
/// replaces it by another element.
#[derive(Debug)]
pub enum RealAnimationPart<T: StorageElem2> {
    CopyPrev,
    Changed(Option<T::IdWrapper>),
}

impl<T: StorageElem2> RealAnimationPart<T> {
    /// The element that replaces this one, if one is chosen.
    pub open spec fn spec_t(&self) -> Option<T::IdWrapper> {
        match self {
            RealAnimationPart::Changed(Some(t)) => Some(*t),
            _ => None,
        }
    }

    /// The element that replaces this one, if one is chosen.
    pub fn get_t(&self) -> (result: Option<&T::IdWrapper>)
        ensures
            match result {
                Some(t) => self.spec_t() == Some(*t),
                None => self.spec_t() is None,
            },
    {
        match self {
            RealAnimationPart::Changed(Some(t)) => Some(t),
            _ => None,
        }
    }
}

impl<T: StorageElem2> Default for RealAnimationPart<T> {
    /// Kept from the previous animation.
    fn default() -> (result: Self)
        ensures
            result matches RealAnimationPart::CopyPrev,
    {
        RealAnimationPart::CopyPrev
    }
}

impl<T: StorageElem2> ComboBoxChoosable for RealAnimationPart<T> {
    open spec fn variant_count() -> nat {
        2
    }

    open spec fn number(&self) -> nat {
        match self {
            RealAnimationPart::CopyPrev => 0,
            RealAnimationPart::Changed(_) => 1,
        }
    }

    open spec fn variant_names() -> Seq<Seq<char>> {
        seq!["Copy prev"@, "Changed"@]
    }

    fn variants() -> (result: &'static [&'static str]) {
        let names: &'static [&'static str] = &["Copy prev", "Changed"];
        names
    }

    fn get_number(&self) -> (result: usize) {
        match self {
            RealAnimationPart::CopyPrev => 0,
            RealAnimationPart::Changed(_) => 1,
        }
    }

    /// Becomes the chosen kind, replaced by nothing yet.
    fn set_number(&mut self, number: usize)
        ensures
            final(self).spec_t() is None,
    {
        *self = match number {
            0 => RealAnimationPart::CopyPrev,
            _ => RealAnimationPart::Changed(None),
        };
    }
}

/// The name given to `id` in `names`, the first one if several; `None` if it has none.
pub open spec fn name_of<I>(id: I, names: Seq<(I, String)>) -> Option<Seq<char>> {
    if exists|i: int| 0 <= i < names.len() && (#[trigger] names[i]).0 == id {
        let i = choose|i: int| 0 <= i < names.len() && (#[trigger] names[i]).0 == id
            && forall|j: int| 0 <= j < i ==> (#[trigger] names[j]).0 != id;
        Some(names[i].1@)
    } else {
        None
    }
}

/// The first name given to the animation stage `id`.
fn find_stage_name(id: AnimationId, names: &Vec<(AnimationId, String)>) -> (result: Option<String>)
    ensures
        match result {
            Some(n) => exists|i: int| 0 <= i < names@.len() && (#[trigger] names@[i]).0 == id && n@ == names@[i].1@
                && forall|j: int| 0 <= j < i ==> (#[trigger] names@[j]).0 != id,
            None => forall|i: int| 0 <= i < names@.len() ==> (#[trigger] names@[i]).0 != id,
        },
{
    let mut i: usize = 0;
    while i < names.len()
        invariant
            i <= names@.len(),
            forall|j: int| 0 <= j < i ==> (#[trigger] names@[j]).0 != id,
        decreases names@.len() - i,
    {
        if names[i].0 == id {
            let n = names[i].1.clone();
            assert(names@[i as int].0 == id);
            return Some(n);
        }
        i = i + 1;
    }
    None
}

/// The first name given to the animation `id`.
fn find_animation_name(id: RealAnimationId, names: &Vec<(RealAnimationId, String)>) -> (result: Option<String>)
    ensures
        match result {
            Some(n) => exists|i: int| 0 <= i < names@.len() && (#[trigger] names@[i]).0 == id && n@ == names@[i].1@
                && forall|j: int| 0 <= j < i ==> (#[trigger] names@[j]).0 != id,
            None => forall|i: int| 0 <= i < names@.len() ==> (#[trigger] names@[i]).0 != id,
        },
{
    let mut i: usize = 0;
    while i < names.len()
        invariant
            i <= names@.len(),
            forall|j: int| 0 <= j < i ==> (#[trigger] names@[j]).0 != id,
        decreases names@.len() - i,
    {
        if names[i].0 == id {
            let n = names[i].1.clone();
            assert(names@[i as int].0 == id);
            return Some(n);
        }
        i = i + 1;
    }
    None
}

/// The name shown for an animation field: `None` when no animation is chosen, its name, or
/// `???` when it is not among `real_animations`.
pub fn get_real_animation_name(id: Option<RealAnimationId>, real_animations: &Vec<(RealAnimationId, String)>) -> (result: String)
    ensures
        match id {
            None => result@ == "None"@,
            Some(id) => match name_of(id, real_animations@) {
                Some(n) => result@ == n,
                None => result@ == "???"@,
            },
        },
{
    match id {
        None => String::from_str("None"),
        Some(id) => match find_animation_name(id, real_animations) {
            Some(n) => n,
            None => String::from_str("???"),
        },
    }
}

/// The name shown for a stage: `dev`, the name of the animation stage or animation, or a
/// `???` note when it is not among the given names.
pub fn get_stage_name(
    current_stage: CurrentStage,
    animation_stages: &Vec<(AnimationId, String)>,
    real_animations: &Vec<(RealAnimationId, String)>,
) -> (result: String)
    ensures
        match current_stage {
            CurrentStage::Dev => result@ == "dev"@,
            CurrentStage::Animation(id) => match name_of(id, animation_stages@) {
                Some(n) => result@ == n,
                None => result@ == "??? animation"@,
            },
            CurrentStage::RealAnimation(id) => match name_of(id, real_animations@) {
                Some(n) => result@ == n,
                None => result@ == "??? real animation"@,
            },
        },
{
    match current_stage {
        CurrentStage::Dev => String::from_str("dev"),
        CurrentStage::Animation(id) => match find_stage_name(id, animation_stages) {
            Some(n) => n,
            None => String::from_str("??? animation"),
        },
        CurrentStage::RealAnimation(id) => match find_animation_name(id, real_animations) {
            Some(n) => n,
            None => String::from_str("??? real animation"),
        },
    }
}

/// How an animation chooses the cameras it starts and ends with: a fixed camera, the camera
/// the previous animation in the list ends with, or the start or end camera of any other
/// animation; and it may end with the camera it starts with.
#[derive(Debug, Clone, Copy, PartialEq, Eq, Structural)]
pub struct CameraChoice {
    pub use_prev_cam: bool,
    pub use_start_cam_as_end: bool,
    pub cam_start: Option<CameraId>,
    pub cam_end: Option<CameraId>,
    pub use_any_cam_as_start: Option<bool>,
    pub use_any_cam_as_end: Option<bool>,
    pub cam_any_start: Option<RealAnimationId>,
    pub cam_any_end: Option<RealAnimationId>,
}

impl CameraChoice {
    /// Makes the exclusive camera choices agree, as the animation editor does before showing
    /// them: choosing any animation's camera as the start turns off using the previous end
    /// camera, and choosing one as the end turns off using the start camera as the end.
    pub fn settle_exclusive(&mut self)
        ensures
            final(self).use_prev_cam == (old(self).use_prev_cam && old(self).use_any_cam_as_start is None),
            final(self).use_any_cam_as_start == old(self).use_any_cam_as_start,
            final(self).use_start_cam_as_end == (old(self).use_start_cam_as_end && old(self).use_any_cam_as_end is None),
            final(self).use_any_cam_as_end == old(self).use_any_cam_as_end,
            final(self).cam_start == old(self).cam_start,
            final(self).cam_end == old(self).cam_end,
            final(self).cam_any_start == old(self).cam_any_start,
            final(self).cam_any_end == old(self).cam_any_end,
            !(final(self).use_prev_cam && final(self).use_any_cam_as_start is Some),
            !(final(self).use_start_cam_as_end && final(self).use_any_cam_as_end is Some),
    {
        if self.use_any_cam_as_start.is_some() {
            self.use_prev_cam = false;
        }
        if self.use_any_cam_as_end.is_some() {
            self.use_start_cam_as_end = false;
        }
        if self.use_prev_cam {
            self.use_any_cam_as_start = None;
        }
        if self.use_start_cam_as_end {
            self.use_any_cam_as_end = None;
        }
    }
}

/// The camera choice of animation `id` in the list, the first one if it occurs twice.
pub open spec fn find_choice(list: Seq<(RealAnimationId, CameraChoice)>, id: RealAnimationId) -> Option<CameraChoice> {
    if exists|i: int| 0 <= i < list.len() && (#[trigger] list[i]).0 == id {
        let i = choose|i: int| 0 <= i < list.len() && (#[trigger] list[i]).0 == id
            && forall|j: int| 0 <= j < i ==> (#[trigger] list[j]).0 != id;
        Some(list[i].1)
    } else {
        None
    }
}

/// The animation listed right before `id` (at its first place after the first), if any.
pub open spec fn previous_of(list: Seq<(RealAnimationId, CameraChoice)>, id: RealAnimationId) -> Option<RealAnimationId> {
    if exists|i: int| 1 <= i < list.len() && (#[trigger] list[i]).0 == id {
        let i = choose|i: int| 1 <= i < list.len() && (#[trigger] list[i]).0 == id
            && forall|j: int| 1 <= j < i ==> (#[trigger] list[j]).0 != id;
        Some(list[i - 1].0)
    } else {
        None
    }
}

/// The camera animation `id`, with choice `choice`, starts with, following at most `fuel`
/// references; `None` when that is not enough or a referenced animation is missing.
pub open spec fn start_cam(list: Seq<(RealAnimationId, CameraChoice)>, choice: CameraChoice, id: RealAnimationId, fuel: nat) -> Option<Option<CameraId>>
    decreases fuel,
{
    if fuel == 0 {
        None
    } else if choice.use_prev_cam {
        match previous_of(list, id) {
            Some(a) => match find_choice(list, a) {
                Some(c) => end_cam(list, c, a, (fuel - 1) as nat),
                None => None,
            },
            None => Some(None),
        }
    } else if choice.use_any_cam_as_start is Some {
        match choice.cam_any_start {
            None => Some(None),
            Some(x) => match find_choice(list, x) {
                None => None,
                Some(c) => if choice.use_any_cam_as_start.unwrap() {
                    end_cam(list, c, x, (fuel - 1) as nat)
                } else {
                    start_cam(list, c, x, (fuel - 1) as nat)
                },
            },
        }
    } else {
        Some(choice.cam_start)
    }
}

/// The camera animation `id`, with choice `choice`, ends with, following at most `fuel`
/// references; `None` when that is not enough or a referenced animation is missing.
pub open spec fn end_cam(list: Seq<(RealAnimationId, CameraChoice)>, choice: CameraChoice, id: RealAnimationId, fuel: nat) -> Option<Option<CameraId>>
    decreases fuel,
{
    if fuel == 0 {
        None
    } else if choice.use_start_cam_as_end {
        start_cam(list, choice, id, (fuel - 1) as nat)
    } else if choice.use_any_cam_as_end is Some {
        match choice.cam_any_end {
            None => Some(None),
            Some(x) => match find_choice(list, x) {
                None => None,
                Some(c) => if choice.use_any_cam_as_end.unwrap() {
                    end_cam(list, c, x, (fuel - 1) as nat)
                } else {
                    start_cam(list, c, x, (fuel - 1) as nat)
                },
            },
        }
    } else {
        Some(choice.cam_end)
    }
}

/// Following references gives one answer, however far one is willing to follow them.
proof fn lemma_start_cam_agree(list: Seq<(RealAnimationId, CameraChoice)>, choice: CameraChoice, id: RealAnimationId, f1: nat, f2: nat)
    requires
        start_cam(list, choice, id, f1) is Some,
        start_cam(list, choice, id, f2) is Some,
    ensures
        start_cam(list, choice, id, f1) == start_cam(list, choice, id, f2),
    decreases f1,
{
    if choice.use_prev_cam {
        match previous_of(list, id) {
            Some(a) => match find_choice(list, a) {
                Some(c) => lemma_end_cam_agree(list, c, a, (f1 - 1) as nat, (f2 - 1) as nat),
                None => {},
            },
            None => {},
        }
    } else if choice.use_any_cam_as_start is Some {
        match choice.cam_any_start {
            None => {},
            Some(x) => match find_choice(list, x) {
                None => {},
                Some(c) => if choice.use_any_cam_as_start.unwrap() {
                    lemma_end_cam_agree(list, c, x, (f1 - 1) as nat, (f2 - 1) as nat)
                } else {
                    lemma_start_cam_agree(list, c, x, (f1 - 1) as nat, (f2 - 1) as nat)
                },
            },
        }
    }
}

/// Following references gives one answer, however far one is willing to follow them.
proof fn lemma_end_cam_agree(list: Seq<(RealAnimationId, CameraChoice)>, choice: CameraChoice, id: RealAnimationId, f1: nat, f2: nat)
    requires
        end_cam(list, choice, id, f1) is Some,
        end_cam(list, choice, id, f2) is Some,
    ensures
        end_cam(list, choice, id, f1) == end_cam(list, choice, id, f2),
    decreases f1,
{
    if choice.use_start_cam_as_end {
        lemma_start_cam_agree(list, choice, id, (f1 - 1) as nat, (f2 - 1) as nat);
    } else if choice.use_any_cam_as_end is Some {
        match choice.cam_any_end {
            None => {},
            Some(x) => match find_choice(list, x) {
                None => {},
                Some(c) => if choice.use_any_cam_as_end.unwrap() {
                    lemma_end_cam_agree(list, c, x, (f1 - 1) as nat, (f2 - 1) as nat)
                } else {
                    lemma_start_cam_agree(list, c, x, (f1 - 1) as nat, (f2 - 1) as nat)
                },
            },
        }
    }
}

/// Whether a camera choice names its cameras itself, referring to no other animation.
pub open spec fn is_plain(c: CameraChoice) -> bool {
    &&& !c.use_prev_cam
    &&& c.use_any_cam_as_start is None
    &&& !c.use_start_cam_as_end
    &&& c.use_any_cam_as_end is None
}

/// What the camera references resolve to, one step away from a choice that names its cameras
/// itself: such a choice starts with its start camera and ends with its end camera; taking
/// another animation's camera gives that animation's end camera when asked for its end, and
/// its start camera otherwise; taking the previous animation's camera gives that
/// animation's end camera; using the start camera as the end gives the start camera.
pub proof fn lemma_cameras_of_references(
    list: Seq<(RealAnimationId, CameraChoice)>,
    choice: CameraChoice,
    id: RealAnimationId,
    x: RealAnimationId,
    c: CameraChoice,
    fuel: nat,
)
    requires
        fuel >= 2,
        find_choice(list, x) == Some(c),
        is_plain(c),
    ensures
        is_plain(choice) ==> start_cam(list, choice, id, fuel) == Some(choice.cam_start) && end_cam(list, choice, id, fuel)
            == Some(choice.cam_end),
        !choice.use_start_cam_as_end && choice.use_any_cam_as_end == Some(true) && choice.cam_any_end == Some(x) ==> end_cam(
            list,
            choice,
            id,
            fuel,
        ) == Some(c.cam_end),
        !choice.use_start_cam_as_end && choice.use_any_cam_as_end == Some(false) && choice.cam_any_end == Some(x) ==> end_cam(
            list,
            choice,
            id,
            fuel,
        ) == Some(c.cam_start),
        !choice.use_prev_cam && choice.use_any_cam_as_start == Some(true) && choice.cam_any_start == Some(x) ==> start_cam(
            list,
            choice,
            id,
            fuel,
        ) == Some(c.cam_end),
        !choice.use_prev_cam && choice.use_any_cam_as_start == Some(false) && choice.cam_any_start == Some(x) ==> start_cam(
            list,
            choice,
            id,
            fuel,
        ) == Some(c.cam_start),
        choice.use_prev_cam && previous_of(list, id) == Some(x) ==> start_cam(list, choice, id, fuel) == Some(c.cam_end),
        choice.use_start_cam_as_end && !choice.use_prev_cam && choice.use_any_cam_as_start is None ==> end_cam(
            list,
            choice,
            id,
            fuel,
        ) == Some(choice.cam_start),
{
    lemma_plain_cameras(list, c, x, (fuel - 1) as nat);
    if is_plain(choice) {
        lemma_plain_cameras(list, choice, id, fuel);
    }
    if !choice.use_start_cam_as_end && choice.use_any_cam_as_end is Some && choice.cam_any_end == Some(x) {
        lemma_end_one_step(list, choice, id, x, c, fuel);
    }
    if !choice.use_prev_cam && choice.use_any_cam_as_start is Some && choice.cam_any_start == Some(x) {
        lemma_start_one_step(list, choice, id, x, c, fuel);
    }
    if choice.use_prev_cam && previous_of(list, id) == Some(x) {
        lemma_start_from_previous(list, choice, id, x, c, fuel);
    }
    if choice.use_start_cam_as_end && !choice.use_prev_cam && choice.use_any_cam_as_start is None {
        assert(start_cam(list, choice, id, (fuel - 1) as nat) == Some(choice.cam_start));
    }
}

/// A choice that names its cameras itself starts and ends with them.
proof fn lemma_plain_cameras(list: Seq<(RealAnimationId, CameraChoice)>, c: CameraChoice, x: RealAnimationId, fuel: nat)
    requires
        fuel >= 1,
        is_plain(c),
    ensures
        start_cam(list, c, x, fuel) == Some(c.cam_start),
        end_cam(list, c, x, fuel) == Some(c.cam_end),
{
}

proof fn lemma_end_one_step(
    list: Seq<(RealAnimationId, CameraChoice)>,
    choice: CameraChoice,
    id: RealAnimationId,
    x: RealAnimationId,
    c: CameraChoice,
    fuel: nat,
)
    requires
        fuel >= 1,
        find_choice(list, x) == Some(c),
        !choice.use_start_cam_as_end,
        choice.use_any_cam_as_end is Some,
        choice.cam_any_end == Some(x),
    ensures
        choice.use_any_cam_as_end == Some(true) ==> end_cam(list, choice, id, fuel) == end_cam(list, c, x, (fuel - 1) as nat),
        choice.use_any_cam_as_end == Some(false) ==> end_cam(list, choice, id, fuel) == start_cam(list, c, x, (fuel - 1) as nat),
{
}

proof fn lemma_start_one_step(
    list: Seq<(RealAnimationId, CameraChoice)>,
    choice: CameraChoice,
    id: RealAnimationId,
    x: RealAnimationId,
    c: CameraChoice,
    fuel: nat,
)
    requires
        fuel >= 1,
        find_choice(list, x) == Some(c),
        !choice.use_prev_cam,
        choice.use_any_cam_as_start is Some,
        choice.cam_any_start == Some(x),
    ensures
        choice.use_any_cam_as_start == Some(true) ==> start_cam(list, choice, id, fuel) == end_cam(list, c, x, (fuel - 1) as nat),
        choice.use_any_cam_as_start == Some(false) ==> start_cam(list, choice, id, fuel) == start_cam(list, c, x, (fuel - 1) as nat),
{
}

proof fn lemma_start_from_previous(
    list: Seq<(RealAnimationId, CameraChoice)>,
    choice: CameraChoice,
    id: RealAnimationId,
    x: RealAnimationId,
    c: CameraChoice,
    fuel: nat,
)
    requires
        fuel >= 1,
        find_choice(list, x) == Some(c),
        choice.use_prev_cam,
        previous_of(list, id) == Some(x),
    ensures
        start_cam(list, choice, id, fuel) == end_cam(list, c, x, (fuel - 1) as nat),
{
}

/// An end camera taken from another animation is that animation's end camera, or its start
/// camera, however far the references are followed.
pub proof fn lemma_end_cam_from_other(
    list: Seq<(RealAnimationId, CameraChoice)>,
    choice: CameraChoice,
    id: RealAnimationId,
    x: RealAnimationId,
    c: CameraChoice,
    fuel: nat,
)
    requires
        find_choice(list, x) == Some(c),
        !choice.use_start_cam_as_end,
        choice.use_any_cam_as_end is Some,
        choice.cam_any_end == Some(x),
    ensures
        choice.use_any_cam_as_end == Some(true) ==> end_cam(list, choice, id, fuel + 1) == end_cam(list, c, x, fuel),
        choice.use_any_cam_as_end == Some(false) ==> end_cam(list, choice, id, fuel + 1) == start_cam(list, c, x, fuel),
{
    lemma_end_one_step(list, choice, id, x, c, fuel + 1);
}

/// The camera choice of animation `id`, if it is listed.
fn choice_of(list: &Vec<(RealAnimationId, CameraChoice)>, id: RealAnimationId) -> (result: Option<CameraChoice>)
    ensures
        result == find_choice(list@, id),
{
    let mut i: usize = 0;
    while i < list.len()
        invariant
            i <= list@.len(),
            forall|j: int| 0 <= j < i ==> (#[trigger] list@[j]).0 != id,
        decreases list@.len() - i,
    {
        if list[i].0 == id {
            assert(list@[i as int].0 == id);
            return Some(list[i].1);
        }
        i = i + 1;
    }
    None
}

/// The animation listed right before `id`, if any.
fn previous_in(list: &Vec<(RealAnimationId, CameraChoice)>, id: RealAnimationId) -> (result: Option<RealAnimationId>)
    ensures
        result == previous_of(list@, id),
{
    let mut i: usize = 1;
    while i < list.len()
        invariant
            1 <= i,
            i <= list@.len() || list@.len() == 0,
            forall|j: int| 1 <= j < i && j < list@.len() ==> (#[trigger] list@[j]).0 != id,
        decreases list@.len() - i,
    {
        if list[i].0 == id {
            assert(list@[i as int].0 == id);
            return Some(list[i - 1].0);
        }
        i = i + 1;
    }
    None
}

fn start_cam_within(list: &Vec<(RealAnimationId, CameraChoice)>, choice: &CameraChoice, id: RealAnimationId, Ghost(fuel): Ghost<nat>) -> (result: Option<CameraId>)
    requires
        start_cam(list@, *choice, id, fuel) is Some,
    ensures
        Some(result) == start_cam(list@, *choice, id, fuel),
    decreases fuel,
{
    if choice.use_prev_cam {
        match previous_in(list, id) {
            Some(a) => {
                let c = choice_of(list, a).unwrap();
                end_cam_within(list, &c, a, Ghost((fuel - 1) as nat))
            },
            None => None,
        }
    } else if let Some(use_end) = choice.use_any_cam_as_start {
        match choice.cam_any_start {
            None => None,
            Some(x) => {
                let c = choice_of(list, x).unwrap();
                if use_end {
                    end_cam_within(list, &c, x, Ghost((fuel - 1) as nat))
                } else {
                    start_cam_within(list, &c, x, Ghost((fuel - 1) as nat))
                }
            },
        }
    } else {
        choice.cam_start
    }
}

fn end_cam_within(list: &Vec<(RealAnimationId, CameraChoice)>, choice: &CameraChoice, id: RealAnimationId, Ghost(fuel): Ghost<nat>) -> (result: Option<CameraId>)
    requires
        end_cam(list@, *choice, id, fuel) is Some,
    ensures
        Some(result) == end_cam(list@, *choice, id, fuel),
    decreases fuel,
{
    if choice.use_start_cam_as_end {
        start_cam_within(list, choice, id, Ghost((fuel - 1) as nat))
    } else if let Some(use_end) = choice.use_any_cam_as_end {
        match choice.cam_any_end {
            None => None,
            Some(x) => {
                let c = choice_of(list, x).unwrap();
                if use_end {
                    end_cam_within(list, &c, x, Ghost((fuel - 1) as nat))
                } else {
                    start_cam_within(list, &c, x, Ghost((fuel - 1) as nat))
                }
            },
        }
    } else {
        choice.cam_end
    }
}

/// The camera the animation `id`, with choice `anim`, starts with. `animations` lists the
/// animations in order with their choices. The references between animations must come to
/// an end and name listed animations.
pub fn get_start_cam(animations: &Vec<(RealAnimationId, CameraChoice)>, anim: &CameraChoice, id: RealAnimationId) -> (result: Option<CameraId>)
    requires
        exists|f: nat| #[trigger] start_cam(animations@, *anim, id, f) is Some,
    ensures
        forall|f: nat| #[trigger] start_cam(animations@, *anim, id, f) is Some ==> Some(result) == start_cam(animations@, *anim, id, f),
{
    let ghost fuel = choose|f: nat| #[trigger] start_cam(animations@, *anim, id, f) is Some;
    let result = start_cam_within(animations, anim, id, Ghost(fuel));
    proof {
        assert forall|f: nat| #[trigger] start_cam(animations@, *anim, id, f) is Some implies Some(result) == start_cam(animations@, *anim, id, f) by {
            lemma_start_cam_agree(animations@, *anim, id, fuel, f);
        }
    }
    result
}

/// The camera the animation `id`, with choice `anim`, ends with. `animations` lists the
/// animations in order with their choices. The references between animations must come to
/// an end and name listed animations.
pub fn get_end_cam(animations: &Vec<(RealAnimationId, CameraChoice)>, anim: &CameraChoice, id: RealAnimationId) -> (result: Option<CameraId>)
    requires
        exists|f: nat| #[trigger] end_cam(animations@, *anim, id, f) is Some,
    ensures
        forall|f: nat| #[trigger] end_cam(animations@, *anim, id, f) is Some ==> Some(result) == end_cam(animations@, *anim, id, f),
{
    let ghost fuel = choose|f: nat| #[trigger] end_cam(animations@, *anim, id, f) is Some;
    let result = end_cam_within(animations, anim, id, Ghost(fuel));
    proof {
        assert forall|f: nat| #[trigger] end_cam(animations@, *anim, id, f) is Some implies Some(result) == end_cam(animations@, *anim, id, f) by {
            lemma_end_cam_agree(animations@, *anim, id, fuel, f);
        }
    }
    result
}

/// The camera the animation `id`, with choice `anim`, starts with, following at most `depth`
/// references between animations; `None` when that is not enough or a referenced animation
/// is not listed. Unlike [`get_start_cam`], this can be called on any references.
pub fn get_start_cam_checked(animations: &Vec<(RealAnimationId, CameraChoice)>, anim: &CameraChoice, id: RealAnimationId, depth: u64) -> (result: Option<Option<CameraId>>)
    ensures
        result == start_cam(animations@, *anim, id, depth as nat),
    decreases depth,
{
    if depth == 0 {
        return None;
    }
    if anim.use_prev_cam {
        match previous_in(animations, id) {
            Some(a) => match choice_of(animations, a) {
                Some(c) => get_end_cam_checked(animations, &c, a, depth - 1),
                None => None,
            },
            None => Some(None),
        }
    } else if let Some(use_end) = anim.use_any_cam_as_start {
        match anim.cam_any_start {
            None => Some(None),
            Some(x) => match choice_of(animations, x) {
                None => None,
                Some(c) => if use_end {
                    get_end_cam_checked(animations, &c, x, depth - 1)
                } else {
                    get_start_cam_checked(animations, &c, x, depth - 1)
                },
            },
        }
    } else {
        Some(anim.cam_start)
    }
}

/// The camera the animation `id`, with choice `anim`, ends with, following at most `depth`
/// references between animations; `None` when that is not enough or a referenced animation
/// is not listed. Unlike [`get_end_cam`], this can be called on any references.
pub fn get_end_cam_checked(animations: &Vec<(RealAnimationId, CameraChoice)>, anim: &CameraChoice, id: RealAnimationId, depth: u64) -> (result: Option<Option<CameraId>>)
    ensures
        result == end_cam(animations@, *anim, id, depth as nat),
    decreases depth,
{
    if depth == 0 {
        return None;
    }
    if anim.use_start_cam_as_end {
        get_start_cam_checked(animations, anim, id, depth - 1)
    } else if let Some(use_end) = anim.use_any_cam_as_end {
        match anim.cam_any_end {
            None => Some(None),
            Some(x) => match choice_of(animations, x) {
                None => None,
                Some(c) => if use_end {
                    get_end_cam_checked(animations, &c, x, depth - 1)
                } else {
                    get_start_cam_checked(animations, &c, x, depth - 1)
                },
            },
        }
    } else {
        Some(anim.cam_end)
    }
}

} // verus!
