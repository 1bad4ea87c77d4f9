//! Faces: what a theme says of them, attribute by attribute.

use crate::protocol::{Revision, ViewId};
use crate::text::same_text;
use vstd::prelude::*;
use vstd::string::StringExecFns;

verus! {

/// The theme that is below every other one.
pub const FALLBACK_THEME: &'static str = "terminal-default";

/// The face of the status bar of the view that has the focus.
pub const STATUS_BAR_FACE: &'static str = "ui.status-bar";

/// The face of the status bars of other views.
pub const INACTIVE_STATUS_BAR_FACE: &'static str = "ui.status-bar.inactive";

#[derive(Clone, Copy, Debug, PartialEq, Eq, Structural)]
pub enum Color {
    Rgb { red: u8, green: u8, blue: u8 },
    Indexed(u8),
}

/// What a face says of an attribute.
#[derive(Clone, Copy, Debug, PartialEq, Eq, Structural)]
pub enum FaceValue<T> {
    /// Nothing: what is below it shows.
    Inherit,
    Value(T),
}

/// What a face says of each attribute.
#[derive(Clone, Copy, Debug, PartialEq, Eq, Structural)]
pub struct FacePatch {
    pub foreground: FaceValue<Color>,
    pub background: FaceValue<Color>,
    pub bold: FaceValue<bool>,
    pub italic: FaceValue<bool>,
    pub underline: FaceValue<bool>,
}

/// How something is painted.
#[derive(Clone, Copy, Debug, PartialEq, Eq, Structural)]
pub struct PaintFace {
    pub foreground: Option<Color>,
    pub background: Option<Color>,
    pub bold: bool,
    pub italic: bool,
    pub underline: bool,
}

/// An attribute with another face above it.
pub open spec fn over<T>(below: FaceValue<T>, above: FaceValue<T>) -> FaceValue<T> {
    match above {
        FaceValue::Value(_) => above,
        FaceValue::Inherit => below,
    }
}

/// A face with another one above it.
pub open spec fn overlaid(below: FacePatch, above: FacePatch) -> FacePatch {
    FacePatch {
        foreground: over(below.foreground, above.foreground),
        background: over(below.background, above.background),
        bold: over(below.bold, above.bold),
        italic: over(below.italic, above.italic),
        underline: over(below.underline, above.underline),
    }
}

/// A color, where the face has one.
pub open spec fn color_of(value: FaceValue<Color>) -> Option<Color> {
    match value {
        FaceValue::Value(color) => Some(color),
        FaceValue::Inherit => None,
    }
}

/// Whether a face has a property.
pub open spec fn flag_of(value: FaceValue<bool>) -> bool {
    value == FaceValue::Value(true)
}

/// How something with a face is painted, with nothing below it.
pub open spec fn painted(patch: FacePatch) -> PaintFace {
    PaintFace {
        foreground: color_of(patch.foreground),
        background: color_of(patch.background),
        bold: flag_of(patch.bold),
        italic: flag_of(patch.italic),
        underline: flag_of(patch.underline),
    }
}

/// Puts a color above another one.
fn color_over(below: FaceValue<Color>, above: FaceValue<Color>) -> (value: FaceValue<Color>)
    ensures
        value == over(below, above),
{
    match above {
        FaceValue::Value(_) => above,
        FaceValue::Inherit => below,
    }
}

/// Puts a property above another one.
fn flag_over(below: FaceValue<bool>, above: FaceValue<bool>) -> (value: FaceValue<bool>)
    ensures
        value == over(below, above),
{
    match above {
        FaceValue::Value(_) => above,
        FaceValue::Inherit => below,
    }
}

impl FacePatch {
    /// A face that says nothing.
    pub fn inherit() -> (patch: Self)
        ensures
            patch == (FacePatch {
                foreground: FaceValue::Inherit,
                background: FaceValue::Inherit,
                bold: FaceValue::Inherit,
                italic: FaceValue::Inherit,
                underline: FaceValue::Inherit,
            }),
    {
        FacePatch {
            foreground: FaceValue::Inherit,
            background: FaceValue::Inherit,
            bold: FaceValue::Inherit,
            italic: FaceValue::Inherit,
            underline: FaceValue::Inherit,
        }
    }

    /// Puts another face above this one.
    pub fn overlay(&mut self, patch: &FacePatch)
        ensures
            *final(self) == overlaid(*old(self), *patch),
    {
        *self = FacePatch {
            foreground: color_over(self.foreground, patch.foreground),
            background: color_over(self.background, patch.background),
            bold: flag_over(self.bold, patch.bold),
            italic: flag_over(self.italic, patch.italic),
            underline: flag_over(self.underline, patch.underline),
        };
    }

    /// How something with the face is painted, with nothing below it.
    pub fn resolve(&self) -> (face: PaintFace)
        ensures
            face == painted(*self),
    {
        PaintFace {
            foreground: match self.foreground {
                FaceValue::Value(color) => Some(color),
                FaceValue::Inherit => None,
            },
            background: match self.background {
                FaceValue::Value(color) => Some(color),
                FaceValue::Inherit => None,
            },
            bold: match self.bold {
                FaceValue::Value(flag) => flag,
                FaceValue::Inherit => false,
            },
            italic: match self.italic {
                FaceValue::Value(flag) => flag,
                FaceValue::Inherit => false,
            },
            underline: match self.underline {
                FaceValue::Value(flag) => flag,
                FaceValue::Inherit => false,
            },
        }
    }
}

/// A face with its name.
#[derive(Debug, PartialEq, Eq)]
pub struct NamedFace {
    pub name: String,
    pub patch: FacePatch,
}

/// The first face, from index `i` on, with a name.
pub open spec fn face_from(faces: Seq<NamedFace>, name: Seq<char>, i: int) -> Option<FacePatch>
    decreases faces.len() - i,
{
    if i >= faces.len() {
        None
    } else if faces[i].name@ == name {
        Some(faces[i].patch)
    } else {
        face_from(faces, name, i + 1)
    }
}

/// The face with a name.
fn find_face(faces: &Vec<NamedFace>, name: &str) -> (patch: Option<FacePatch>)
    ensures
        patch == face_from(faces@, name@, 0),
{
    let mut i: usize = 0;
    while i < faces.len()
        invariant
            i <= faces.len(),
            face_from(faces@, name@, 0) == face_from(faces@, name@, i as int),
        decreases faces.len() - i,
    {
        if same_text(faces[i].name.as_str(), name) {
            return Some(faces[i].patch);
        }
        i = i + 1;
    }
    None
}

/// A theme: its name and what it says of faces.
#[derive(Debug, PartialEq, Eq)]
pub struct ResolvedTheme {
    pub name: String,
    pub faces: Vec<NamedFace>,
}

impl ResolvedTheme {
    /// What the theme says of a face.
    pub open spec fn said_of(self, name: Seq<char>) -> Option<FacePatch> {
        face_from(self.faces@, name, 0)
    }

    /// What the theme says of a face.
    pub fn face(&self, name: &str) -> (patch: Option<FacePatch>)
        ensures
            patch == self.said_of(name@),
    {
        find_face(&self.faces, name)
    }
}

/// A face with what a theme says of it above it.
pub open spec fn themed(patch: FacePatch, said: Option<FacePatch>) -> FacePatch {
    match said {
        Some(above) => overlaid(patch, above),
        None => patch,
    }
}

/// The first theme, from index `i` on, with a name.
pub open spec fn theme_from(themes: Seq<ResolvedTheme>, name: Seq<char>, i: int) -> Option<int>
    decreases themes.len() - i,
{
    if i >= themes.len() {
        None
    } else if themes[i].name@ == name {
        Some(i)
    } else {
        theme_from(themes, name, i + 1)
    }
}

/// Where the theme with a name stands.
fn find_theme(themes: &Vec<ResolvedTheme>, name: &str) -> (index: Option<usize>)
    ensures
        match index {
            Some(i) => theme_from(themes@, name@, 0) == Some(i as int) && i < themes@.len(),
            None => theme_from(themes@, name@, 0) is None,
        },
{
    let mut i: usize = 0;
    while i < themes.len()
        invariant
            i <= themes.len(),
            theme_from(themes@, name@, 0) == theme_from(themes@, name@, i as int),
        decreases themes.len() - i,
    {
        if same_text(themes[i].name.as_str(), name) {
            return Some(i);
        }
        i = i + 1;
    }
    None
}

/// Why a theme cannot be used.
#[derive(Debug, PartialEq, Eq)]
pub enum ThemeError {
    /// No theme has the name.
    Unknown(String),
}

/// The name of the theme to use: the fallback where none is asked for.
pub open spec fn wanted_theme(theme: Option<&str>) -> Seq<char> {
    match theme {
        Some(name) => name@,
        None => FALLBACK_THEME@,
    }
}

/// The theme in use, above the one that is below every other.
pub struct FaceEnvironment {
    themes: Vec<ResolvedTheme>,
    fallback: usize,
    active: usize,
    revision: Revision,
}

/// What themes say of faces: the one below, and the one in use.
pub struct EnvironmentModel {
    pub fallback: ResolvedTheme,
    pub active: ResolvedTheme,
    pub revision: u64,
}

/// A face as the themes have it: what is known without them, below what the fallback says, below
/// what the theme in use says, attribute by attribute.
pub open spec fn face_in(
    environment: EnvironmentModel,
    name: Seq<char>,
    legacy: FacePatch,
) -> FacePatch {
    let below = themed(legacy, environment.fallback.said_of(name));
    if environment.active.name@ == environment.fallback.name@ {
        below
    } else {
        themed(below, environment.active.said_of(name))
    }
}

impl FaceEnvironment {
    /// What themes say of faces.
    pub closed spec fn model(self) -> EnvironmentModel {
        EnvironmentModel {
            fallback: self.themes@[self.fallback as int],
            active: self.themes@[self.active as int],
            revision: self.revision.0,
        }
    }

    #[verifier::type_invariant]
    spec fn well_chosen(self) -> bool {
        self.fallback < self.themes@.len() && self.active < self.themes@.len()
    }

    /// The theme with a name above the fallback, or the fallback alone.
    pub fn new(themes: Vec<ResolvedTheme>, theme: Option<&str>) -> (result: Result<Self, ThemeError>)
        ensures
            match (
                theme_from(themes@, FALLBACK_THEME@, 0),
                theme_from(themes@, wanted_theme(theme), 0),
            ) {
                (Some(fallback), Some(active)) => result matches Ok(environment)
                    && environment.model() == (EnvironmentModel {
                    fallback: themes@[fallback],
                    active: themes@[active],
                    revision: 0,
                }),
                (None, _) => result matches Err(ThemeError::Unknown(name)) && name@
                    == FALLBACK_THEME@,
                (Some(_), None) => result matches Err(ThemeError::Unknown(name)) && name@
                    == wanted_theme(theme),
            },
    {
        let fallback = match find_theme(&themes, FALLBACK_THEME) {
            Some(index) => index,
            None => {
                return Err(ThemeError::Unknown(String::from_str(FALLBACK_THEME)));
            },
        };
        let active = match theme {
            Some(name) => match find_theme(&themes, name) {
                Some(index) => index,
                None => {
                    return Err(ThemeError::Unknown(String::from_str(name)));
                },
            },
            None => fallback,
        };
        Ok(FaceEnvironment { themes, fallback, active, revision: Revision(0) })
    }

    /// The theme in use.
    fn active(&self) -> (theme: &ResolvedTheme)
        ensures
            *theme == self.model().active,
    {
        proof {
            use_type_invariant(self);
        }
        &self.themes[self.active]
    }

    /// The theme below every other one.
    fn fallback(&self) -> (theme: &ResolvedTheme)
        ensures
            *theme == self.model().fallback,
    {
        proof {
            use_type_invariant(self);
        }
        &self.themes[self.fallback]
    }

    /// The name of the theme in use.
    pub fn active_theme(&self) -> (name: &str)
        ensures
            name@ == self.model().active.name@,
    {
        self.active().name.as_str()
    }

    pub fn revision(&self) -> (revision: Revision)
        ensures
            revision.0 == self.model().revision,
    {
        self.revision
    }

    /// A face as the themes have it; `legacy` is what is known of it without them.
    pub fn resolve(&self, name: &str, legacy: &FacePatch) -> (patch: FacePatch)
        ensures
            patch == face_in(self.model(), name@, *legacy),
    {
        let mut resolved = *legacy;
        let fallback = self.fallback();
        if let Some(patch) = fallback.face(name) {
            resolved.overlay(&patch);
        }
        let active = self.active();
        if !same_text(active.name.as_str(), fallback.name.as_str()) {
            if let Some(patch) = active.face(name) {
                resolved.overlay(&patch);
            }
        }
        resolved
    }

    /// How something with a face is painted, with nothing below it.
    pub fn resolve_root(&self, name: &str, legacy: &FacePatch) -> (face: PaintFace)
        ensures
            face == painted(face_in(self.model(), name@, *legacy)),
    {
        self.resolve(name, legacy).resolve()
    }
}

/// The faces of a session: those that are known without themes, the themes, and the view that has
/// the focus.
pub struct SessionFaces {
    registry: Vec<NamedFace>,
    environment: FaceEnvironment,
    active_view: Option<ViewId>,
}

/// What a face is without themes: nothing where it is not known.
pub open spec fn registered_face(registry: Seq<NamedFace>, name: Seq<char>) -> FacePatch {
    match face_from(registry, name, 0) {
        Some(patch) => patch,
        None => FacePatch {
            foreground: FaceValue::Inherit,
            background: FaceValue::Inherit,
            bold: FaceValue::Inherit,
            italic: FaceValue::Inherit,
            underline: FaceValue::Inherit,
        },
    }
}

/// The face of the status bar of a view.
pub open spec fn status_bar_face(active: Option<ViewId>, target: ViewId) -> Seq<char> {
    if active == Some(target) {
        STATUS_BAR_FACE@
    } else {
        INACTIVE_STATUS_BAR_FACE@
    }
}

impl SessionFaces {
    /// The faces that are known without themes.
    pub closed spec fn registry(self) -> Seq<NamedFace> {
        self.registry@
    }

    /// The themes.
    pub closed spec fn environment(self) -> EnvironmentModel {
        self.environment.model()
    }

    /// The view that has the focus.
    pub closed spec fn active_view(self) -> Option<ViewId> {
        self.active_view
    }

    /// A face of the session.
    pub open spec fn face(self, name: Seq<char>) -> FacePatch {
        face_in(self.environment(), name, registered_face(self.registry(), name))
    }

    pub fn new(registry: Vec<NamedFace>, environment: FaceEnvironment) -> (faces: Self)
        ensures
            faces.registry() == registry@,
            faces.environment() == environment.model(),
            faces.active_view() is None,
    {
        SessionFaces { registry, environment, active_view: None }
    }

    /// A face of the session.
    pub fn resolve(&self, name: &str) -> (patch: FacePatch)
        ensures
            patch == self.face(name@),
    {
        let legacy = match find_face(&self.registry, name) {
            Some(patch) => patch,
            None => FacePatch::inherit(),
        };
        self.environment.resolve(name, &legacy)
    }

    /// How something with a face is painted, with nothing below it.
    pub fn resolve_root(&self, name: &str) -> (face: PaintFace)
        ensures
            face == painted(self.face(name@)),
    {
        self.resolve(name).resolve()
    }

    /// Another view, or none, has the focus.
    pub fn set_active_view(&mut self, view: Option<ViewId>)
        ensures
            final(self).active_view() == view,
            final(self).registry() == old(self).registry(),
            final(self).environment() == old(self).environment(),
    {
        self.active_view = view;
    }

    /// How the status bar of a view is painted.
    pub fn resolve_status_bar_root(&self, target: ViewId) -> (face: PaintFace)
        ensures
            face == painted(self.face(status_bar_face(self.active_view(), target))),
    {
        if self.active_view == Some(target) {
            self.resolve_root(STATUS_BAR_FACE)
        } else {
            self.resolve_root(INACTIVE_STATUS_BAR_FACE)
        }
    }
}

/// What the theme in use says of an attribute is what shows, whatever is below it.
pub proof fn law_active_theme_wins(
    environment: EnvironmentModel,
    name: Seq<char>,
    legacy: FacePatch,
    said: FacePatch,
)
    requires
        environment.active.name@ != environment.fallback.name@,
        environment.active.said_of(name) == Some(said),
    ensures
        said.foreground is Value ==> face_in(environment, name, legacy).foreground
            == said.foreground,
        said.background is Value ==> face_in(environment, name, legacy).background
            == said.background,
        said.bold is Value ==> face_in(environment, name, legacy).bold == said.bold,
        said.italic is Value ==> face_in(environment, name, legacy).italic == said.italic,
        said.underline is Value ==> face_in(environment, name, legacy).underline == said.underline,
{
}

/// An attribute that the theme in use says nothing of is as the fallback has it.
pub proof fn law_fallback_shows_through(
    environment: EnvironmentModel,
    name: Seq<char>,
    legacy: FacePatch,
)
    ensures
        ({
            let below = themed(legacy, environment.fallback.said_of(name));
            let shown = face_in(environment, name, legacy);
            match environment.active.said_of(name) {
                None => shown == below,
                Some(said) => {
                    &&& said.foreground is Inherit ==> shown.foreground == below.foreground
                    &&& said.background is Inherit ==> shown.background == below.background
                    &&& said.bold is Inherit ==> shown.bold == below.bold
                    &&& said.italic is Inherit ==> shown.italic == below.italic
                    &&& said.underline is Inherit ==> shown.underline == below.underline
                },
            }
        }),
{
}

/// Putting a face above another one twice is putting it there once.
pub proof fn law_overlay_is_idempotent(below: FacePatch, above: FacePatch)
    ensures
        overlaid(overlaid(below, above), above) == overlaid(below, above),
{
}

/// An attribute of a face with another one above it is what that says of it, or stays where that
/// says nothing of it.
pub proof fn law_overlay_goes_by_attribute(below: FacePatch, above: FacePatch)
    ensures
        above.foreground is Value ==> overlaid(below, above).foreground == above.foreground,
        above.foreground is Inherit ==> overlaid(below, above).foreground == below.foreground,
        above.background is Value ==> overlaid(below, above).background == above.background,
        above.background is Inherit ==> overlaid(below, above).background == below.background,
        above.bold is Value ==> overlaid(below, above).bold == above.bold,
        above.bold is Inherit ==> overlaid(below, above).bold == below.bold,
        above.italic is Value ==> overlaid(below, above).italic == above.italic,
        above.italic is Inherit ==> overlaid(below, above).italic == below.italic,
        above.underline is Value ==> overlaid(below, above).underline == above.underline,
        above.underline is Inherit ==> overlaid(below, above).underline == below.underline,
{
}

/// What is known of a face without themes shows through wherever the themes say nothing: the whole
/// face where neither theme has it, and each attribute that neither gives a value.
pub proof fn law_registered_face_shows_through(
    environment: EnvironmentModel,
    name: Seq<char>,
    legacy: FacePatch,
)
    ensures
        ({
            let said_below = environment.fallback.said_of(name);
            let said_above = environment.active.said_of(name);
            let shown = face_in(environment, name, legacy);
            &&& said_below is None && said_above is None ==> shown == legacy
            &&& !(said_below matches Some(said) && said.foreground is Value) && !(said_above
                matches Some(
                said,
            ) && said.foreground is Value) ==> shown.foreground == legacy.foreground
            &&& !(said_below matches Some(said) && said.background is Value) && !(said_above
                matches Some(
                said,
            ) && said.background is Value) ==> shown.background == legacy.background
            &&& !(said_below matches Some(said) && said.bold is Value) && !(said_above
                matches Some(
                said,
            ) && said.bold is Value) ==> shown.bold == legacy.bold
            &&& !(said_below matches Some(said) && said.italic is Value) && !(said_above
                matches Some(
                said,
            ) && said.italic is Value) ==> shown.italic == legacy.italic
            &&& !(said_below matches Some(said) && said.underline is Value) && !(said_above
                matches Some(
                said,
            ) && said.underline is Value) ==> shown.underline == legacy.underline
        }),
{
}

/// What the fallback gives a value shows, unless the theme in use is another one and gives it a
/// value too.
pub proof fn law_fallback_is_above_registered_faces(
    environment: EnvironmentModel,
    name: Seq<char>,
    legacy: FacePatch,
    said: FacePatch,
)
    requires
        environment.fallback.said_of(name) == Some(said),
    ensures
        said.foreground is Value && !(environment.active.name@ != environment.fallback.name@ && (
        environment.active.said_of(name) matches Some(above) && above.foreground is Value))
            ==> face_in(
            environment,
            name,
            legacy,
        ).foreground == said.foreground,
        said.background is Value && !(environment.active.name@ != environment.fallback.name@ && (
        environment.active.said_of(name) matches Some(above) && above.background is Value))
            ==> face_in(
            environment,
            name,
            legacy,
        ).background == said.background,
        said.bold is Value && !(environment.active.name@ != environment.fallback.name@ && (
        environment.active.said_of(name) matches Some(above) && above.bold is Value))
            ==> face_in(
            environment,
            name,
            legacy,
        ).bold == said.bold,
        said.italic is Value && !(environment.active.name@ != environment.fallback.name@ && (
        environment.active.said_of(name) matches Some(above) && above.italic is Value))
            ==> face_in(
            environment,
            name,
            legacy,
        ).italic == said.italic,
        said.underline is Value && !(environment.active.name@ != environment.fallback.name@ && (
        environment.active.said_of(name) matches Some(above) && above.underline is Value))
            ==> face_in(
            environment,
            name,
            legacy,
        ).underline == said.underline,
{
}

/// Among faces, the first with a name is found, and none where none has it.
pub proof fn law_first_face_of_a_name_is_found(faces: Seq<NamedFace>, name: Seq<char>, i: int)
    requires
        0 <= i <= faces.len(),
    ensures
        match face_from(faces, name, i) {
            Some(patch) => exists|at: int|
                i <= at < faces.len() && (#[trigger] faces[at]).name@ == name && faces[at].patch
                    == patch && (forall|before: int|
                    i <= before < at ==> (#[trigger] faces[before]).name@ != name),
            None => forall|at: int| i <= at < faces.len() ==> (#[trigger] faces[at]).name@ != name,
        },
    decreases faces.len() - i,
{
    if i < faces.len() {
        law_first_face_of_a_name_is_found(faces, name, i + 1);
        if faces[i].name@ != name {
            if let Some(patch) = face_from(faces, name, i + 1) {
                let at = choose|at: int|
                    i + 1 <= at < faces.len() && (#[trigger] faces[at]).name@ == name
                        && faces[at].patch == patch && (forall|before: int|
                        i + 1 <= before < at ==> (#[trigger] faces[before]).name@ != name);
                assert forall|before: int| i <= before < at implies (
                #[trigger] faces[before]).name@ != name by {}
                assert(faces[at].patch == patch);
            }
        }
    }
}

/// What a theme says of a face is what it says of the first face with that name.
pub proof fn law_theme_speaks_by_name(theme: ResolvedTheme, name: Seq<char>)
    ensures
        theme.said_of(name) is None <==> forall|at: int|
            0 <= at < theme.faces@.len() ==> (#[trigger] theme.faces@[at]).name@ != name,
        theme.said_of(name) matches Some(patch) ==> exists|at: int|
            0 <= at < theme.faces@.len() && (#[trigger] theme.faces@[at]).name@ == name
                && theme.faces@[at].patch == patch,
{
    law_first_face_of_a_name_is_found(theme.faces@, name, 0);
}

/// Among themes, the first with a name is found, and none where none has it.
pub proof fn law_first_theme_of_a_name_is_found(
    themes: Seq<ResolvedTheme>,
    name: Seq<char>,
    i: int,
)
    requires
        0 <= i <= themes.len(),
    ensures
        match theme_from(themes, name, i) {
            Some(at) => {
                &&& i <= at < themes.len()
                &&& themes[at].name@ == name
                &&& forall|before: int|
                    i <= before < at ==> (#[trigger] themes[before]).name@ != name
            },
            None => forall|at: int|
                i <= at < themes.len() ==> (#[trigger] themes[at]).name@ != name,
        },
    decreases themes.len() - i,
{
    if i < themes.len() {
        law_first_theme_of_a_name_is_found(themes, name, i + 1);
    }
}

/// The theme that is asked for is used, and the one of the terminal where none is.
pub proof fn law_wanted_theme_is_the_one_asked_for(name: &str)
    ensures
        wanted_theme(Some(name)) == name@,
        wanted_theme(None) == "terminal-default"@,
        FALLBACK_THEME@ == "terminal-default"@,
{
}

/// What is painted is what the face says: a color that it gives a value and no other, and a
/// property that it says is there.
pub proof fn law_paint_is_what_the_face_says(patch: FacePatch)
    ensures
        painted(patch).foreground == (match patch.foreground {
            FaceValue::Value(color) => Some(color),
            FaceValue::Inherit => None,
        }),
        painted(patch).background == (match patch.background {
            FaceValue::Value(color) => Some(color),
            FaceValue::Inherit => None,
        }),
        painted(patch).bold <==> patch.bold == FaceValue::Value(true),
        painted(patch).italic <==> patch.italic == FaceValue::Value(true),
        painted(patch).underline <==> patch.underline == FaceValue::Value(true),
{
}

/// A face of a session that no theme has is the one that was registered under its name; one that
/// was not registered says nothing.
pub proof fn law_session_face_without_themes(faces: SessionFaces, name: Seq<char>)
    requires
        faces.environment().fallback.said_of(name) is None,
        faces.environment().active.said_of(name) is None,
    ensures
        face_from(faces.registry(), name, 0) matches Some(patch) ==> faces.face(name) == patch,
        (forall|at: int|
            0 <= at < faces.registry().len() ==> (#[trigger] faces.registry()[at]).name@ != name)
            ==> faces.face(name) == (FacePatch {
            foreground: FaceValue::Inherit,
            background: FaceValue::Inherit,
            bold: FaceValue::Inherit,
            italic: FaceValue::Inherit,
            underline: FaceValue::Inherit,
        }),
{
    law_first_face_of_a_name_is_found(faces.registry(), name, 0);
}

/// The status bar of the view that has the focus has a face of its own, and those of all other
/// views another.
pub proof fn law_status_bar_faces(active: Option<ViewId>, target: ViewId)
    ensures
        active == Some(target) ==> status_bar_face(active, target) == "ui.status-bar"@,
        active != Some(target) ==> status_bar_face(active, target) == "ui.status-bar.inactive"@,
        active is None ==> status_bar_face(active, target) == "ui.status-bar.inactive"@,
{
}

} // verus!
