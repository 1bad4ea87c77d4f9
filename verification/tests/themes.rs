use vell::protocol::{Revision, ViewId};
use vell::theme::{
    Color, FaceEnvironment, FacePatch, FaceValue, NamedFace, ResolvedTheme, SessionFaces,
    ThemeError,
};

fn rgb(red: u8, green: u8, blue: u8) -> FaceValue<Color> {
    FaceValue::Value(Color::Rgb { red, green, blue })
}

fn face(name: &str, patch: FacePatch) -> NamedFace {
    NamedFace {
        name: name.to_owned(),
        patch,
    }
}

fn themes() -> Vec<ResolvedTheme> {
    let mut comment = FacePatch::inherit();
    comment.italic = FaceValue::Value(true);
    let mut colored_comment = FacePatch::inherit();
    colored_comment.foreground = rgb(0x93, 0x99, 0xb2);
    let mut active = FacePatch::inherit();
    active.background = rgb(0x18, 0x18, 0x25);
    let mut inactive = FacePatch::inherit();
    inactive.background = rgb(0x31, 0x32, 0x44);
    vec![
        ResolvedTheme {
            name: "terminal-default".to_owned(),
            faces: vec![face("syntax.comment", comment)],
        },
        ResolvedTheme {
            name: "catppuccin-mocha".to_owned(),
            faces: vec![
                face("syntax.comment", colored_comment),
                face("ui.status-bar", active),
                face("ui.status-bar.inactive", inactive),
            ],
        },
    ]
}

#[test]
fn active_theme_overlays_terminal_fallback_by_attribute() {
    let environment = FaceEnvironment::new(themes(), Some("catppuccin-mocha")).unwrap();
    let face = environment.resolve("syntax.comment", &FacePatch::inherit());
    assert_eq!(face.italic, FaceValue::Value(true));
    assert_eq!(
        face.foreground,
        FaceValue::Value(Color::Rgb {
            red: 0x93,
            green: 0x99,
            blue: 0xb2,
        })
    );
}

#[test]
fn status_bar_uses_inactive_face_for_non_focused_target() {
    let environment = FaceEnvironment::new(themes(), Some("catppuccin-mocha")).unwrap();
    let mut faces = SessionFaces::new(Vec::new(), environment);
    faces.set_active_view(Some(ViewId(1)));

    let active = faces.resolve_status_bar_root(ViewId(1));
    let inactive = faces.resolve_status_bar_root(ViewId(2));

    assert_eq!(
        active.background,
        Some(Color::Rgb {
            red: 0x18,
            green: 0x18,
            blue: 0x25,
        })
    );
    assert_eq!(
        inactive.background,
        Some(Color::Rgb {
            red: 0x31,
            green: 0x32,
            blue: 0x44,
        })
    );
}

#[test]
fn fallback_is_used_where_no_theme_is_asked_for() {
    let environment = FaceEnvironment::new(themes(), None).unwrap();
    assert_eq!(environment.active_theme(), "terminal-default");
    assert_eq!(environment.revision(), Revision(0));
    let mut legacy = FacePatch::inherit();
    legacy.bold = FaceValue::Value(true);
    let painted = environment.resolve_root("syntax.comment", &legacy);
    assert!(painted.bold);
    assert!(painted.italic);
    assert!(!painted.underline);
    assert_eq!(painted.foreground, None);
}

#[test]
fn unknown_themes_are_refused() {
    assert_eq!(
        FaceEnvironment::new(themes(), Some("none")).err(),
        Some(ThemeError::Unknown("none".to_owned()))
    );
    assert_eq!(
        FaceEnvironment::new(Vec::new(), Some("none")).err(),
        Some(ThemeError::Unknown("terminal-default".to_owned()))
    );
}

#[test]
fn registered_faces_are_below_the_themes() {
    let mut registered = FacePatch::inherit();
    registered.italic = FaceValue::Value(false);
    registered.underline = FaceValue::Value(true);
    let environment = FaceEnvironment::new(themes(), None).unwrap();
    let faces = SessionFaces::new(vec![face("syntax.comment", registered)], environment);
    let patch = faces.resolve("syntax.comment");
    assert_eq!(patch.italic, FaceValue::Value(true));
    assert_eq!(patch.underline, FaceValue::Value(true));
    assert_eq!(faces.resolve("unknown"), FacePatch::inherit());
}
