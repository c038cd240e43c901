use dao44_config::layout::{annotated_key, base, colemak, dao44, guarded, key, nav, num, russian, shift_tap};
use dao44_config::model::{
    ensure_unique_guard_ids, Action, Category, GuardedAction, Layer, LayerId, LayoutError,
    LayoutSpec, Modifier, PreviewAction, KEY_COUNT,
};

fn layout(layers: Vec<Layer>) -> LayoutSpec {
    LayoutSpec {
        title: "t",
        revision: "r",
        layers,
        host_legends: vec![],
        open_questions: vec![],
    }
}

#[test]
fn names_of_layers_modifiers_and_categories() {
    assert_eq!(LayerId::Base.ident(), "BASE");
    assert_eq!(LayerId::Nav.slug(), "nav-wm");
    assert_eq!(LayerId::Num.slug(), "num-symbol");
    assert_eq!(Modifier::RightGui.zmk(), "RGUI");
    assert_eq!(Modifier::LeftShift.label(), "Shift");
    assert_eq!(Modifier::RightAlt.label(), "Option");
    assert_eq!(Category::Danger.slug(), "danger");
    assert_eq!(Category::Unassigned.slug(), "unassigned");
}

#[test]
fn guarded_action_ids_and_behaviors() {
    assert_eq!(GuardedAction::ClearCurrentBluetooth.id(), "clear_bt");
    assert_eq!(GuardedAction::Bootloader.zmk(), "&bootloader");
    assert_eq!(GuardedAction::SelectBluetooth(0).id(), "bt_1");
    assert_eq!(GuardedAction::SelectBluetooth(4).zmk(), "&bt BT_SEL 4");
    assert_eq!(GuardedAction::SelectBluetooth(99).id(), "bt_100");
    assert_eq!(GuardedAction::SelectBluetooth(254).id(), "bt_255");
}

#[test]
fn actions_in_keymap_syntax() {
    assert_eq!(Action::Unassigned.zmk(), "&none");
    assert_eq!(Action::Transparent.zmk(), "&trans");
    assert_eq!(key("Q", "q", Category::Alpha).zmk(), "&kp Q");
    assert_eq!(
        shift_tap("F", "f", Modifier::LeftShift, "").zmk(),
        "&shift_tap LSHFT F"
    );
    assert_eq!(Action::HyperEscape.zmk(), "&mt LC(LA(LGUI)) ESC");
    assert_eq!(Action::BackspaceNum.zmk(), "&lt NUM BSPC");
    assert_eq!(Action::NavEnter.zmk(), "&lt NAV RET");
    assert_eq!(
        Action::Workspace { number: 10, hold: None }.zmk(),
        "&kp LC(LA(LG(N0)))"
    );
    assert_eq!(
        Action::Workspace { number: 3, hold: Some(Modifier::RightGui) }.zmk(),
        "&mt RGUI LC(LA(LG(N3)))"
    );
    assert_eq!(Action::Function { number: 12, system_label: "x" }.zmk(), "&kp F12");
    assert_eq!(
        guarded("BT 2", "d", GuardedAction::SelectBluetooth(1), Category::Connection).zmk(),
        "&guard_bt_2_ctl"
    );
}

#[test]
fn previews_of_actions() {
    let p = shift_tap("J", "j", Modifier::RightShift, "Colemak: n").preview();
    assert_eq!(p.primary, "j");
    assert_eq!(p.hold.as_deref(), Some("Shift"));
    assert_eq!(p.hold_face.as_deref(), Some("hold: Shift"));
    assert_eq!(p.secondary.as_deref(), Some("Colemak: n"));
    assert_eq!(p.category, "modifier");
    assert_eq!(
        p.note.as_deref(),
        Some("Tap wins until the 180 ms threshold; other key presses do not force Shift.")
    );

    let empty = Action::Unassigned.preview();
    assert_eq!(empty.primary, "\u{2014}");
    assert_eq!(empty.tap, "Intentionally unassigned");
    assert!(empty.secondary.is_none());

    let plain = key("A", "a", Category::Alpha).preview();
    assert!(plain.secondary.is_none());
    let annotated = annotated_key("UP", "\u{2191}", Category::Navigation, "W").preview();
    assert_eq!(annotated.secondary.as_deref(), Some("W"));

    let ws = Action::Workspace { number: 4, hold: Some(Modifier::RightAlt) }.preview();
    assert_eq!(ws.primary, "WS 4");
    assert_eq!(ws.tap, "Focus AeroSpace workspace 4");
    assert_eq!(ws.hold.as_deref(), Some("Option"));
    assert_eq!(ws.hold_face.as_deref(), Some("hold: Option"));
    assert_eq!(ws.secondary.as_deref(), Some("With Shift: move window to workspace 4"));

    let f = Action::Function { number: 7, system_label: "previous track" }.preview();
    assert_eq!(f.primary, "F7");
    assert_eq!(f.secondary.as_deref(), Some("Planned Hyper action: previous track"));

    let esc = Action::HyperEscape.preview();
    assert_eq!(esc.hold.as_deref(), Some("Hyper \u{b7} Ctrl+Option+Command"));
}

#[test]
fn preview_builders() {
    let p = PreviewAction::new("a", "b", Category::Symbol)
        .hold("h")
        .hold_face("f")
        .secondary("")
        .note("n");
    assert_eq!(p.category, "symbol");
    assert_eq!(p.hold.as_deref(), Some("h"));
    assert_eq!(p.hold_face.as_deref(), Some("f"));
    assert!(p.secondary.is_none());
    assert_eq!(p.note.as_deref(), Some("n"));
}

#[test]
fn layers_keep_their_settled_positions() {
    let spec = dao44();
    assert_eq!(spec.layers.len(), 3);
    for layer in &spec.layers {
        assert_eq!(layer.keys.len(), KEY_COUNT);
        assert!(matches!(layer.keys[0], Action::HyperEscape));
    }
    assert!(matches!(base().keys[26], Action::Unassigned));
    assert!(matches!(nav().keys[41], Action::Transparent));
    assert!(matches!(
        nav().keys[11],
        Action::Workspace { number: 10, hold: None }
    ));
    assert!(matches!(num().keys[36], Action::Guarded { action: GuardedAction::SelectBluetooth(4), .. }));
    assert_eq!(spec.layer(LayerId::Nav).unwrap().name, "Nav / WM");
}

#[test]
fn guarded_actions_of_the_layout_are_distinct() {
    let spec = dao44();
    let guards = spec.guarded_actions();
    assert_eq!(guards.len(), 9);
    let ids: Vec<String> = guards.iter().map(|g| g.id()).collect();
    for (i, a) in ids.iter().enumerate() {
        for b in &ids[i + 1..] {
            assert_ne!(a, b);
        }
    }
    assert!(ensure_unique_guard_ids(&spec).is_ok());
}

#[test]
fn host_legends() {
    let c = colemak();
    assert_eq!(c.keys.len(), 35);
    assert_eq!(c.keys[16], ("P18", "t"));
    let r = russian();
    assert_eq!(r.keys[0], ("P01", "\u{451}"));
    assert_eq!(dao44().host_legends.len(), 2);
}

#[test]
fn validate_reports_each_broken_invariant() {
    assert!(matches!(layout(vec![]).validate(), Err(LayoutError::NoLayers)));

    let mut short = base();
    short.keys.pop();
    match layout(vec![short, nav(), num()]).validate() {
        Err(LayoutError::WrongKeyCount { name, count }) => {
            assert_eq!(name, "Base");
            assert_eq!(count, 43);
        }
        other => panic!("unexpected {other:?}"),
    }

    assert!(matches!(
        layout(vec![base(), num()]).validate(),
        Err(LayoutError::MissingLayer(LayerId::Nav))
    ));

    let mut moved = base();
    moved.keys[41] = Action::Unassigned;
    assert!(matches!(
        layout(vec![moved, nav(), num()]).validate(),
        Err(LayoutError::UnsettledKey { layer: LayerId::Base, position: 41 })
    ));

    let mut renamed = num();
    renamed.keys[25] = key("PLUS", "+", Category::Symbol);
    assert!(matches!(
        layout(vec![base(), nav(), renamed]).validate(),
        Err(LayoutError::UnsettledKey { layer: LayerId::Num, position: 25 })
    ));

    let mut doubled = nav();
    doubled.keys[1] = guarded("Again", "d", GuardedAction::Reset, Category::Danger);
    match layout(vec![base(), doubled, num()]).validate() {
        Err(LayoutError::DuplicateGuardId(id)) => assert_eq!(id, "reset"),
        other => panic!("unexpected {other:?}"),
    }
}

#[test]
fn layer_lookup_takes_the_first_match() {
    let mut second = base();
    second.name = "Second";
    let spec = layout(vec![base(), second]);
    assert_eq!(spec.layer(LayerId::Base).unwrap().name, "Base");
    assert!(matches!(spec.layer(LayerId::Num), Err(LayoutError::MissingLayer(LayerId::Num))));
}

#[test]
fn base_emits_the_untouched_ansi_block() {
    let codes = [
        (1, "GRAVE"), (2, "Q"), (3, "W"), (4, "E"), (5, "R"), (6, "T"), (7, "Y"), (8, "U"),
        (9, "I"), (10, "O"), (11, "P"), (12, "LBKT"), (13, "RBKT"), (14, "TAB"), (15, "A"),
        (16, "S"), (17, "D"), (19, "G"), (20, "H"), (22, "K"), (23, "L"), (24, "SEMI"),
        (25, "SQT"), (27, "Z"), (28, "X"), (29, "C"), (30, "V"), (31, "B"), (32, "N"),
        (33, "M"), (34, "COMMA"), (35, "DOT"), (36, "FSLH"), (37, "BSLH"),
    ];
    let keys = base().keys;
    for (position, expected) in codes {
        match keys[position] {
            Action::Key { code, .. } => assert_eq!(code, expected),
            other => panic!("P{position:02} is {other:?}"),
        }
    }
    assert!(matches!(keys[18], Action::ModTap { tap_code: "F", modifier: Modifier::LeftShift, .. }));
    assert!(matches!(keys[21], Action::ModTap { tap_code: "J", modifier: Modifier::RightShift, .. }));
}

#[test]
fn unused_nav_and_num_positions_stay_empty() {
    let nav = nav().keys;
    for position in [1, 2, 4, 5, 6, 12, 13, 19, 25] {
        assert!(matches!(nav[position], Action::Unassigned), "Nav P{position:02}");
    }
    let num = num().keys;
    for position in (1..13).chain([26, 31, 37]) {
        assert!(matches!(num[position], Action::Unassigned), "Num P{position:02}");
    }
}

#[test]
fn the_layout_names_its_revision_and_questions() {
    let spec = dao44();
    assert_eq!(spec.title, "Dao44 \u{b7} transition-first layout");
    assert_eq!(spec.revision, "v1 \u{b7} executable draft");
    assert_eq!(spec.open_questions.len(), 4);
    assert_eq!(spec.host_legends[1].keys.len(), 34);
    assert_eq!(spec.host_legends[1].keys[33], ("P36", "."));
    assert_eq!(spec.layers[1].name, "Nav / WM");
}

#[test]
fn num_keys_carry_their_legends_and_categories() {
    let k = num().keys;
    for (p, label) in ["BT 1", "BT 2", "BT 3", "BT 4", "BT 5"].into_iter().enumerate() {
        assert_eq!(
            k[32 + p],
            Action::Guarded {
                label,
                detail: "Hyper + tap selects this Bluetooth profile",
                action: GuardedAction::SelectBluetooth(p as u8),
                category: Category::Connection,
            }
        );
    }
    for p in 27..31 {
        assert!(matches!(k[p], Action::Guarded { category: Category::Danger, .. }));
    }
    assert_eq!(k[16], annotated_key("N2", "2", Category::Symbol, "With Shift: @"));
    assert!(matches!(nav().keys[18], Action::Key { code: "LSHFT", category: Category::Modifier, .. }));
    assert!(matches!(
        nav().keys[37],
        Action::Function { number: 12, system_label: "volume up" }
    ));
    assert_eq!(
        base().keys[18],
        shift_tap("F", "f", Modifier::LeftShift, "Colemak-DH host interpretation: t")
    );
}

#[test]
fn validate_names_the_miscounted_layer() {
    let mut spec = dao44();
    spec.layers[1].keys.pop();
    match spec.validate() {
        Err(LayoutError::WrongKeyCount { name, count }) => {
            assert_eq!(name, "Nav / WM");
            assert_eq!(count, 43);
        }
        other => panic!("unexpected {other:?}"),
    }
}
