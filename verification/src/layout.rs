//! The Dao44 layout itself: Base, Nav / WM and Num / Symbol, and the host
//! legends the preview can show on the raw ANSI positions.
use vstd::prelude::*;
use crate::model::{
    distinct_guards, find_layer, first_miscounted, guard_id_defined, guards_defined, key_guards,
    layer_guards, layout_verdict, lemma_guard_ids_unique, lemma_key_guards, spec_guard_verdict,
    unsettled_key, Action, Category, GuardedAction, HostLegend, Layer, LayerId, LayoutSpec,
    Modifier, KEY_COUNT,
};

verus! {

/// A key with no secondary legend.
pub open spec fn plain(code: &'static str, label: &'static str, category: Category) -> Action {
    Action::Key { code, label, category, secondary: "" }
}

/// A key with a secondary legend.
pub open spec fn noted(
    code: &'static str,
    label: &'static str,
    category: Category,
    secondary: &'static str,
) -> Action {
    Action::Key { code, label, category, secondary }
}

/// A key that taps `code`, shown as `label`, and holds `modifier`.
pub open spec fn tap_hold(
    code: &'static str,
    label: &'static str,
    modifier: Modifier,
    secondary: &'static str,
) -> Action {
    Action::ModTap { modifier, tap_code: code, label, tap: label, secondary }
}

/// A Hyper-gated action.
pub open spec fn gated(
    label: &'static str,
    detail: &'static str,
    action: GuardedAction,
    category: Category,
) -> Action {
    Action::Guarded { label, detail, action, category }
}

/// A plain key.
pub fn key(code: &'static str, label: &'static str, category: Category) -> (r: Action)
    ensures
        r == plain(code, label, category),
{
    Action::Key { code, label, category, secondary: "" }
}

/// A plain key with a secondary legend.
pub fn annotated_key(
    code: &'static str,
    label: &'static str,
    category: Category,
    secondary: &'static str,
) -> (r: Action)
    ensures
        r == noted(code, label, category, secondary),
{
    Action::Key { code, label, category, secondary }
}

/// A key that taps `code` and holds `modifier`.
pub fn shift_tap(
    code: &'static str,
    label: &'static str,
    modifier: Modifier,
    secondary: &'static str,
) -> (r: Action)
    ensures
        r == tap_hold(code, label, modifier, secondary),
{
    Action::ModTap { modifier, tap_code: code, label, tap: label, secondary }
}

/// A Hyper-gated action.
pub fn guarded(
    label: &'static str,
    detail: &'static str,
    action: GuardedAction,
    category: Category,
) -> (r: Action)
    ensures
        r == gated(label, detail, action, category),
{
    Action::Guarded { label, detail, action, category }
}

pub open spec fn is_code(a: Action, code: Seq<char>) -> bool {
    a matches Action::Key { code: c, .. } && c@ == code
}

pub open spec fn is_tap_hold(a: Action, code: Seq<char>, m: Modifier) -> bool {
    a matches Action::ModTap { modifier, tap_code, .. } && modifier == m && tap_code@ == code
}

pub open spec fn is_workspace(a: Action, number: u8, hold: Option<Modifier>) -> bool {
    a == Action::Workspace { number, hold }
}

pub open spec fn is_function_key(a: Action, n: int) -> bool {
    a matches Action::Function { number, .. } && number == n
}

pub open spec fn is_guard(a: Action, g: GuardedAction) -> bool {
    a matches Action::Guarded { action, .. } && action == g
}

/// The thumb row every layer shares: Ctrl, Option, Cmd on the left thumb.
pub open spec fn left_thumbs(keys: Seq<Action>) -> bool {
    &&& is_code(keys[38], "LCTRL"@)
    &&& is_code(keys[39], "LALT"@)
    &&& is_code(keys[40], "LGUI"@)
}

/// The untouched ANSI block: every alpha, digit-row and punctuation
/// position emits the raw ANSI/QWERTY code of its place, so that the host
/// alone decides what Colemak-DH or Russian character it means.
pub open spec fn ansi_block(keys: Seq<Action>) -> bool {
    &&& is_code(keys[1], "GRAVE"@)
    &&& is_code(keys[2], "Q"@)
    &&& is_code(keys[3], "W"@)
    &&& is_code(keys[4], "E"@)
    &&& is_code(keys[5], "R"@)
    &&& is_code(keys[6], "T"@)
    &&& is_code(keys[7], "Y"@)
    &&& is_code(keys[8], "U"@)
    &&& is_code(keys[9], "I"@)
    &&& is_code(keys[10], "O"@)
    &&& is_code(keys[11], "P"@)
    &&& is_code(keys[12], "LBKT"@)
    &&& is_code(keys[13], "RBKT"@)
    &&& is_code(keys[14], "TAB"@)
    &&& is_code(keys[15], "A"@)
    &&& is_code(keys[16], "S"@)
    &&& is_code(keys[17], "D"@)
    &&& is_tap_hold(keys[18], "F"@, Modifier::LeftShift)
    &&& is_code(keys[19], "G"@)
    &&& is_code(keys[20], "H"@)
    &&& is_tap_hold(keys[21], "J"@, Modifier::RightShift)
    &&& is_code(keys[22], "K"@)
    &&& is_code(keys[23], "L"@)
    &&& is_code(keys[24], "SEMI"@)
    &&& is_code(keys[25], "SQT"@)
    &&& is_code(keys[27], "Z"@)
    &&& is_code(keys[28], "X"@)
    &&& is_code(keys[29], "C"@)
    &&& is_code(keys[30], "V"@)
    &&& is_code(keys[31], "B"@)
    &&& is_code(keys[32], "N"@)
    &&& is_code(keys[33], "M"@)
    &&& is_code(keys[34], "COMMA"@)
    &&& is_code(keys[35], "DOT"@)
    &&& is_code(keys[36], "FSLH"@)
    &&& is_code(keys[37], "BSLH"@)
}

/// Base: Escape/Hyper on `P00`, the untouched ANSI block with raw F and J
/// holding left and right Shift on `P18` and `P21`, `P26` empty, and the
/// thumbs Ctrl, Option, Cmd | Enter/Nav, Space, Backspace/Num.
pub open spec fn base_contract(keys: Seq<Action>) -> bool {
    &&& keys.len() == KEY_COUNT
    &&& keys[0] is HyperEscape
    &&& ansi_block(keys)
    &&& is_tap_hold(keys[18], "F"@, Modifier::LeftShift)
    &&& is_tap_hold(keys[21], "J"@, Modifier::RightShift)
    &&& keys[26] is Unassigned
    &&& left_thumbs(keys)
    &&& keys[41] is NavEnter
    &&& is_code(keys[42], "SPACE"@)
    &&& keys[43] is BackspaceNum
    &&& forall|i: int| 0 <= i < keys.len() ==> !(#[trigger] keys[i] is Guarded)
}

/// Nav / WM: Escape/Hyper and Tab, arrows in WASD shape, Shift on the left
/// index home key, workspaces 6 to 10 across the right top row and 1 to 5
/// across the right home row with 2 to 5 holding Shift, Cmd, Option and
/// Ctrl, F1 to F12 along the bottom row, the thumbs Ctrl, Option, Cmd and
/// Space with Enter/Nav and Backspace/Num falling through to Base, and
/// every other position empty.
pub open spec fn nav_contract(keys: Seq<Action>) -> bool {
    &&& keys.len() == KEY_COUNT
    &&& keys[0] is HyperEscape
    &&& is_code(keys[3], "UP"@)
    &&& is_code(keys[15], "LEFT"@)
    &&& is_code(keys[16], "DOWN"@)
    &&& is_code(keys[17], "RIGHT"@)
    &&& is_code(keys[14], "TAB"@)
    &&& is_code(keys[18], "LSHFT"@)
    &&& forall|i: int| 7 <= i <= 11 ==> is_workspace(#[trigger] keys[i], (i - 1) as u8, None)
    &&& is_workspace(keys[20], 1, None)
    &&& is_workspace(keys[21], 2, Some(Modifier::RightShift))
    &&& is_workspace(keys[22], 3, Some(Modifier::RightGui))
    &&& is_workspace(keys[23], 4, Some(Modifier::RightAlt))
    &&& is_workspace(keys[24], 5, Some(Modifier::RightControl))
    &&& forall|i: int| 26 <= i < 38 ==> is_function_key(#[trigger] keys[i], i - 25)
    &&& left_thumbs(keys)
    &&& keys[41] is Transparent
    &&& is_code(keys[42], "SPACE"@)
    &&& keys[43] is Transparent
    &&& keys[1] is Unassigned && keys[2] is Unassigned && keys[4] is Unassigned
    &&& keys[5] is Unassigned && keys[6] is Unassigned && keys[12] is Unassigned
    &&& keys[13] is Unassigned && keys[19] is Unassigned && keys[25] is Unassigned
    &&& forall|i: int| 0 <= i < keys.len() ==> !(#[trigger] keys[i] is Guarded)
}

/// Num / Symbol: Escape/Hyper and Tab, digits 1 to 5 and 6 to 0 across the
/// home row with 4 and 7 keeping the mirrored Shift holds, minus after 0
/// and equal on the outer right key, `P26` empty, the Hyper-gated recovery
/// actions bottom left and Bluetooth profiles 1 to 5 bottom right, the
/// thumbs as on Base, and the top row and the two remaining bottom keys
/// empty.
pub open spec fn num_contract(keys: Seq<Action>) -> bool {
    &&& keys.len() == KEY_COUNT
    &&& keys[0] is HyperEscape
    &&& is_code(keys[13], "EQUAL"@)
    &&& is_code(keys[14], "TAB"@)
    &&& is_code(keys[15], "N1"@)
    &&& is_code(keys[16], "N2"@)
    &&& is_code(keys[17], "N3"@)
    &&& is_tap_hold(keys[18], "N4"@, Modifier::LeftShift)
    &&& is_code(keys[19], "N5"@)
    &&& is_code(keys[20], "N6"@)
    &&& is_tap_hold(keys[21], "N7"@, Modifier::RightShift)
    &&& is_code(keys[22], "N8"@)
    &&& is_code(keys[23], "N9"@)
    &&& is_code(keys[24], "N0"@)
    &&& is_code(keys[25], "MINUS"@)
    &&& keys[26] is Unassigned
    &&& is_guard(keys[27], GuardedAction::ClearCurrentBluetooth)
    &&& is_guard(keys[28], GuardedAction::ClearAllBluetooth)
    &&& is_guard(keys[29], GuardedAction::Reset)
    &&& is_guard(keys[30], GuardedAction::Bootloader)
    &&& forall|i: int|
        32 <= i < 37 ==> is_guard(#[trigger] keys[i], GuardedAction::SelectBluetooth((i - 32) as u8))
    &&& left_thumbs(keys)
    &&& keys[41] is NavEnter
    &&& is_code(keys[42], "SPACE"@)
    &&& keys[43] is BackspaceNum
    &&& forall|i: int| 1 <= i < 13 ==> #[trigger] keys[i] is Unassigned
    &&& keys[31] is Unassigned && keys[37] is Unassigned
    &&& forall|i: int|
        0 <= i < keys.len() && (#[trigger] keys[i] is Guarded) ==> (27 <= i <= 30 || 32 <= i < 37)
}

/// Every key of Base, position by position.
pub open spec fn base_keys() -> Seq<Action> {
    seq![
        Action::HyperEscape,
        noted("GRAVE", "`", Category::Symbol, "Russian host layout: \u{451}"),
        plain("Q", "q", Category::Alpha),
        plain("W", "w", Category::Alpha),
        plain("E", "e", Category::Alpha),
        plain("R", "r", Category::Alpha),
        plain("T", "t", Category::Alpha),
        plain("Y", "y", Category::Alpha),
        plain("U", "u", Category::Alpha),
        plain("I", "i", Category::Alpha),
        plain("O", "o", Category::Alpha),
        plain("P", "p", Category::Alpha),
        plain("LBKT", "[", Category::Symbol),
        plain("RBKT", "]", Category::Symbol),
        plain("TAB", "Tab", Category::Navigation),
        plain("A", "a", Category::Alpha),
        plain("S", "s", Category::Alpha),
        plain("D", "d", Category::Alpha),
        tap_hold("F", "f", Modifier::LeftShift, "Colemak-DH host interpretation: t"),
        plain("G", "g", Category::Alpha),
        plain("H", "h", Category::Alpha),
        tap_hold("J", "j", Modifier::RightShift, "Colemak-DH host interpretation: n"),
        plain("K", "k", Category::Alpha),
        plain("L", "l", Category::Alpha),
        plain("SEMI", ";", Category::Symbol),
        plain("SQT", "'", Category::Symbol),
        Action::Unassigned,
        plain("Z", "z", Category::Alpha),
        plain("X", "x", Category::Alpha),
        plain("C", "c", Category::Alpha),
        plain("V", "v", Category::Alpha),
        plain("B", "b", Category::Alpha),
        plain("N", "n", Category::Alpha),
        plain("M", "m", Category::Alpha),
        plain("COMMA", ",", Category::Symbol),
        plain("DOT", ".", Category::Symbol),
        noted("FSLH", "/", Category::Symbol, "Shift + / produces ?"),
        noted("BSLH", "\\", Category::Symbol, "Shift + \\ produces |"),
        plain("LCTRL", "Ctrl", Category::Modifier),
        plain("LALT", "Option", Category::Modifier),
        plain("LGUI", "Cmd", Category::Modifier),
        Action::NavEnter,
        plain("SPACE", "Space", Category::Alpha),
        Action::BackspaceNum,
    ]
}

/// The system actions planned for F1 to F12.
pub open spec fn function_labels() -> Seq<&'static str> {
    seq![
        "display brightness down",
        "display brightness up",
        "Mission Control",
        "Spotlight",
        "Dictation",
        "Do Not Disturb",
        "previous track",
        "play / pause",
        "next track",
        "mute",
        "volume down",
        "volume up",
    ]
}

/// The key of Nav / WM at position `p`.
pub open spec fn nav_key(p: int) -> Action {
    if p == 0 {
        Action::HyperEscape
    } else if p == 3 {
        noted("UP", "\u{2191}", Category::Navigation, "Physical W position")
    } else if 7 <= p <= 11 {
        Action::Workspace { number: (p - 1) as u8, hold: None }
    } else if p == 14 {
        plain("TAB", "Tab", Category::Navigation)
    } else if p == 15 {
        noted("LEFT", "\u{2190}", Category::Navigation, "Physical A position")
    } else if p == 16 {
        noted("DOWN", "\u{2193}", Category::Navigation, "Physical S position")
    } else if p == 17 {
        noted("RIGHT", "\u{2192}", Category::Navigation, "Physical D position")
    } else if p == 18 {
        plain("LSHFT", "Shift", Category::Modifier)
    } else if p == 20 {
        Action::Workspace { number: 1, hold: None }
    } else if p == 21 {
        Action::Workspace { number: 2, hold: Some(Modifier::RightShift) }
    } else if p == 22 {
        Action::Workspace { number: 3, hold: Some(Modifier::RightGui) }
    } else if p == 23 {
        Action::Workspace { number: 4, hold: Some(Modifier::RightAlt) }
    } else if p == 24 {
        Action::Workspace { number: 5, hold: Some(Modifier::RightControl) }
    } else if 26 <= p < 38 {
        Action::Function { number: (p - 25) as u8, system_label: function_labels()[p - 26] }
    } else if p == 38 {
        plain("LCTRL", "Ctrl", Category::Modifier)
    } else if p == 39 {
        plain("LALT", "Option", Category::Modifier)
    } else if p == 40 {
        plain("LGUI", "Cmd", Category::Modifier)
    } else if p == 41 || p == 43 {
        Action::Transparent
    } else if p == 42 {
        plain("SPACE", "Space", Category::Alpha)
    } else {
        Action::Unassigned
    }
}

/// Every key of Nav / WM, position by position.
pub open spec fn nav_keys() -> Seq<Action> {
    Seq::new(KEY_COUNT as nat, |p: int| nav_key(p))
}

/// The label of the key that selects Bluetooth profile `p`, counted from 0.
pub open spec fn bluetooth_label(p: int) -> &'static str {
    if p == 0 {
        "BT 1"
    } else if p == 1 {
        "BT 2"
    } else if p == 2 {
        "BT 3"
    } else if p == 3 {
        "BT 4"
    } else {
        "BT 5"
    }
}

/// The key of Num / Symbol at position `p`.
pub open spec fn num_key(p: int) -> Action {
    if p == 0 {
        Action::HyperEscape
    } else if p == 13 {
        noted("EQUAL", "=", Category::Symbol, "With Shift: plus")
    } else if p == 14 {
        plain("TAB", "Tab", Category::Navigation)
    } else if p == 15 {
        noted("N1", "1", Category::Symbol, "With Shift: !")
    } else if p == 16 {
        noted("N2", "2", Category::Symbol, "With Shift: @")
    } else if p == 17 {
        noted("N3", "3", Category::Symbol, "With Shift: #")
    } else if p == 18 {
        tap_hold("N4", "4", Modifier::LeftShift, "With opposite Shift: $")
    } else if p == 19 {
        noted("N5", "5", Category::Symbol, "With Shift: %")
    } else if p == 20 {
        noted("N6", "6", Category::Symbol, "With Shift: ^")
    } else if p == 21 {
        tap_hold("N7", "7", Modifier::RightShift, "With opposite Shift: &")
    } else if p == 22 {
        noted("N8", "8", Category::Symbol, "With Shift: *")
    } else if p == 23 {
        noted("N9", "9", Category::Symbol, "With Shift: (")
    } else if p == 24 {
        noted("N0", "0", Category::Symbol, "With Shift: )")
    } else if p == 25 {
        noted("MINUS", "\u{2212}", Category::Symbol, "With Shift: underscore")
    } else if p == 27 {
        gated(
            "Clear BT",
            "Hyper + tap clears the selected Bluetooth profile",
            GuardedAction::ClearCurrentBluetooth,
            Category::Danger,
        )
    } else if p == 28 {
        gated(
            "Clear all",
            "Hyper + tap clears every Bluetooth bond",
            GuardedAction::ClearAllBluetooth,
            Category::Danger,
        )
    } else if p == 29 {
        gated("Reboot L", "Hyper + tap restarts the central half", GuardedAction::Reset, Category::Danger)
    } else if p == 30 {
        gated(
            "Flash L",
            "Hyper + tap enters the central-half bootloader",
            GuardedAction::Bootloader,
            Category::Danger,
        )
    } else if 32 <= p < 37 {
        gated(
            bluetooth_label(p - 32),
            "Hyper + tap selects this Bluetooth profile",
            GuardedAction::SelectBluetooth((p - 32) as u8),
            Category::Connection,
        )
    } else if p == 38 {
        plain("LCTRL", "Ctrl", Category::Modifier)
    } else if p == 39 {
        plain("LALT", "Option", Category::Modifier)
    } else if p == 40 {
        plain("LGUI", "Cmd", Category::Modifier)
    } else if p == 41 {
        Action::NavEnter
    } else if p == 42 {
        plain("SPACE", "Space", Category::Alpha)
    } else if p == 43 {
        Action::BackspaceNum
    } else {
        Action::Unassigned
    }
}

/// Every key of Num / Symbol, position by position.
pub open spec fn num_keys() -> Seq<Action> {
    Seq::new(KEY_COUNT as nat, |p: int| num_key(p))
}

fn blank_layer() -> (r: Vec<Action>)
    ensures
        r@.len() == KEY_COUNT,
        forall|i: int| 0 <= i < KEY_COUNT ==> #[trigger] r@[i] == Action::Unassigned,
{
    let mut keys: Vec<Action> = Vec::new();
    let mut i: usize = 0;
    while i < KEY_COUNT
        invariant
            i <= KEY_COUNT,
            keys@.len() == i,
            forall|j: int| 0 <= j < i ==> #[trigger] keys@[j] == Action::Unassigned,
        decreases KEY_COUNT - i,
    {
        keys.push(Action::Unassigned);
        i = i + 1;
    }
    keys
}


/// Base: raw ANSI positions for the host-owned Colemak-DH or Russian.
pub fn base() -> (r: Layer)
    ensures
        r.name == "Base",
        r.description == "Raw ANSI positions interpreted by host-owned Colemak-DH or Russian, with familiar thumb modifiers and mirrored index-finger Shift holds.",
        r.keys@ == base_keys(),
        r.id == LayerId::Base,
        base_contract(r.keys@),
{
    let keys = vec![
        Action::HyperEscape,
        annotated_key("GRAVE", "`", Category::Symbol, "Russian host layout: \u{451}"),
        key("Q", "q", Category::Alpha),
        key("W", "w", Category::Alpha),
        key("E", "e", Category::Alpha),
        key("R", "r", Category::Alpha),
        key("T", "t", Category::Alpha),
        key("Y", "y", Category::Alpha),
        key("U", "u", Category::Alpha),
        key("I", "i", Category::Alpha),
        key("O", "o", Category::Alpha),
        key("P", "p", Category::Alpha),
        key("LBKT", "[", Category::Symbol),
        key("RBKT", "]", Category::Symbol),
        key("TAB", "Tab", Category::Navigation),
        key("A", "a", Category::Alpha),
        key("S", "s", Category::Alpha),
        key("D", "d", Category::Alpha),
        shift_tap("F", "f", Modifier::LeftShift, "Colemak-DH host interpretation: t"),
        key("G", "g", Category::Alpha),
        key("H", "h", Category::Alpha),
        shift_tap("J", "j", Modifier::RightShift, "Colemak-DH host interpretation: n"),
        key("K", "k", Category::Alpha),
        key("L", "l", Category::Alpha),
        key("SEMI", ";", Category::Symbol),
        key("SQT", "'", Category::Symbol),
        Action::Unassigned,
        key("Z", "z", Category::Alpha),
        key("X", "x", Category::Alpha),
        key("C", "c", Category::Alpha),
        key("V", "v", Category::Alpha),
        key("B", "b", Category::Alpha),
        key("N", "n", Category::Alpha),
        key("M", "m", Category::Alpha),
        key("COMMA", ",", Category::Symbol),
        key("DOT", ".", Category::Symbol),
        annotated_key("FSLH", "/", Category::Symbol, "Shift + / produces ?"),
        annotated_key("BSLH", "\\", Category::Symbol, "Shift + \\ produces |"),
        key("LCTRL", "Ctrl", Category::Modifier),
        key("LALT", "Option", Category::Modifier),
        key("LGUI", "Cmd", Category::Modifier),
        Action::NavEnter,
        key("SPACE", "Space", Category::Alpha),
        Action::BackspaceNum,
    ];
    assert(keys@ =~= base_keys());
    Layer {
        id: LayerId::Base,
        name: "Base",
        description: "Raw ANSI positions interpreted by host-owned Colemak-DH or Russian, with familiar thumb modifiers and mirrored index-finger Shift holds.",
        keys,
    }
}

/// Nav / WM, held on Enter/Nav.
pub fn nav() -> (r: Layer)
    ensures
        r.name == "Nav / WM",
        r.description == "Hold Enter/Nav: WASD-shaped arrows on the left, AeroSpace workspaces and hold modifiers on the right, and literal F1\u{2013}F12 below.",
        r.keys@ == nav_keys(),
        r.id == LayerId::Nav,
        nav_contract(r.keys@),
{
    let mut keys = blank_layer();
    keys.set(0, Action::HyperEscape);
    keys.set(3, annotated_key("UP", "\u{2191}", Category::Navigation, "Physical W position"));
    let mut w: usize = 0;
    while w < 5
        invariant
            w <= 5,
            keys@.len() == KEY_COUNT,
            keys@[0] is HyperEscape,
            keys@[3] == noted("UP", "\u{2191}", Category::Navigation, "Physical W position"),
            forall|i: int| 7 <= i < 7 + w ==> is_workspace(#[trigger] keys@[i], (i - 1) as u8, None),
            forall|i: int|
                (7 + w <= i < KEY_COUNT || 0 < i < 7) && i != 3 ==> #[trigger] keys@[i]
                    == Action::Unassigned,
        decreases 5 - w,
    {
        keys.set(7 + w, Action::Workspace { number: (6 + w) as u8, hold: None });
        w = w + 1;
    }
    keys.set(14, key("TAB", "Tab", Category::Navigation));
    keys.set(15, annotated_key("LEFT", "\u{2190}", Category::Navigation, "Physical A position"));
    keys.set(16, annotated_key("DOWN", "\u{2193}", Category::Navigation, "Physical S position"));
    keys.set(17, annotated_key("RIGHT", "\u{2192}", Category::Navigation, "Physical D position"));
    keys.set(18, key("LSHFT", "Shift", Category::Modifier));
    keys.set(20, Action::Workspace { number: 1, hold: None });
    keys.set(21, Action::Workspace { number: 2, hold: Some(Modifier::RightShift) });
    keys.set(22, Action::Workspace { number: 3, hold: Some(Modifier::RightGui) });
    keys.set(23, Action::Workspace { number: 4, hold: Some(Modifier::RightAlt) });
    keys.set(24, Action::Workspace { number: 5, hold: Some(Modifier::RightControl) });
    let system_labels: [&'static str; 12] = [
        "display brightness down",
        "display brightness up",
        "Mission Control",
        "Spotlight",
        "Dictation",
        "Do Not Disturb",
        "previous track",
        "play / pause",
        "next track",
        "mute",
        "volume down",
        "volume up",
    ];
    assert(system_labels@ =~= function_labels());
    let ghost before = keys@;
    let mut offset: usize = 0;
    while offset < 12
        invariant
            offset <= 12,
            keys@.len() == KEY_COUNT,
            system_labels@ == function_labels(),
            forall|i: int| 0 <= i < 26 || 38 <= i < KEY_COUNT ==> #[trigger] keys@[i] == before[i],
            forall|i: int|
                26 <= i < 26 + offset ==> #[trigger] keys@[i] == (Action::Function {
                    number: (i - 25) as u8,
                    system_label: function_labels()[i - 26],
                }),
            forall|i: int|
                26 + offset <= i < 38 ==> #[trigger] keys@[i] == Action::Unassigned,
            before.len() == KEY_COUNT,
            forall|i: int| 26 <= i < 38 ==> #[trigger] before[i] == Action::Unassigned,
        decreases 12 - offset,
    {
        keys.set(
            26 + offset,
            Action::Function { number: (offset + 1) as u8, system_label: system_labels[offset] },
        );
        offset = offset + 1;
    }
    keys.set(38, key("LCTRL", "Ctrl", Category::Modifier));
    keys.set(39, key("LALT", "Option", Category::Modifier));
    keys.set(40, key("LGUI", "Cmd", Category::Modifier));
    keys.set(41, Action::Transparent);
    keys.set(42, key("SPACE", "Space", Category::Alpha));
    keys.set(43, Action::Transparent);
    assert(keys@ =~= nav_keys());
    assert forall|i: int| 0 <= i < keys@.len() implies !(#[trigger] keys@[i] is Guarded) by {
        if 26 <= i < 38 {
            assert(is_function_key(keys@[i], i - 25));
        }
    }
    Layer {
        id: LayerId::Nav,
        name: "Nav / WM",
        description: "Hold Enter/Nav: WASD-shaped arrows on the left, AeroSpace workspaces and hold modifiers on the right, and literal F1\u{2013}F12 below.",
        keys,
    }
}

/// Num / Symbol, held on Backspace/Num.
pub fn num() -> (r: Layer)
    ensures
        r.name == "Num / Symbol",
        r.description == "Hold Backspace for a stateless Num / Symbol layer: 1\u{2013}0 occupy the home row, and 4/7 preserve the same mirrored index-finger hold-Shifts as Base.",
        r.keys@ == num_keys(),
        r.id == LayerId::Num,
        num_contract(r.keys@),
{
    let mut keys = blank_layer();
    keys.set(0, Action::HyperEscape);
    keys.set(13, annotated_key("EQUAL", "=", Category::Symbol, "With Shift: plus"));
    keys.set(14, key("TAB", "Tab", Category::Navigation));
    keys.set(15, annotated_key("N1", "1", Category::Symbol, "With Shift: !"));
    keys.set(16, annotated_key("N2", "2", Category::Symbol, "With Shift: @"));
    keys.set(17, annotated_key("N3", "3", Category::Symbol, "With Shift: #"));
    keys.set(18, shift_tap("N4", "4", Modifier::LeftShift, "With opposite Shift: $"));
    keys.set(19, annotated_key("N5", "5", Category::Symbol, "With Shift: %"));
    keys.set(20, annotated_key("N6", "6", Category::Symbol, "With Shift: ^"));
    keys.set(21, shift_tap("N7", "7", Modifier::RightShift, "With opposite Shift: &"));
    keys.set(22, annotated_key("N8", "8", Category::Symbol, "With Shift: *"));
    keys.set(23, annotated_key("N9", "9", Category::Symbol, "With Shift: ("));
    keys.set(24, annotated_key("N0", "0", Category::Symbol, "With Shift: )"));
    keys.set(25, annotated_key("MINUS", "\u{2212}", Category::Symbol, "With Shift: underscore"));
    keys.set(
        27,
        guarded(
            "Clear BT",
            "Hyper + tap clears the selected Bluetooth profile",
            GuardedAction::ClearCurrentBluetooth,
            Category::Danger,
        ),
    );
    keys.set(
        28,
        guarded(
            "Clear all",
            "Hyper + tap clears every Bluetooth bond",
            GuardedAction::ClearAllBluetooth,
            Category::Danger,
        ),
    );
    keys.set(
        29,
        guarded(
            "Reboot L",
            "Hyper + tap restarts the central half",
            GuardedAction::Reset,
            Category::Danger,
        ),
    );
    keys.set(
        30,
        guarded(
            "Flash L",
            "Hyper + tap enters the central-half bootloader",
            GuardedAction::Bootloader,
            Category::Danger,
        ),
    );
    let ghost before = keys@;
    let mut profile: u8 = 0;
    while profile < 5
        invariant
            profile <= 5,
            keys@.len() == KEY_COUNT,
            before.len() == KEY_COUNT,
            forall|i: int| (0 <= i < 32 || 37 <= i < KEY_COUNT) ==> #[trigger] keys@[i] == before[i],
            forall|i: int|
                32 <= i < 32 + profile ==> #[trigger] keys@[i] == gated(
                    bluetooth_label(i - 32),
                    "Hyper + tap selects this Bluetooth profile",
                    GuardedAction::SelectBluetooth((i - 32) as u8),
                    Category::Connection,
                ),
            forall|i: int| 32 + profile <= i < 37 ==> #[trigger] keys@[i] == before[i],
            forall|i: int| 32 <= i < 37 ==> #[trigger] before[i] == Action::Unassigned,
        decreases 5 - profile,
    {
        let label = match profile {
            0 => "BT 1",
            1 => "BT 2",
            2 => "BT 3",
            3 => "BT 4",
            _ => "BT 5",
        };
        assert(label == bluetooth_label(profile as int));
        keys.set(
            32 + profile as usize,
            guarded(
                label,
                "Hyper + tap selects this Bluetooth profile",
                GuardedAction::SelectBluetooth(profile),
                Category::Connection,
            ),
        );
        profile = profile + 1;
    }
    keys.set(38, key("LCTRL", "Ctrl", Category::Modifier));
    keys.set(39, key("LALT", "Option", Category::Modifier));
    keys.set(40, key("LGUI", "Cmd", Category::Modifier));
    keys.set(41, Action::NavEnter);
    keys.set(42, key("SPACE", "Space", Category::Alpha));
    keys.set(43, Action::BackspaceNum);
    assert(keys@ =~= num_keys());
    Layer {
        id: LayerId::Num,
        name: "Num / Symbol",
        description: "Hold Backspace for a stateless Num / Symbol layer: 1\u{2013}0 occupy the home row, and 4/7 preserve the same mirrored index-finger hold-Shifts as Base.",
        keys,
    }
}

/// The positions and characters of the Colemak-DH ANSI legend.
pub open spec fn colemak_keys() -> Seq<(&'static str, &'static str)> {
    seq![
        ("P01", "`"),
        ("P02", "q"),
        ("P03", "w"),
        ("P04", "f"),
        ("P05", "p"),
        ("P06", "b"),
        ("P07", "j"),
        ("P08", "l"),
        ("P09", "u"),
        ("P10", "y"),
        ("P11", ";"),
        ("P12", "["),
        ("P13", "]"),
        ("P15", "a"),
        ("P16", "r"),
        ("P17", "s"),
        ("P18", "t"),
        ("P19", "g"),
        ("P20", "m"),
        ("P21", "n"),
        ("P22", "e"),
        ("P23", "i"),
        ("P24", "o"),
        ("P25", "'"),
        ("P27", "z"),
        ("P28", "x"),
        ("P29", "c"),
        ("P30", "d"),
        ("P31", "v"),
        ("P32", "k"),
        ("P33", "h"),
        ("P34", ","),
        ("P35", "."),
        ("P36", "/"),
        ("P37", "\\"),
    ]
}

/// The Colemak-DH ANSI legend: raw F and J read as T and N.
pub fn colemak() -> (r: HostLegend)
    ensures
        r.id@ == "colemak-dh-ansi"@,
        r.name@ == "Colemak-DH ANSI"@,
        r.keys@ == colemak_keys(),
{
    HostLegend {
        id: "colemak-dh-ansi",
        name: "Colemak-DH ANSI",
        keys: &[
            ("P01", "`"),
            ("P02", "q"),
            ("P03", "w"),
            ("P04", "f"),
            ("P05", "p"),
            ("P06", "b"),
            ("P07", "j"),
            ("P08", "l"),
            ("P09", "u"),
            ("P10", "y"),
            ("P11", ";"),
            ("P12", "["),
            ("P13", "]"),
            ("P15", "a"),
            ("P16", "r"),
            ("P17", "s"),
            ("P18", "t"),
            ("P19", "g"),
            ("P20", "m"),
            ("P21", "n"),
            ("P22", "e"),
            ("P23", "i"),
            ("P24", "o"),
            ("P25", "'"),
            ("P27", "z"),
            ("P28", "x"),
            ("P29", "c"),
            ("P30", "d"),
            ("P31", "v"),
            ("P32", "k"),
            ("P33", "h"),
            ("P34", ","),
            ("P35", "."),
            ("P36", "/"),
            ("P37", "\\"),
        ],
    }
}

/// The positions and characters of the Russian legend.
pub open spec fn russian_keys() -> Seq<(&'static str, &'static str)> {
    seq![
        ("P01", "ё"),
        ("P02", "й"),
        ("P03", "ц"),
        ("P04", "у"),
        ("P05", "к"),
        ("P06", "е"),
        ("P07", "н"),
        ("P08", "г"),
        ("P09", "ш"),
        ("P10", "щ"),
        ("P11", "з"),
        ("P12", "х"),
        ("P13", "ъ"),
        ("P15", "ф"),
        ("P16", "ы"),
        ("P17", "в"),
        ("P18", "а"),
        ("P19", "п"),
        ("P20", "р"),
        ("P21", "о"),
        ("P22", "л"),
        ("P23", "д"),
        ("P24", "ж"),
        ("P25", "э"),
        ("P27", "я"),
        ("P28", "ч"),
        ("P29", "с"),
        ("P30", "м"),
        ("P31", "и"),
        ("P32", "т"),
        ("P33", "ь"),
        ("P34", "б"),
        ("P35", "ю"),
        ("P36", "."),
    ]
}

/// The Russian legend on the same ANSI positions.
pub fn russian() -> (r: HostLegend)
    ensures
        r.id@ == "russian"@,
        r.name@ == "Russian"@,
        r.keys@ == russian_keys(),
{
    HostLegend {
        id: "russian",
        name: "Russian",
        keys: &[
            ("P01", "ё"),
            ("P02", "й"),
            ("P03", "ц"),
            ("P04", "у"),
            ("P05", "к"),
            ("P06", "е"),
            ("P07", "н"),
            ("P08", "г"),
            ("P09", "ш"),
            ("P10", "щ"),
            ("P11", "з"),
            ("P12", "х"),
            ("P13", "ъ"),
            ("P15", "ф"),
            ("P16", "ы"),
            ("P17", "в"),
            ("P18", "а"),
            ("P19", "п"),
            ("P20", "р"),
            ("P21", "о"),
            ("P22", "л"),
            ("P23", "д"),
            ("P24", "ж"),
            ("P25", "э"),
            ("P27", "я"),
            ("P28", "ч"),
            ("P29", "с"),
            ("P30", "м"),
            ("P31", "и"),
            ("P32", "т"),
            ("P33", "ь"),
            ("P34", "б"),
            ("P35", "ю"),
            ("P36", "."),
        ],
    }
}

/// The Dao44 layout: Base, Nav / WM and Num / Symbol, with the Colemak-DH
/// and Russian legends; it keeps every settled invariant.
pub fn dao44() -> (r: LayoutSpec)
    ensures
        r.layers@.len() == 3,
        r.layers@[0].id == LayerId::Base && base_contract(r.layers@[0].keys@),
        r.layers@[0].name == "Base",
        r.layers@[0].description == "Raw ANSI positions interpreted by host-owned Colemak-DH or Russian, with familiar thumb modifiers and mirrored index-finger Shift holds.",
        r.layers@[0].keys@ == base_keys(),
        r.layers@[1].id == LayerId::Nav && nav_contract(r.layers@[1].keys@),
        r.layers@[1].name == "Nav / WM",
        r.layers@[1].description == "Hold Enter/Nav: WASD-shaped arrows on the left, AeroSpace workspaces and hold modifiers on the right, and literal F1\u{2013}F12 below.",
        r.layers@[1].keys@ == nav_keys(),
        r.layers@[2].id == LayerId::Num && num_contract(r.layers@[2].keys@),
        r.layers@[2].name == "Num / Symbol",
        r.layers@[2].description == "Hold Backspace for a stateless Num / Symbol layer: 1\u{2013}0 occupy the home row, and 4/7 preserve the same mirrored index-finger hold-Shifts as Base.",
        r.layers@[2].keys@ == num_keys(),
        guards_defined(r.layers@),
        layout_verdict(r.layers@) == Ok::<(), crate::model::LayoutError>(()),
        spec_guard_verdict(r.layers@) is None,
        r.title == "Dao44 \u{B7} transition-first layout",
        r.revision == "v1 \u{B7} executable draft",
        r.host_legends@.len() == 2,
        r.host_legends@[0].id@ == "colemak-dh-ansi"@,
        r.host_legends@[0].name@ == "Colemak-DH ANSI"@,
        r.host_legends@[0].keys@ == colemak_keys(),
        r.host_legends@[1].id@ == "russian"@,
        r.host_legends@[1].name@ == "Russian"@,
        r.host_legends@[1].keys@ == russian_keys(),
        r.open_questions@ == seq![
            "Tune the 180 ms home-row Shift threshold on physical hardware without changing its pure timing rule.",
            "Decide whether the Hyper-gated admin strip should become a silent firmware-only Admin layer before switching Bluetooth hosts.",
            "Confirm the desired MacBook-style system actions for F1\u{2013}F12; generated firmware currently emits literal F-key codes.",
            "Leave unused Num bottom-row positions empty until real use reveals a need.",
        ],
{
    let layers = vec![base(), nav(), num()];
    proof {
        lemma_dao44_layers(layers@);
    }
    LayoutSpec {
        title: "Dao44 \u{B7} transition-first layout",
        revision: "v1 \u{B7} executable draft",
        layers,
        host_legends: vec![colemak(), russian()],
        open_questions: vec![
            "Tune the 180 ms home-row Shift threshold on physical hardware without changing its pure timing rule.",
            "Decide whether the Hyper-gated admin strip should become a silent firmware-only Admin layer before switching Bluetooth hosts.",
            "Confirm the desired MacBook-style system actions for F1\u{2013}F12; generated firmware currently emits literal F-key codes.",
            "Leave unused Num bottom-row positions empty until real use reveals a need.",
        ],
    }
}

/// Three layers keeping the Base, Nav and Num contracts pass every check.
proof fn lemma_dao44_layers(layers: Seq<Layer>)
    requires
        layers.len() == 3,
        layers[0].id == LayerId::Base && base_contract(layers[0].keys@),
        layers[1].id == LayerId::Nav && nav_contract(layers[1].keys@),
        layers[2].id == LayerId::Num && num_contract(layers[2].keys@),
    ensures
        guards_defined(layers),
        layout_verdict(layers) == Ok::<(), crate::model::LayoutError>(()),
        spec_guard_verdict(layers) is None,
{
    reveal_with_fuel(first_miscounted, 4);
    reveal_with_fuel(find_layer, 4);
    reveal_with_fuel(layer_guards, 4);
    let b = layers[0].keys@;
    let v = layers[1].keys@;
    let n = layers[2].keys@;
    assert(layers.drop_first()[0] == layers[1]);
    assert(layers.drop_first().drop_first()[0] == layers[2]);
    assert(layers.drop_first().drop_first().drop_first().len() == 0);
    assert(find_layer(layers, LayerId::Base) == Some(layers[0]));
    assert(find_layer(layers, LayerId::Nav) == Some(layers[1]));
    assert(find_layer(layers, LayerId::Num) == Some(layers[2]));
    assert(first_miscounted(layers) is None);
    assert(unsettled_key(b, v, n) is None);
    lemma_key_guards(b);
    lemma_key_guards(v);
    lemma_key_guards(n);
    assert(distinct_guards(n)) by {
        assert forall|i: int, j: int|
            0 <= i < j < n.len() && (#[trigger] n[i]) is Guarded && (#[trigger] n[j]) is Guarded
                implies n[i]->action != n[j]->action by {
            if 32 <= i < 37 {
                assert(is_guard(n[i], GuardedAction::SelectBluetooth((i - 32) as u8)));
            }
            if 32 <= j < 37 {
                assert(is_guard(n[j], GuardedAction::SelectBluetooth((j - 32) as u8)));
            }
        }
    }
    assert(layers.drop_last().drop_last().drop_last().len() == 0);
    assert(layers.drop_last().drop_last().last() == layers[0]);
    assert(layers.drop_last().last() == layers[1]);
    assert(layers.last() == layers[2]);
    let g = layer_guards(layers);
    assert(g =~= key_guards(n));
    assert forall|k: int| 0 <= k < g.len() implies guard_id_defined(#[trigger] g[k]) by {
        let i = choose|i: int| 0 <= i < n.len() && (#[trigger] n[i]) is Guarded && n[i]->action == g[k];
        if 32 <= i < 37 {
            assert(is_guard(n[i], GuardedAction::SelectBluetooth((i - 32) as u8)));
        }
    }
    lemma_guard_ids_unique(g);
}
} // verus!
