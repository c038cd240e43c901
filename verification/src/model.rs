//! The typed layout model: layers of 44 key actions, what each action
//! emits in ZMK devicetree syntax and how the preview presents it, and the
//! settled invariants a layout must keep.
use std::collections::BTreeMap;
use vstd::prelude::*;
use crate::text::{chars_eq, decimal, lemma_decimal_injective, push_decimal, to_chars};

verus! {

/// The number of physical keys on a Dao44: 14 top, 12 home, 12 bottom, 6 thumb.
pub const KEY_COUNT: usize = 44;

/// How long a home-row Shift key must be held before it acts as Shift.
pub const SHIFT_TAPPING_TERM_MS: u16 = 180;

// ---------------------------------------------------------------------------
// Layers, modifiers and categories
// ---------------------------------------------------------------------------

#[derive(Clone, Copy, Debug, Eq, PartialEq, Structural)]
pub enum LayerId {
    Base,
    Nav,
    Num,
}

pub open spec fn layer_ident(id: LayerId) -> Seq<char> {
    match id {
        LayerId::Base => "BASE"@,
        LayerId::Nav => "NAV"@,
        LayerId::Num => "NUM"@,
    }
}

pub open spec fn layer_slug(id: LayerId) -> Seq<char> {
    match id {
        LayerId::Base => "base"@,
        LayerId::Nav => "nav-wm"@,
        LayerId::Num => "num-symbol"@,
    }
}

impl LayerId {
    /// The layer's name in the generated keymap.
    pub fn ident(self) -> (r: &'static str)
        ensures
            r@ == layer_ident(self),
    {
        match self {
            LayerId::Base => "BASE",
            LayerId::Nav => "NAV",
            LayerId::Num => "NUM",
        }
    }

    /// The layer's identifier in the preview.
    pub fn slug(self) -> (r: &'static str)
        ensures
            r@ == layer_slug(self),
    {
        match self {
            LayerId::Base => "base",
            LayerId::Nav => "nav-wm",
            LayerId::Num => "num-symbol",
        }
    }
}

#[derive(Clone, Copy, Debug, Eq, PartialEq, Structural)]
pub enum Modifier {
    LeftShift,
    RightControl,
    RightAlt,
    RightGui,
    RightShift,
}

pub open spec fn modifier_zmk(m: Modifier) -> Seq<char> {
    match m {
        Modifier::LeftShift => "LSHFT"@,
        Modifier::RightControl => "RCTRL"@,
        Modifier::RightAlt => "RALT"@,
        Modifier::RightGui => "RGUI"@,
        Modifier::RightShift => "RSHFT"@,
    }
}

pub open spec fn modifier_label(m: Modifier) -> Seq<char> {
    match m {
        Modifier::RightControl => "Ctrl"@,
        Modifier::RightAlt => "Option"@,
        Modifier::RightGui => "Cmd"@,
        Modifier::LeftShift | Modifier::RightShift => "Shift"@,
    }
}

impl Modifier {
    /// The ZMK keycode of the modifier.
    pub fn zmk(self) -> (r: &'static str)
        ensures
            r@ == modifier_zmk(self),
    {
        match self {
            Modifier::LeftShift => "LSHFT",
            Modifier::RightControl => "RCTRL",
            Modifier::RightAlt => "RALT",
            Modifier::RightGui => "RGUI",
            Modifier::RightShift => "RSHFT",
        }
    }

    /// The macOS name of the modifier.
    pub fn label(self) -> (r: &'static str)
        ensures
            r@ == modifier_label(self),
    {
        match self {
            Modifier::RightControl => "Ctrl",
            Modifier::RightAlt => "Option",
            Modifier::RightGui => "Cmd",
            Modifier::LeftShift | Modifier::RightShift => "Shift",
        }
    }
}

#[derive(Clone, Copy, Debug, Eq, PartialEq, Structural)]
pub enum Category {
    Alpha,
    Modifier,
    Layer,
    Navigation,
    Symbol,
    System,
    Connection,
    Danger,
    Unassigned,
}

pub open spec fn category_slug(c: Category) -> Seq<char> {
    match c {
        Category::Alpha => "alpha"@,
        Category::Modifier => "modifier"@,
        Category::Layer => "layer"@,
        Category::Navigation => "navigation"@,
        Category::Symbol => "symbol"@,
        Category::System => "system"@,
        Category::Connection => "connection"@,
        Category::Danger => "danger"@,
        Category::Unassigned => "unassigned"@,
    }
}

impl Category {
    /// The category's identifier in the preview.
    pub fn slug(self) -> (r: &'static str)
        ensures
            r@ == category_slug(self),
    {
        match self {
            Category::Alpha => "alpha",
            Category::Modifier => "modifier",
            Category::Layer => "layer",
            Category::Navigation => "navigation",
            Category::Symbol => "symbol",
            Category::System => "system",
            Category::Connection => "connection",
            Category::Danger => "danger",
            Category::Unassigned => "unassigned",
        }
    }
}

// ---------------------------------------------------------------------------
// Hyper-gated actions
// ---------------------------------------------------------------------------

/// A dangerous or connection action that needs the complete Hyper chord.
#[derive(Clone, Copy, Debug, Eq, PartialEq, Structural)]
pub enum GuardedAction {
    ClearCurrentBluetooth,
    ClearAllBluetooth,
    Reset,
    Bootloader,
    /// A Bluetooth profile, numbered from 0.
    SelectBluetooth(u8),
}

/// The action's identifier can be written: a profile number plus one fits in a `u8`.
pub open spec fn guard_id_defined(g: GuardedAction) -> bool {
    g matches GuardedAction::SelectBluetooth(p) ==> p < 255
}

pub open spec fn guard_id(g: GuardedAction) -> Seq<char> {
    match g {
        GuardedAction::ClearCurrentBluetooth => "clear_bt"@,
        GuardedAction::ClearAllBluetooth => "clear_all"@,
        GuardedAction::Reset => "reset"@,
        GuardedAction::Bootloader => "bootloader"@,
        GuardedAction::SelectBluetooth(p) => "bt_"@ + decimal((p + 1) as nat),
    }
}

pub open spec fn guard_zmk(g: GuardedAction) -> Seq<char> {
    match g {
        GuardedAction::ClearCurrentBluetooth => "&bt BT_CLR"@,
        GuardedAction::ClearAllBluetooth => "&bt BT_CLR_ALL"@,
        GuardedAction::Reset => "&sys_reset"@,
        GuardedAction::Bootloader => "&bootloader"@,
        GuardedAction::SelectBluetooth(p) => "&bt BT_SEL "@ + decimal(p as nat),
    }
}

impl GuardedAction {
    /// The identifier of the action's generated gate; profiles count from 1.
    pub fn id(self) -> (r: String)
        requires
            guard_id_defined(self),
        ensures
            r@ == guard_id(self),
    {
        match self {
            GuardedAction::ClearCurrentBluetooth => String::from_str("clear_bt"),
            GuardedAction::ClearAllBluetooth => String::from_str("clear_all"),
            GuardedAction::Reset => String::from_str("reset"),
            GuardedAction::Bootloader => String::from_str("bootloader"),
            GuardedAction::SelectBluetooth(profile) => {
                let mut s = String::from_str("bt_");
                push_decimal(&mut s, (profile + 1) as u32);
                s
            },
        }
    }

    /// The behavior the action stands for, in keymap syntax.
    pub fn zmk(self) -> (r: String)
        ensures
            r@ == guard_zmk(self),
    {
        match self {
            GuardedAction::ClearCurrentBluetooth => String::from_str("&bt BT_CLR"),
            GuardedAction::ClearAllBluetooth => String::from_str("&bt BT_CLR_ALL"),
            GuardedAction::Reset => String::from_str("&sys_reset"),
            GuardedAction::Bootloader => String::from_str("&bootloader"),
            GuardedAction::SelectBluetooth(profile) => {
                let mut s = String::from_str("&bt BT_SEL ");
                push_decimal(&mut s, profile as u32);
                s
            },
        }
    }
}


// ---------------------------------------------------------------------------
// Key actions
// ---------------------------------------------------------------------------

/// What one key does on one layer.
#[derive(Clone, Copy, Debug, Eq, PartialEq)]
pub enum Action {
    /// Intentionally unassigned.
    Unassigned,
    /// Falls through to the Base layer.
    Transparent,
    Key { code: &'static str, label: &'static str, category: Category, secondary: &'static str },
    /// Tap for `tap_code`, hold for `modifier`.
    ModTap {
        modifier: Modifier,
        tap_code: &'static str,
        label: &'static str,
        tap: &'static str,
        secondary: &'static str,
    },
    /// Tap for Escape, hold for Ctrl+Option+Command.
    HyperEscape,
    /// Tap for Backspace, hold for the Num layer.
    BackspaceNum,
    /// Tap for Enter, hold for the Nav layer.
    NavEnter,
    /// An AeroSpace workspace, optionally a modifier when held.
    Workspace { number: u8, hold: Option<Modifier> },
    /// A literal function key.
    Function { number: u8, system_label: &'static str },
    /// An action behind the complete Hyper chord.
    Guarded {
        label: &'static str,
        detail: &'static str,
        action: GuardedAction,
        category: Category,
    },
}

/// Every identifier the action's keymap needs can be written.
pub open spec fn action_defined(a: Action) -> bool {
    a matches Action::Guarded { action, .. } ==> guard_id_defined(action)
}

/// The chord that focuses workspace `number`: Hyper with the digit key.
pub open spec fn workspace_chord(number: u8) -> Seq<char> {
    let digit = if number == 10 {
        "N0"@
    } else {
        "N"@ + decimal(number as nat)
    };
    "LC(LA(LG("@ + digit + ")))"@
}

/// The action in ZMK devicetree syntax.
pub open spec fn action_zmk(a: Action) -> Seq<char> {
    match a {
        Action::Unassigned => "&none"@,
        Action::Transparent => "&trans"@,
        Action::Key { code, .. } => "&kp "@ + code@,
        Action::ModTap { modifier, tap_code, .. } => "&shift_tap "@ + modifier_zmk(modifier) + " "@
            + tap_code@,
        Action::HyperEscape => "&mt LC(LA(LGUI)) ESC"@,
        Action::BackspaceNum => "&lt NUM BSPC"@,
        Action::NavEnter => "&lt NAV RET"@,
        Action::Workspace { number, hold } => match hold {
            Some(m) => "&mt "@ + modifier_zmk(m) + " "@ + workspace_chord(number),
            None => "&kp "@ + workspace_chord(number),
        },
        Action::Function { number, .. } => "&kp F"@ + decimal(number as nat),
        Action::Guarded { action, .. } => "&guard_"@ + guard_id(action) + "_ctl"@,
    }
}

/// The binding of a tap-hold key is ZMK's `shift_tap` with the key's own
/// hold modifier and tap code; the modifiers are written `LSHFT`, `RCTRL`,
/// `RALT`, `RGUI` and `RSHFT`, so two tap-hold keys with the same tap and
/// different holds are bound differently.
pub proof fn lemma_mod_tap_binding(
    modifier: Modifier,
    other: Modifier,
    tap_code: &'static str,
    label: &'static str,
    tap: &'static str,
    secondary: &'static str,
)
    ensures
        action_zmk(Action::ModTap { modifier, tap_code, label, tap, secondary }) == "&shift_tap "@
            + modifier_zmk(modifier) + " "@ + tap_code@,
        modifier_zmk(Modifier::LeftShift) == "LSHFT"@,
        modifier_zmk(Modifier::RightControl) == "RCTRL"@,
        modifier_zmk(Modifier::RightAlt) == "RALT"@,
        modifier_zmk(Modifier::RightGui) == "RGUI"@,
        modifier_zmk(Modifier::RightShift) == "RSHFT"@,
        modifier != other ==> action_zmk(Action::ModTap { modifier, tap_code, label, tap, secondary })
            != action_zmk(Action::ModTap { modifier: other, tap_code, label, tap, secondary }),
{
    reveal_strlit("LSHFT");
    reveal_strlit("RCTRL");
    reveal_strlit("RALT");
    reveal_strlit("RGUI");
    reveal_strlit("RSHFT");
    let x = modifier_zmk(modifier);
    let y = modifier_zmk(other);
    let p = "&shift_tap "@;
    let q = " "@ + tap_code@;
    let s1 = p + x + q;
    let s2 = p + y + q;
    if modifier != other && s1 == s2 {
        assert(s1.len() == p.len() + x.len() + q.len());
        assert(s2.len() == p.len() + y.len() + q.len());
        assert(x.len() == y.len());
        assert(s1.subrange(p.len() as int, (p.len() + x.len()) as int) =~= x);
        assert(s2.subrange(p.len() as int, (p.len() + y.len()) as int) =~= y);
        assert(x == y);
        assert(x.len() == y.len() && x[0] == y[0] && x[1] == y[1]);
        assert(false);
    }
    assert(action_zmk(Action::ModTap { modifier, tap_code, label, tap, secondary }) =~= s1);
    assert(action_zmk(Action::ModTap { modifier: other, tap_code, label, tap, secondary }) =~= s2);
}

/// The keymap binding of each kind of action: a key taps its own code, a
/// function key its number, a workspace key the Hyper chord of its digit
/// (`N0` for workspace 10) and holds its modifier when it has one, and a
/// Hyper-gated action calls its own gate.
pub proof fn lemma_action_bindings(a: Action)
    ensures
        a matches Action::Key { code, .. } ==> action_zmk(a) == "&kp "@ + code@,
        a matches Action::Function { number, .. } ==> action_zmk(a) == "&kp F"@ + decimal(
            number as nat,
        ),
        a matches Action::Guarded { action, .. } ==> action_zmk(a) == "&guard_"@ + guard_id(action)
            + "_ctl"@,
        a matches Action::Workspace { number, hold } ==> {
            let digit = if number == 10 {
                "N0"@
            } else {
                "N"@ + decimal(number as nat)
            };
            let chord = "LC(LA(LG("@ + digit + ")))"@;
            action_zmk(a) == match hold {
                Some(m) => "&mt "@ + modifier_zmk(m) + " "@ + chord,
                None => "&kp "@ + chord,
            }
        },
        a == Action::Unassigned ==> action_zmk(a) == "&none"@,
        a == Action::Transparent ==> action_zmk(a) == "&trans"@,
        a == Action::HyperEscape ==> action_zmk(a) == "&mt LC(LA(LGUI)) ESC"@,
        a == Action::BackspaceNum ==> action_zmk(a) == "&lt NUM BSPC"@,
        a == Action::NavEnter ==> action_zmk(a) == "&lt NAV RET"@,
{
}

/// A Bluetooth profile's gate is named by its number counted from 1 and
/// selects the profile counted from 0, and different Hyper-gated actions
/// call different gates.
pub proof fn lemma_guard_bindings(g: GuardedAction, other: GuardedAction)
    ensures
        g matches GuardedAction::SelectBluetooth(p) ==> guard_id(g) == "bt_"@ + decimal((p + 1) as nat)
            && guard_zmk(g) == "&bt BT_SEL "@ + decimal(p as nat),
        guard_id_defined(g) && guard_id_defined(other) && g != other ==> action_zmk(
            Action::Guarded { label: "", detail: "", action: g, category: Category::Danger },
        ) != action_zmk(
            Action::Guarded { label: "", detail: "", action: other, category: Category::Danger },
        ),
{
    if guard_id_defined(g) && guard_id_defined(other) && g != other {
        let p = "&guard_"@;
        let q = "_ctl"@;
        let x = guard_id(g);
        let y = guard_id(other);
        let s1 = p + x + q;
        let s2 = p + y + q;
        if s1 == s2 {
            assert(s1.len() == p.len() + x.len() + q.len());
            assert(s2.len() == p.len() + y.len() + q.len());
            assert(s1.subrange(p.len() as int, (p.len() + x.len()) as int) =~= x);
            assert(s2.subrange(p.len() as int, (p.len() + y.len()) as int) =~= y);
            lemma_guard_id_injective(g, other);
        }
        assert(action_zmk(Action::Guarded { label: "", detail: "", action: g, category: Category::Danger })
            =~= s1);
        assert(action_zmk(
            Action::Guarded { label: "", detail: "", action: other, category: Category::Danger },
        ) =~= s2);
    }
}

/// Each layer, category and modifier has its own name: different layers
/// have different identifiers and slugs, different categories different
/// slugs, and the modifiers read Shift, Ctrl, Option and Cmd.
pub proof fn lemma_distinct_names(a: LayerId, b: LayerId, c: Category, d: Category)
    ensures
        a != b ==> layer_ident(a) != layer_ident(b) && layer_slug(a) != layer_slug(b),
        c != d ==> category_slug(c) != category_slug(d),
        modifier_label(Modifier::LeftShift) == "Shift"@,
        modifier_label(Modifier::RightShift) == "Shift"@,
        modifier_label(Modifier::RightControl) == "Ctrl"@,
        modifier_label(Modifier::RightAlt) == "Option"@,
        modifier_label(Modifier::RightGui) == "Cmd"@,
{
    reveal_strlit("BASE");
    reveal_strlit("NAV");
    reveal_strlit("NUM");
    reveal_strlit("base");
    reveal_strlit("nav-wm");
    reveal_strlit("num-symbol");
    reveal_strlit("alpha");
    reveal_strlit("modifier");
    reveal_strlit("layer");
    reveal_strlit("navigation");
    reveal_strlit("symbol");
    reveal_strlit("system");
    reveal_strlit("connection");
    reveal_strlit("danger");
    reveal_strlit("unassigned");
    if a != b && layer_ident(a) == layer_ident(b) {
        assert(layer_ident(a)[1] == layer_ident(b)[1] && layer_ident(a)[2] == layer_ident(b)[2]);
    }
    if a != b && layer_slug(a) == layer_slug(b) {
        assert(layer_slug(a).len() == layer_slug(b).len());
    }
    if c != d && category_slug(c) == category_slug(d) {
        assert(category_slug(c).len() == category_slug(d).len());
        assert(category_slug(c)[0] == category_slug(d)[0]);
        assert(category_slug(c)[1] == category_slug(d)[1]);
        assert(category_slug(c)[2] == category_slug(d)[2]);
    }
}

/// How the preview presents one action.
pub struct PreviewView {
    pub primary: Seq<char>,
    pub tap: Seq<char>,
    pub hold: Option<Seq<char>>,
    pub hold_face: Option<Seq<char>>,
    pub secondary: Option<Seq<char>>,
    pub category: Seq<char>,
    pub note: Option<Seq<char>>,
}

pub open spec fn opt_str_view(o: Option<String>) -> Option<Seq<char>> {
    match o {
        Some(s) => Some(s@),
        None => None,
    }
}

/// A preview with a primary legend, a tap description and a category.
pub open spec fn preview_of(primary: Seq<char>, tap: Seq<char>, category: Category) -> PreviewView {
    PreviewView {
        primary,
        tap,
        hold: None,
        hold_face: None,
        secondary: None,
        category: category_slug(category),
        note: None,
    }
}

pub open spec fn with_hold(p: PreviewView, value: Seq<char>) -> PreviewView {
    PreviewView { hold: Some(value), ..p }
}

pub open spec fn with_hold_face(p: PreviewView, value: Seq<char>) -> PreviewView {
    PreviewView { hold_face: Some(value), ..p }
}

/// A secondary legend, left out when empty.
pub open spec fn with_secondary(p: PreviewView, value: Seq<char>) -> PreviewView {
    if value.len() > 0 {
        PreviewView { secondary: Some(value), ..p }
    } else {
        p
    }
}

pub open spec fn with_note(p: PreviewView, value: Seq<char>) -> PreviewView {
    PreviewView { note: Some(value), ..p }
}

/// The note on every home-row Shift key.
pub open spec fn shift_note() -> Seq<char> {
    "Tap wins until the "@ + decimal(SHIFT_TAPPING_TERM_MS as nat)
        + " ms threshold; other key presses do not force Shift."@
}

/// How the preview presents an action.
pub open spec fn action_preview(a: Action) -> PreviewView {
    match a {
        Action::Unassigned => preview_of("\u{2014}"@, "Intentionally unassigned"@, Category::Unassigned),
        Action::Transparent => preview_of("\u{25BD}"@, "Transparent to Base"@, Category::Unassigned),
        Action::Key { label, category, secondary, .. } => with_secondary(
            preview_of(label@, label@, category),
            secondary@,
        ),
        Action::ModTap { modifier, label, tap, secondary, .. } => with_note(
            with_secondary(
                with_hold_face(
                    with_hold(preview_of(label@, tap@, Category::Modifier), modifier_label(modifier)),
                    "hold: Shift"@,
                ),
                secondary@,
            ),
            shift_note(),
        ),
        Action::HyperEscape => with_note(
            with_hold_face(
                with_hold(
                    preview_of("Esc"@, "Escape"@, Category::Modifier),
                    "Hyper \u{B7} Ctrl+Option+Command"@,
                ),
                "hold: Hyper"@,
            ),
            "Remote but available on every layer."@,
        ),
        Action::BackspaceNum => with_secondary(
            with_hold_face(
                with_hold(
                    preview_of("Backspace"@, "Backspace"@, Category::Layer),
                    "Momentary Num / Symbol"@,
                ),
                "hold: Num"@,
            ),
            "Release always returns to Base"@,
        ),
        Action::NavEnter => with_secondary(
            with_hold_face(
                with_hold(
                    preview_of("Enter"@, "Return / Enter"@, Category::Layer),
                    "Momentary Nav / WM"@,
                ),
                "hold: Nav"@,
            ),
            "Nav release is intended to return to Base"@,
        ),
        Action::Workspace { number, hold } => {
            let n = decimal(number as nat);
            let base = with_secondary(
                preview_of(
                    "WS "@ + n,
                    "Focus AeroSpace workspace "@ + n,
                    Category::System,
                ),
                "With Shift: move window to workspace "@ + n,
            );
            match hold {
                Some(m) => with_hold_face(
                    with_hold(base, modifier_label(m)),
                    "hold: "@ + modifier_label(m),
                ),
                None => base,
            }
        },
        Action::Function { number, system_label } => {
            let f = "F"@ + decimal(number as nat);
            with_note(
                with_secondary(
                    preview_of(f, f, Category::System),
                    "Planned Hyper action: "@ + system_label@,
                ),
                "Literal F-key generation is implemented; firmware-native Mac system morph remains an explicit design question."@,
            )
        },
        Action::Guarded { label, detail, category, .. } => with_note(
            with_secondary(
                with_hold_face(
                    preview_of(
                        label@,
                        "Unassigned without the complete Hyper chord"@,
                        category,
                    ),
                    "Hyper + tap"@,
                ),
                detail@,
            ),
            "The generated keymap requires Ctrl+Option+Command through nested mod-morph gates."@,
        ),
    }
}

/// The preview shows an action's own legends: a key's label, and its
/// secondary legend when there is one; a tap-hold key's label, tap legend,
/// hold modifier and secondary legend; a function key's planned system
/// action; and a Hyper-gated action's label with its detail as the
/// secondary legend, whatever the label says.
pub proof fn lemma_preview_legends(a: Action)
    ensures
        a matches Action::Key { label, category, secondary, .. } ==> {
            &&& action_preview(a).primary == label@
            &&& action_preview(a).tap == label@
            &&& action_preview(a).category == category_slug(category)
            &&& action_preview(a).secondary == if secondary@.len() > 0 {
                Some(secondary@)
            } else {
                None
            }
        },
        a matches Action::ModTap { modifier, label, tap, secondary, .. } ==> {
            &&& action_preview(a).primary == label@
            &&& action_preview(a).tap == tap@
            &&& action_preview(a).hold == Some(modifier_label(modifier))
            &&& action_preview(a).category == category_slug(Category::Modifier)
            &&& action_preview(a).secondary == if secondary@.len() > 0 {
                Some(secondary@)
            } else {
                None
            }
        },
        a matches Action::Function { system_label, .. } ==> action_preview(a).secondary == Some(
            "Planned Hyper action: "@ + system_label@,
        ),
        a matches Action::Workspace { number, hold } ==> {
            &&& action_preview(a).primary == "WS "@ + decimal(number as nat)
            &&& action_preview(a).secondary == Some(
                "With Shift: move window to workspace "@ + decimal(number as nat),
            )
            &&& action_preview(a).hold == match hold {
                Some(m) => Some(modifier_label(m)),
                None => None::<Seq<char>>,
            }
        },
        a == Action::HyperEscape ==> action_preview(a).tap == "Escape"@ && action_preview(a).hold
            == Some("Hyper \u{B7} Ctrl+Option+Command"@),
        a == Action::BackspaceNum ==> action_preview(a).tap == "Backspace"@ && action_preview(a).hold
            == Some("Momentary Num / Symbol"@),
        a == Action::NavEnter ==> action_preview(a).tap == "Return / Enter"@ && action_preview(a).hold
            == Some("Momentary Nav / WM"@),
        a == Action::Unassigned || a == Action::Transparent ==> action_preview(a).hold is None
            && action_preview(a).category == category_slug(Category::Unassigned),
        a matches Action::Guarded { label, detail, category, .. } ==> {
            &&& action_preview(a).primary == label@
            &&& action_preview(a).category == category_slug(category)
            &&& action_preview(a).secondary == if detail@.len() > 0 {
                Some(detail@)
            } else {
                None
            }
        },
{
    reveal_strlit("Planned Hyper action: ");
    reveal_strlit("With Shift: move window to workspace ");
}

/// How the preview presents one key.
#[derive(Debug)]
pub struct PreviewAction {
    pub primary: String,
    pub tap: String,
    pub hold: Option<String>,
    pub hold_face: Option<String>,
    pub secondary: Option<String>,
    pub category: &'static str,
    pub note: Option<String>,
}

impl View for PreviewAction {
    type V = PreviewView;

    open spec fn view(&self) -> PreviewView {
        PreviewView {
            primary: self.primary@,
            tap: self.tap@,
            hold: opt_str_view(self.hold),
            hold_face: opt_str_view(self.hold_face),
            secondary: opt_str_view(self.secondary),
            category: self.category@,
            note: opt_str_view(self.note),
        }
    }
}

impl PreviewAction {
    pub fn new(primary: &str, tap: &str, category: Category) -> (r: PreviewAction)
        ensures
            r@ == preview_of(primary@, tap@, category),
    {
        PreviewAction {
            primary: String::from_str(primary),
            tap: String::from_str(tap),
            hold: None,
            hold_face: None,
            secondary: None,
            category: category.slug(),
            note: None,
        }
    }

    pub fn hold(self, value: &str) -> (r: PreviewAction)
        ensures
            r@ == with_hold(self@, value@),
    {
        PreviewAction { hold: Some(String::from_str(value)), ..self }
    }

    pub fn hold_face(self, value: &str) -> (r: PreviewAction)
        ensures
            r@ == with_hold_face(self@, value@),
    {
        PreviewAction { hold_face: Some(String::from_str(value)), ..self }
    }

    /// Sets the secondary legend unless `value` is empty.
    pub fn secondary(self, value: &str) -> (r: PreviewAction)
        ensures
            r@ == with_secondary(self@, value@),
    {
        if value.is_empty() {
            self
        } else {
            PreviewAction { secondary: Some(String::from_str(value)), ..self }
        }
    }

    pub fn note(self, value: &str) -> (r: PreviewAction)
        ensures
            r@ == with_note(self@, value@),
    {
        PreviewAction { note: Some(String::from_str(value)), ..self }
    }
}

fn concat(a: &str, b: &str) -> (r: String)
    ensures
        r@ == a@ + b@,
{
    let mut s = String::from_str(a);
    s.append(b);
    s
}

fn with_decimal(prefix: &str, n: u32) -> (r: String)
    ensures
        r@ == prefix@ + decimal(n as nat),
{
    let mut s = String::from_str(prefix);
    push_decimal(&mut s, n);
    s
}

fn workspace_chord_exec(number: u8) -> (r: String)
    ensures
        r@ == workspace_chord(number),
{
    let digit = if number == 10 {
        String::from_str("N0")
    } else {
        with_decimal("N", number as u32)
    };
    let mut chord = String::from_str("LC(LA(LG(");
    chord.append(digit.as_str());
    chord.append(")))");
    chord
}

impl Action {
    /// The action in ZMK devicetree syntax.
    pub fn zmk(self) -> (r: String)
        requires
            action_defined(self),
        ensures
            r@ == action_zmk(self),
    {
        match self {
            Action::Unassigned => String::from_str("&none"),
            Action::Transparent => String::from_str("&trans"),
            Action::Key { code, .. } => concat("&kp ", code),
            Action::ModTap { modifier, tap_code, .. } => {
                let mut s = String::from_str("&shift_tap ");
                s.append(modifier.zmk());
                s.append(" ");
                s.append(tap_code);
                s
            },
            Action::HyperEscape => String::from_str("&mt LC(LA(LGUI)) ESC"),
            Action::BackspaceNum => String::from_str("&lt NUM BSPC"),
            Action::NavEnter => String::from_str("&lt NAV RET"),
            Action::Workspace { number, hold } => {
                let chord = workspace_chord_exec(number);
                match hold {
                    Some(modifier) => {
                        let mut s = String::from_str("&mt ");
                        s.append(modifier.zmk());
                        s.append(" ");
                        s.append(chord.as_str());
                        s
                    },
                    None => concat("&kp ", chord.as_str()),
                }
            },
            Action::Function { number, .. } => with_decimal("&kp F", number as u32),
            Action::Guarded { action, .. } => {
                let mut s = String::from_str("&guard_");
                s.append(action.id().as_str());
                s.append("_ctl");
                s
            },
        }
    }

    /// How the preview presents the action.
    pub fn preview(self) -> (r: PreviewAction)
        ensures
            r@ == action_preview(self),
    {
        match self {
            Action::Unassigned => PreviewAction::new(
                "\u{2014}",
                "Intentionally unassigned",
                Category::Unassigned,
            ),
            Action::Transparent => PreviewAction::new(
                "\u{25BD}",
                "Transparent to Base",
                Category::Unassigned,
            ),
            Action::Key { label, category, secondary, .. } => PreviewAction::new(
                label,
                label,
                category,
            ).secondary(secondary),
            Action::ModTap { modifier, label, tap, secondary, .. } => {
                let note = with_decimal("Tap wins until the ", SHIFT_TAPPING_TERM_MS as u32);
                let note = concat(note.as_str(), " ms threshold; other key presses do not force Shift.");
                PreviewAction::new(label, tap, Category::Modifier).hold(modifier.label()).hold_face(
                    "hold: Shift",
                ).secondary(secondary).note(note.as_str())
            },
            Action::HyperEscape => PreviewAction::new("Esc", "Escape", Category::Modifier).hold(
                "Hyper \u{B7} Ctrl+Option+Command",
            ).hold_face("hold: Hyper").note("Remote but available on every layer."),
            Action::BackspaceNum => PreviewAction::new(
                "Backspace",
                "Backspace",
                Category::Layer,
            ).hold("Momentary Num / Symbol").hold_face("hold: Num").secondary(
                "Release always returns to Base",
            ),
            Action::NavEnter => PreviewAction::new("Enter", "Return / Enter", Category::Layer).hold(
                "Momentary Nav / WM",
            ).hold_face("hold: Nav").secondary("Nav release is intended to return to Base"),
            Action::Workspace { number, hold } => {
                let primary = with_decimal("WS ", number as u32);
                let tap = with_decimal("Focus AeroSpace workspace ", number as u32);
                let secondary = with_decimal("With Shift: move window to workspace ", number as u32);
                let action = PreviewAction::new(
                    primary.as_str(),
                    tap.as_str(),
                    Category::System,
                ).secondary(secondary.as_str());
                match hold {
                    Some(modifier) => {
                        let face = concat("hold: ", modifier.label());
                        PreviewAction {
                            hold: Some(String::from_str(modifier.label())),
                            hold_face: Some(face),
                            ..action
                        }
                    },
                    None => action,
                }
            },
            Action::Function { number, system_label } => {
                let f = with_decimal("F", number as u32);
                let planned = concat("Planned Hyper action: ", system_label);
                PreviewAction::new(f.as_str(), f.as_str(), Category::System).secondary(
                    planned.as_str(),
                ).note(
                    "Literal F-key generation is implemented; firmware-native Mac system morph remains an explicit design question.",
                )
            },
            Action::Guarded { label, detail, category, .. } => PreviewAction::new(
                label,
                "Unassigned without the complete Hyper chord",
                category,
            ).hold_face("Hyper + tap").secondary(detail).note(
                "The generated keymap requires Ctrl+Option+Command through nested mod-morph gates.",
            ),
        }
    }
}

// ---------------------------------------------------------------------------
// Layers and the layout
// ---------------------------------------------------------------------------

/// One layer: an action for each physical key, `P00` first.
#[derive(Clone, Debug)]
pub struct Layer {
    pub id: LayerId,
    pub name: &'static str,
    pub description: &'static str,
    pub keys: Vec<Action>,
}

/// Labels a host keyboard layout shows on raw ANSI positions.
#[derive(Clone, Debug)]
pub struct HostLegend {
    pub id: &'static str,
    pub name: &'static str,
    /// Physical position (`P01`...) and the character the host produces there.
    pub keys: &'static [(&'static str, &'static str)],
}

/// The whole layout with its preview legends and open design questions.
#[derive(Clone, Debug)]
pub struct LayoutSpec {
    pub title: &'static str,
    pub revision: &'static str,
    pub layers: Vec<Layer>,
    pub host_legends: Vec<HostLegend>,
    pub open_questions: Vec<&'static str>,
}

/// A layer as the preview shows it: the presentation of each position.
pub struct PreviewLayer {
    pub id: &'static str,
    pub name: &'static str,
    pub description: &'static str,
    pub keys: BTreeMap<String, PreviewAction>,
}

/// A host legend as the preview shows it.
pub struct PreviewHostLegend {
    pub id: &'static str,
    pub name: &'static str,
    pub keys: BTreeMap<&'static str, &'static str>,
}

/// A named sequence of key presses the preview can walk through.
pub struct Sequence {
    pub id: &'static str,
    pub name: &'static str,
    pub description: &'static str,
    pub steps: Vec<SequenceStep>,
}

/// One key press of a sequence.
pub struct SequenceStep {
    pub key: &'static str,
    pub label: &'static str,
}

/// Why a layout breaks a settled invariant.
#[derive(Debug)]
pub enum LayoutError {
    /// The layout has no layer.
    NoLayers,
    /// A layer does not have one action per physical key.
    WrongKeyCount { name: &'static str, count: usize },
    /// No layer has this identifier.
    MissingLayer(LayerId),
    /// The key at `position` of `layer` does not hold its settled action.
    UnsettledKey { layer: LayerId, position: usize },
    /// Two Hyper-gated actions share this gate identifier.
    DuplicateGuardId(String),
}

/// The first layer of `layers` whose key count is wrong.
pub open spec fn first_miscounted(layers: Seq<Layer>) -> Option<Layer>
    decreases layers.len(),
{
    if layers.len() == 0 {
        None
    } else if layers[0].keys@.len() != KEY_COUNT {
        Some(layers[0])
    } else {
        first_miscounted(layers.drop_first())
    }
}

/// The first layer of `layers` with identifier `id`.
pub open spec fn find_layer(layers: Seq<Layer>, id: LayerId) -> Option<Layer>
    decreases layers.len(),
{
    if layers.len() == 0 {
        None
    } else if layers[0].id == id {
        Some(layers[0])
    } else {
        find_layer(layers.drop_first(), id)
    }
}

pub open spec fn is_key_with_code(a: Action, code: Seq<char>) -> bool {
    a matches Action::Key { code: c, .. } && c@ == code
}

pub open spec fn is_shift_tap(a: Action, m: Modifier) -> bool {
    a matches Action::ModTap { modifier, .. } && modifier == m
}

/// The first settled position that does not hold its action, checked in
/// order: the empty `P26` of Base and Num, Backspace/Num on `P43` and
/// Enter/Nav on `P41` of Base and Num, the mirrored Shift holds on `P18`
/// and `P21` of Base and Num, minus and equal on Num `P25` and `P13`, and
/// Shift on Nav `P18`.
pub open spec fn unsettled_key(base: Seq<Action>, nav: Seq<Action>, num: Seq<Action>) -> Option<
    (LayerId, usize),
> {
    if !(base[26] is Unassigned) {
        Some((LayerId::Base, 26))
    } else if !(num[26] is Unassigned) {
        Some((LayerId::Num, 26))
    } else if !(base[43] is BackspaceNum) {
        Some((LayerId::Base, 43))
    } else if !(num[43] is BackspaceNum) {
        Some((LayerId::Num, 43))
    } else if !(base[41] is NavEnter) {
        Some((LayerId::Base, 41))
    } else if !(num[41] is NavEnter) {
        Some((LayerId::Num, 41))
    } else if !is_shift_tap(base[18], Modifier::LeftShift) {
        Some((LayerId::Base, 18))
    } else if !is_shift_tap(base[21], Modifier::RightShift) {
        Some((LayerId::Base, 21))
    } else if !is_shift_tap(num[18], Modifier::LeftShift) {
        Some((LayerId::Num, 18))
    } else if !is_shift_tap(num[21], Modifier::RightShift) {
        Some((LayerId::Num, 21))
    } else if !is_key_with_code(num[25], "MINUS"@) {
        Some((LayerId::Num, 25))
    } else if !is_key_with_code(num[13], "EQUAL"@) {
        Some((LayerId::Num, 13))
    } else if !is_key_with_code(nav[18], "LSHFT"@) {
        Some((LayerId::Nav, 18))
    } else {
        None
    }
}

/// The Hyper-gated actions of a layer's keys, in key order.
pub open spec fn key_guards(keys: Seq<Action>) -> Seq<GuardedAction> {
    keys.filter_map(
        |a: Action|
            match a {
                Action::Guarded { action, .. } => Some(action),
                _ => None,
            },
    )
}

/// The Hyper-gated actions of all layers, layer by layer in key order.
pub open spec fn layer_guards(layers: Seq<Layer>) -> Seq<GuardedAction>
    decreases layers.len(),
{
    if layers.len() == 0 {
        Seq::empty()
    } else {
        layer_guards(layers.drop_last()) + key_guards(layers.last().keys@)
    }
}

/// The first identifier at or after `j` that already occurs before it.
pub open spec fn first_repeat_from(ids: Seq<Seq<char>>, j: int) -> Option<Seq<char>>
    decreases ids.len() - j,
{
    if j < 0 || j >= ids.len() {
        None
    } else if exists|i: int| 0 <= i < j && ids[i] == ids[j] {
        Some(ids[j])
    } else {
        first_repeat_from(ids, j + 1)
    }
}

/// The identifiers of the gates of `guards`, in order.
pub open spec fn guard_ids(guards: Seq<GuardedAction>) -> Seq<Seq<char>> {
    guards.map_values(|g: GuardedAction| guard_id(g))
}

pub open spec fn guards_defined(layers: Seq<Layer>) -> bool {
    forall|i: int| 0 <= i < layer_guards(layers).len() ==> guard_id_defined(#[trigger] layer_guards(layers)[i])
}

/// The checks that come before gate identifiers: layers present with 44 keys each, and every
/// settled position in place.
pub open spec fn layout_settled(layers: Seq<Layer>) -> bool {
    &&& layers.len() > 0
    &&& first_miscounted(layers) is None
    &&& find_layer(layers, LayerId::Base) is Some
    &&& find_layer(layers, LayerId::Nav) is Some
    &&& find_layer(layers, LayerId::Num) is Some
    &&& unsettled_key(
        find_layer(layers, LayerId::Base)->0.keys@,
        find_layer(layers, LayerId::Nav)->0.keys@,
        find_layer(layers, LayerId::Num)->0.keys@,
    ) is None
}

/// What `validate` reports of a layout: the first check that fails, or success.
pub open spec fn layout_verdict(layers: Seq<Layer>) -> Result<(), LayoutError> {
    if layers.len() == 0 {
        Err(LayoutError::NoLayers)
    } else if first_miscounted(layers) is Some {
        let l = first_miscounted(layers)->0;
        Err(LayoutError::WrongKeyCount { name: l.name, count: l.keys@.len() as usize })
    } else if find_layer(layers, LayerId::Base) is None {
        Err(LayoutError::MissingLayer(LayerId::Base))
    } else if find_layer(layers, LayerId::Nav) is None {
        Err(LayoutError::MissingLayer(LayerId::Nav))
    } else if find_layer(layers, LayerId::Num) is None {
        Err(LayoutError::MissingLayer(LayerId::Num))
    } else {
        match unsettled_key(
            find_layer(layers, LayerId::Base)->0.keys@,
            find_layer(layers, LayerId::Nav)->0.keys@,
            find_layer(layers, LayerId::Num)->0.keys@,
        ) {
            Some((layer, position)) => Err(LayoutError::UnsettledKey { layer, position }),
            None => Ok(()),
        }
    }
}

pub open spec fn spec_guard_verdict(layers: Seq<Layer>) -> Option<Seq<char>> {
    first_repeat_from(guard_ids(layer_guards(layers)), 0)
}

fn code_is(code: &str, expected: &str) -> (r: bool)
    ensures
        r == (code@ == expected@),
{
    let a = to_chars(code);
    let b = to_chars(expected);
    chars_eq(a.as_slice(), b.as_slice())
}

fn key_has_code(a: Action, expected: &str) -> (r: bool)
    ensures
        r == is_key_with_code(a, expected@),
{
    match a {
        Action::Key { code, .. } => code_is(code, expected),
        _ => false,
    }
}

fn shift_tap_with(a: Action, m: Modifier) -> (r: bool)
    ensures
        r == is_shift_tap(a, m),
{
    match a {
        Action::ModTap { modifier, .. } => modifier == m,
        _ => false,
    }
}

/// The first settled position that does not hold its action.
fn find_unsettled_key(base: &Layer, nav: &Layer, num: &Layer) -> (r: Option<(LayerId, usize)>)
    requires
        base.keys@.len() == KEY_COUNT,
        nav.keys@.len() == KEY_COUNT,
        num.keys@.len() == KEY_COUNT,
    ensures
        r == unsettled_key(base.keys@, nav.keys@, num.keys@),
{
    let b = &base.keys;
    let v = &nav.keys;
    let n = &num.keys;
    if !matches!(b[26], Action::Unassigned) {
        Some((LayerId::Base, 26))
    } else if !matches!(n[26], Action::Unassigned) {
        Some((LayerId::Num, 26))
    } else if !matches!(b[43], Action::BackspaceNum) {
        Some((LayerId::Base, 43))
    } else if !matches!(n[43], Action::BackspaceNum) {
        Some((LayerId::Num, 43))
    } else if !matches!(b[41], Action::NavEnter) {
        Some((LayerId::Base, 41))
    } else if !matches!(n[41], Action::NavEnter) {
        Some((LayerId::Num, 41))
    } else if !shift_tap_with(b[18], Modifier::LeftShift) {
        Some((LayerId::Base, 18))
    } else if !shift_tap_with(b[21], Modifier::RightShift) {
        Some((LayerId::Base, 21))
    } else if !shift_tap_with(n[18], Modifier::LeftShift) {
        Some((LayerId::Num, 18))
    } else if !shift_tap_with(n[21], Modifier::RightShift) {
        Some((LayerId::Num, 21))
    } else if !key_has_code(n[25], "MINUS") {
        Some((LayerId::Num, 25))
    } else if !key_has_code(n[13], "EQUAL") {
        Some((LayerId::Num, 13))
    } else if !key_has_code(v[18], "LSHFT") {
        Some((LayerId::Nav, 18))
    } else {
        None
    }
}

proof fn lemma_find_layer_prefix(layers: Seq<Layer>, id: LayerId, k: int)
    requires
        0 <= k <= layers.len(),
        forall|j: int| 0 <= j < k ==> (#[trigger] layers[j]).id != id,
    ensures
        find_layer(layers, id) == find_layer(layers.skip(k), id),
    decreases k,
{
    if k == 0 {
        assert(layers.skip(0) =~= layers);
    } else {
        let t = layers.drop_first();
        assert forall|j: int| 0 <= j < k - 1 implies (#[trigger] t[j]).id != id by {
            assert(t[j] == layers[j + 1]);
        }
        lemma_find_layer_prefix(t, id, k - 1);
        assert(t.skip(k - 1) =~= layers.skip(k));
    }
}

proof fn lemma_first_miscounted_prefix(layers: Seq<Layer>, k: int)
    requires
        0 <= k <= layers.len(),
        forall|j: int| 0 <= j < k ==> (#[trigger] layers[j]).keys@.len() == KEY_COUNT,
    ensures
        first_miscounted(layers) == first_miscounted(layers.skip(k)),
    decreases k,
{
    if k == 0 {
        assert(layers.skip(0) =~= layers);
    } else {
        let t = layers.drop_first();
        assert forall|j: int| 0 <= j < k - 1 implies (#[trigger] t[j]).keys@.len() == KEY_COUNT by {
            assert(t[j] == layers[j + 1]);
        }
        lemma_first_miscounted_prefix(t, k - 1);
        assert(t.skip(k - 1) =~= layers.skip(k));
    }
}

/// No layer is miscounted exactly when every layer has one action per key.
proof fn lemma_first_miscounted_none(layers: Seq<Layer>)
    ensures
        first_miscounted(layers) is None <==> forall|i: int|
            0 <= i < layers.len() ==> (#[trigger] layers[i]).keys@.len() == KEY_COUNT,
    decreases layers.len(),
{
    if layers.len() > 0 {
        let t = layers.drop_first();
        lemma_first_miscounted_none(t);
        if first_miscounted(layers) is None {
            assert forall|i: int| 0 <= i < layers.len() implies (#[trigger] layers[i]).keys@.len()
                == KEY_COUNT by {
                if i > 0 {
                    assert(layers[i] == t[i - 1]);
                }
            }
        }
        if forall|i: int| 0 <= i < layers.len() ==> (#[trigger] layers[i]).keys@.len() == KEY_COUNT {
            assert forall|i: int| 0 <= i < t.len() implies (#[trigger] t[i]).keys@.len() == KEY_COUNT by {
                assert(t[i] == layers[i + 1]);
            }
        }
    }
}

/// A layout passes the settled checks exactly when it has layers, each with
/// 44 keys, and its first Base, Nav and Num layers hold the settled keys:
/// `P26` empty on Base and Num; Backspace/Num on `P43` and Enter/Nav on
/// `P41` of Base and Num; a left-Shift hold on `P18` and a right-Shift hold
/// on `P21` of Base and Num; minus on Num `P25` and equal on Num `P13`; and
/// a Shift key on Nav `P18`.
pub proof fn lemma_settled_layout(layers: Seq<Layer>)
    ensures
        layout_verdict(layers) is Ok <==> {
            &&& layers.len() > 0
            &&& forall|i: int| 0 <= i < layers.len() ==> (#[trigger] layers[i]).keys@.len() == KEY_COUNT
            &&& find_layer(layers, LayerId::Base) is Some
            &&& find_layer(layers, LayerId::Nav) is Some
            &&& find_layer(layers, LayerId::Num) is Some
            &&& ({
                let b = find_layer(layers, LayerId::Base)->0.keys@;
                let v = find_layer(layers, LayerId::Nav)->0.keys@;
                let n = find_layer(layers, LayerId::Num)->0.keys@;
                &&& b[26] == Action::Unassigned && n[26] == Action::Unassigned
                &&& b[43] == Action::BackspaceNum && n[43] == Action::BackspaceNum
                &&& b[41] == Action::NavEnter && n[41] == Action::NavEnter
                &&& b[18] matches Action::ModTap { modifier: Modifier::LeftShift, .. }
                &&& b[21] matches Action::ModTap { modifier: Modifier::RightShift, .. }
                &&& n[18] matches Action::ModTap { modifier: Modifier::LeftShift, .. }
                &&& n[21] matches Action::ModTap { modifier: Modifier::RightShift, .. }
                &&& n[25] matches Action::Key { code, .. } && code@ == "MINUS"@
                &&& n[13] matches Action::Key { code, .. } && code@ == "EQUAL"@
                &&& v[18] matches Action::Key { code, .. } && code@ == "LSHFT"@
            })
        },
{
    lemma_first_miscounted_none(layers);
}

impl LayoutSpec {
    /// The first layer with identifier `id`.
    pub fn layer(&self, id: LayerId) -> (r: Result<&Layer, LayoutError>)
        ensures
            match r {
                Ok(l) => find_layer(self.layers@, id) == Some(*l),
                Err(e) => find_layer(self.layers@, id) is None && e == LayoutError::MissingLayer(id),
            },
    {
        let mut k: usize = 0;
        while k < self.layers.len()
            invariant
                k <= self.layers.len(),
                forall|j: int| 0 <= j < k ==> (#[trigger] self.layers@[j]).id != id,
            decreases self.layers.len() - k,
        {
            if self.layers[k].id == id {
                proof {
                    lemma_find_layer_prefix(self.layers@, id, k as int);
                    assert(self.layers@.skip(k as int)[0] == self.layers@[k as int]);
                }
                return Ok(&self.layers[k]);
            }
            k = k + 1;
        }
        proof {
            lemma_find_layer_prefix(self.layers@, id, k as int);
        }
        Err(LayoutError::MissingLayer(id))
    }

    /// The Hyper-gated actions of every layer, layer by layer in key order.
    pub fn guarded_actions(&self) -> (r: Vec<GuardedAction>)
        ensures
            r@ == layer_guards(self.layers@),
    {
        let mut out: Vec<GuardedAction> = Vec::new();
        let mut li: usize = 0;
        assert(self.layers@.take(0) =~= Seq::<Layer>::empty());
        while li < self.layers.len()
            invariant
                li <= self.layers.len(),
                out@ == layer_guards(self.layers@.take(li as int)),
            decreases self.layers.len() - li,
        {
            let keys = &self.layers[li].keys;
            let ghost before = out@;
            let mut ki: usize = 0;
            assert(keys@.take(0) =~= Seq::<Action>::empty());
            assert(before =~= before + key_guards(keys@.take(0)));
            while ki < keys.len()
                invariant
                    ki <= keys.len(),
                    out@ == before + key_guards(keys@.take(ki as int)),
                decreases keys.len() - ki,
            {
                assert(keys@.take(ki + 1).drop_last() =~= keys@.take(ki as int));
                assert(keys@.take(ki + 1).last() == keys@[ki as int]);
                match keys[ki] {
                    Action::Guarded { action, .. } => {
                        out.push(action);
                        assert(out@ =~= before + key_guards(keys@.take(ki + 1)));
                    },
                    _ => {
                        assert(out@ =~= before + key_guards(keys@.take(ki + 1)));
                    },
                }
                ki = ki + 1;
            }
            assert(keys@.take(keys.len() as int) =~= keys@);
            assert(self.layers@.take(li + 1).drop_last() =~= self.layers@.take(li as int));
            assert(self.layers@.take(li + 1).last() == self.layers@[li as int]);
            li = li + 1;
        }
        assert(self.layers@.take(self.layers.len() as int) =~= self.layers@);
        out
    }

    /// Checks the settled invariants: at least one layer, 44 keys on every
    /// layer, Base, Nav and Num present, the settled positions in place, and
    /// one gate identifier per Hyper-gated action.
    pub fn validate(&self) -> (r: Result<(), LayoutError>)
        requires
            layout_settled(self.layers@) ==> guards_defined(self.layers@),
        ensures
            r is Ok <==> layout_verdict(self.layers@) is Ok && spec_guard_verdict(self.layers@) is None,
            match r {
                Ok(_) => true,
                Err(LayoutError::DuplicateGuardId(id)) => layout_verdict(self.layers@) is Ok
                    && spec_guard_verdict(self.layers@) == Some(id@),
                Err(e) => layout_verdict(self.layers@) == Err::<(), LayoutError>(e),
            },
    {
        if self.layers.len() == 0 {
            return Err(LayoutError::NoLayers);
        }
        let mut k: usize = 0;
        while k < self.layers.len()
            invariant
                k <= self.layers.len(),
                forall|j: int| 0 <= j < k ==> (#[trigger] self.layers@[j]).keys@.len() == KEY_COUNT,
            decreases self.layers.len() - k,
        {
            if self.layers[k].keys.len() != KEY_COUNT {
                proof {
                    lemma_first_miscounted_prefix(self.layers@, k as int);
                    assert(self.layers@.skip(k as int)[0] == self.layers@[k as int]);
                }
                return Err(
                    LayoutError::WrongKeyCount {
                        name: self.layers[k].name,
                        count: self.layers[k].keys.len(),
                    },
                );
            }
            k = k + 1;
        }
        proof {
            lemma_first_miscounted_prefix(self.layers@, k as int);
        }
        let base = match self.layer(LayerId::Base) {
            Ok(l) => l,
            Err(e) => {
                return Err(e);
            },
        };
        let nav = match self.layer(LayerId::Nav) {
            Ok(l) => l,
            Err(e) => {
                return Err(e);
            },
        };
        let num = match self.layer(LayerId::Num) {
            Ok(l) => l,
            Err(e) => {
                return Err(e);
            },
        };
        proof {
            lemma_find_layer_in(self.layers@, LayerId::Base);
            lemma_find_layer_in(self.layers@, LayerId::Nav);
            lemma_find_layer_in(self.layers@, LayerId::Num);
        }
        match find_unsettled_key(base, nav, num) {
            Some((layer, position)) => {
                return Err(LayoutError::UnsettledKey { layer, position });
            },
            None => {},
        }
        ensure_unique_guard_ids(self)
    }
}

proof fn lemma_find_layer_in(layers: Seq<Layer>, id: LayerId)
    ensures
        find_layer(layers, id) matches Some(l) ==> exists|j: int|
            0 <= j < layers.len() && layers[j] == l,
    decreases layers.len(),
{
    if layers.len() > 0 && layers[0].id != id {
        lemma_find_layer_in(layers.drop_first(), id);
        if find_layer(layers, id) is Some {
            let j = choose|j: int|
                0 <= j < layers.drop_first().len() && layers.drop_first()[j] == find_layer(
                    layers,
                    id,
                )->0;
            assert(layers[j + 1] == layers.drop_first()[j]);
        }
    }
}

/// Checks that no two Hyper-gated actions share a gate identifier; reports
/// the first identifier that repeats.
pub fn ensure_unique_guard_ids(spec: &LayoutSpec) -> (r: Result<(), LayoutError>)
    requires
        guards_defined(spec.layers@),
    ensures
        match r {
            Ok(_) => spec_guard_verdict(spec.layers@) is None,
            Err(e) => e matches LayoutError::DuplicateGuardId(id) && spec_guard_verdict(spec.layers@)
                == Some(id@),
        },
{
    let guards = spec.guarded_actions();
    let ghost ids = guard_ids(guards@);
    let mut seen: Vec<String> = Vec::new();
    let mut j: usize = 0;
    while j < guards.len()
        invariant
            guards@ == layer_guards(spec.layers@),
            ids == guard_ids(guards@),
            guards_defined(spec.layers@),
            j <= guards.len(),
            seen@.len() == j,
            forall|k: int| 0 <= k < j ==> (#[trigger] seen@[k])@ == ids[k],
            first_repeat_from(ids, 0) == first_repeat_from(ids, j as int),
        decreases guards.len() - j,
    {
        assert(guard_id_defined(layer_guards(spec.layers@)[j as int]));
        assert(ids.len() == guards@.len());
        let id = guards[j].id();
        assert(id@ == ids[j as int]);
        let mut i: usize = 0;
        while i < j
            invariant
                i <= j,
                seen@.len() == j,
                forall|k: int| 0 <= k < j ==> (#[trigger] seen@[k])@ == ids[k],
                id@ == ids[j as int],
                ids == guard_ids(layer_guards(spec.layers@)),
                j < ids.len(),
                first_repeat_from(ids, 0) == first_repeat_from(ids, j as int),
                forall|k: int| 0 <= k < i ==> ids[k] != ids[j as int],
            decreases j - i,
        {
            if seen[i] == id {
                assert(ids[i as int] == ids[j as int]);
                assert(first_repeat_from(ids, j as int) == Some(ids[j as int]));
                return Err(LayoutError::DuplicateGuardId(id));
            }
            i = i + 1;
        }
        assert(!(exists|k: int| 0 <= k < j && ids[k] == ids[j as int]));
        seen.push(id);
        j = j + 1;
    }
    Ok(())
}

// ---------------------------------------------------------------------------
// Laws
// ---------------------------------------------------------------------------

/// Every Hyper-gated action has its own gate: two actions with one gate
/// identifier are the same action.
pub proof fn lemma_guard_id_injective(a: GuardedAction, b: GuardedAction)
    requires
        guard_id_defined(a),
        guard_id_defined(b),
        guard_id(a) == guard_id(b),
    ensures
        a == b,
{
    reveal_strlit("clear_bt");
    reveal_strlit("clear_all");
    reveal_strlit("reset");
    reveal_strlit("bootloader");
    reveal_strlit("bt_");
    if let GuardedAction::SelectBluetooth(p) = a {
        if let GuardedAction::SelectBluetooth(q) = b {
            assert(decimal((p + 1) as nat) =~= guard_id(a).skip(3));
            assert(decimal((q + 1) as nat) =~= guard_id(b).skip(3));
            lemma_decimal_injective((p + 1) as nat, (q + 1) as nat);
        } else {
            assert(guard_id(a)[0] == 'b' && guard_id(a)[1] == 't');
            assert(guard_id(b)[0] != 'b' || guard_id(b)[1] != 't');
        }
    } else if b is SelectBluetooth {
        assert(guard_id(b)[0] == 'b' && guard_id(b)[1] == 't');
        assert(guard_id(a)[0] != 'b' || guard_id(a)[1] != 't');
    } else {
        assert(guard_id(a).len() == named_guard_len(a));
        assert(guard_id(b).len() == named_guard_len(b));
    }
}

spec fn named_guard_len(g: GuardedAction) -> int {
    match g {
        GuardedAction::ClearCurrentBluetooth => 8,
        GuardedAction::ClearAllBluetooth => 9,
        GuardedAction::Reset => 5,
        GuardedAction::Bootloader => 10,
        GuardedAction::SelectBluetooth(_) => 0,
    }
}

/// Hyper-gated keys at different positions hold different actions.
pub open spec fn distinct_guards(keys: Seq<Action>) -> bool {
    forall|i: int, j: int|
        0 <= i < j < keys.len() && (#[trigger] keys[i]) is Guarded && (#[trigger] keys[j]) is Guarded
            ==> keys[i]->action != keys[j]->action
}

/// The gated actions of a layer are those of its gated keys, each once
/// when the keys hold different ones.
pub proof fn lemma_key_guards(keys: Seq<Action>)
    ensures
        forall|k: int|
            0 <= k < key_guards(keys).len() ==> exists|i: int|
                0 <= i < keys.len() && (#[trigger] keys[i]) is Guarded && keys[i]->action
                    == #[trigger] key_guards(keys)[k],
        distinct_guards(keys) ==> key_guards(keys).no_duplicates(),
        (forall|i: int| 0 <= i < keys.len() ==> !(#[trigger] keys[i] is Guarded)) ==> key_guards(
            keys,
        ) == Seq::<GuardedAction>::empty(),
    decreases keys.len(),
{
    if keys.len() > 0 {
        let init = keys.drop_last();
        lemma_key_guards(init);
        let g = key_guards(keys);
        let gi = key_guards(init);
        assert forall|k: int| 0 <= k < g.len() implies exists|i: int|
            0 <= i < keys.len() && (#[trigger] keys[i]) is Guarded && keys[i]->action
                == #[trigger] g[k] by {
            if k < gi.len() {
                assert(g[k] == gi[k]);
                let i = choose|i: int|
                    0 <= i < init.len() && (#[trigger] init[i]) is Guarded && init[i]->action
                        == gi[k];
                assert(keys[i] == init[i]);
            } else {
                assert(keys[keys.len() - 1] == keys.last());
            }
        }
        if distinct_guards(keys) {
            assert(distinct_guards(init)) by {
                assert forall|i: int, j: int|
                    0 <= i < j < init.len() && (#[trigger] init[i]) is Guarded
                        && (#[trigger] init[j]) is Guarded implies init[i]->action
                    != init[j]->action by {
                    assert(keys[i] == init[i] && keys[j] == init[j]);
                }
            }
            if keys.last() is Guarded {
                assert forall|k: int| 0 <= k < gi.len() implies gi[k] != keys.last()->action by {
                    let i = choose|i: int|
                        0 <= i < init.len() && (#[trigger] init[i]) is Guarded && init[i]->action
                            == gi[k];
                    assert(keys[i] == init[i]);
                    assert(keys[keys.len() - 1] == keys.last());
                }
                assert forall|a: int, b: int| 0 <= a < b < g.len() implies g[a] != g[b] by {
                    if b < gi.len() {
                        assert(g[a] == gi[a] && g[b] == gi[b]);
                    } else {
                        assert(g[a] == gi[a]);
                    }
                }
            } else {
                assert(g == gi);
            }
        }
        if forall|i: int| 0 <= i < keys.len() ==> !(#[trigger] keys[i] is Guarded) {
            assert forall|i: int| 0 <= i < init.len() implies !(#[trigger] init[i] is Guarded) by {
                assert(init[i] == keys[i]);
            }
            assert(keys[keys.len() - 1] == keys.last());
        }
    }
}

/// Identifiers without duplicates have no first repeat.
/// A repeat found from `j` on is an identifier at or after `j` that also
/// occurs earlier, the first such one; none is found when the identifiers
/// from `j` on each differ from every one before them.
proof fn lemma_first_repeat_from(ids: Seq<Seq<char>>, j: int)
    requires
        0 <= j,
    ensures
        match first_repeat_from(ids, j) {
            Some(id) => exists|k: int|
                j <= k < ids.len() && ids[k] == id && (exists|i: int| 0 <= i < k && ids[i] == ids[k])
                    && forall|m: int|
                    j <= m < k ==> forall|i: int| 0 <= i < m ==> ids[i] != #[trigger] ids[m],
            None => forall|m: int|
                j <= m < ids.len() ==> forall|i: int| 0 <= i < m ==> ids[i] != #[trigger] ids[m],
        },
    decreases ids.len() - j,
{
    if j < ids.len() {
        lemma_first_repeat_from(ids, j + 1);
        if exists|i: int| 0 <= i < j && ids[i] == ids[j] {
        } else {
            match first_repeat_from(ids, j + 1) {
                Some(id) => {
                    let k = choose|k: int|
                        j + 1 <= k < ids.len() && ids[k] == id && (exists|i: int|
                            0 <= i < k && ids[i] == ids[k]) && forall|m: int|
                            j + 1 <= m < k ==> forall|i: int| 0 <= i < m ==> ids[i] != #[trigger] ids[m];
                    assert forall|m: int| j <= m < k implies forall|i: int|
                        0 <= i < m ==> ids[i] != #[trigger] ids[m] by {
                        if m == j {
                        }
                    }
                },
                None => {},
            }
        }
    }
}

/// The check for repeated gate identifiers passes exactly when no two
/// Hyper-gated actions share an identifier, and otherwise reports the first
/// identifier that repeats an earlier one.
pub proof fn lemma_guard_verdict(layers: Seq<Layer>)
    ensures
        ({
            let ids = guard_ids(layer_guards(layers));
            &&& spec_guard_verdict(layers) is None <==> ids.no_duplicates()
            &&& spec_guard_verdict(layers) matches Some(id) ==> exists|k: int|
                0 <= k < ids.len() && ids[k] == id && (exists|i: int| 0 <= i < k && ids[i] == ids[k])
        }),
{
    let ids = guard_ids(layer_guards(layers));
    lemma_first_repeat_from(ids, 0);
    if ids.no_duplicates() {
        lemma_no_repeat(ids, 0);
    }
    if spec_guard_verdict(layers) is None {
        assert forall|a: int, b: int| 0 <= a < ids.len() && 0 <= b < ids.len() && a != b implies ids[a]
            != ids[b] by {
            if a < b {
                assert(ids[a] != ids[b]);
            } else {
                assert(ids[b] != ids[a]);
            }
        }
    }
}

/// The layer found for `id` is the first layer with that identifier, and
/// none is found when no layer has it.
pub proof fn lemma_find_layer_first(layers: Seq<Layer>, id: LayerId)
    ensures
        match find_layer(layers, id) {
            Some(l) => exists|i: int|
                0 <= i < layers.len() && layers[i] == l && l.id == id && forall|j: int|
                    0 <= j < i ==> (#[trigger] layers[j]).id != id,
            None => forall|i: int| 0 <= i < layers.len() ==> (#[trigger] layers[i]).id != id,
        },
    decreases layers.len(),
{
    if layers.len() > 0 {
        let t = layers.drop_first();
        lemma_find_layer_first(t, id);
        if layers[0].id == id {
            assert(layers[0] == layers[0]);
        } else {
            match find_layer(t, id) {
                Some(l) => {
                    let i = choose|i: int|
                        0 <= i < t.len() && t[i] == l && l.id == id && forall|j: int|
                            0 <= j < i ==> (#[trigger] t[j]).id != id;
                    assert(layers[i + 1] == t[i]);
                    assert forall|j: int| 0 <= j < i + 1 implies (#[trigger] layers[j]).id != id by {
                        if j > 0 {
                            assert(layers[j] == t[j - 1]);
                        }
                    }
                },
                None => {
                    assert forall|i: int| 0 <= i < layers.len() implies (#[trigger] layers[i]).id != id by {
                        if i > 0 {
                            assert(layers[i] == t[i - 1]);
                        }
                    }
                },
            }
        }
    }
}

proof fn lemma_no_repeat(ids: Seq<Seq<char>>, j: int)
    requires
        ids.no_duplicates(),
        0 <= j,
    ensures
        first_repeat_from(ids, j) is None,
    decreases ids.len() - j,
{
    if j < ids.len() {
        lemma_no_repeat(ids, j + 1);
    }
}

/// Gated actions without duplicates get gate identifiers without duplicates.
pub proof fn lemma_guard_ids_unique(guards: Seq<GuardedAction>)
    requires
        guards.no_duplicates(),
        forall|k: int| 0 <= k < guards.len() ==> guard_id_defined(#[trigger] guards[k]),
    ensures
        first_repeat_from(guard_ids(guards), 0) is None,
{
    let ids = guard_ids(guards);
    assert forall|a: int, b: int| 0 <= a < ids.len() && 0 <= b < ids.len() && a != b implies ids[a]
        != ids[b] by {
        if ids[a] == ids[b] {
            lemma_guard_id_injective(guards[a], guards[b]);
        }
    }
    lemma_no_repeat(ids, 0);
}
} // verus!
