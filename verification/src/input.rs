//! Keys and mouse reports, as the terminal sent them.
use vstd::prelude::*;

verus! {

/// The modifiers held with a key: a mask of the bits below.
#[derive(Debug, Clone, Copy, PartialEq, Eq, Structural)]
pub struct Mods(pub u32);

/// Shift, as a bit of [`Mods`].
pub const SHIFT: u32 = 1;

/// Alt, as a bit of [`Mods`].
pub const ALT: u32 = 2;

/// Control, as a bit of [`Mods`].
pub const CTRL: u32 = 4;

/// Super, as a bit of [`Mods`].
pub const SUPER: u32 = 8;

impl Mods {
    pub const SHIFT: u32 = SHIFT;

    pub const ALT: u32 = ALT;

    pub const CTRL: u32 = CTRL;

    pub const SUPER: u32 = SUPER;

    /// These, and the modifier of a bit too.
    pub fn with(self, bit: u32) -> (r: Mods)
        ensures
            r.0 == self.0 | bit,
    {
        Mods(self.0 | bit)
    }

    /// Control is held.
    pub open spec fn has_ctrl(self) -> bool {
        self.0 & CTRL != 0
    }

    /// Alt is held.
    pub open spec fn has_alt(self) -> bool {
        self.0 & ALT != 0
    }

    /// Shift is held.
    pub open spec fn has_shift(self) -> bool {
        self.0 & SHIFT != 0
    }

    /// Super is held.
    pub open spec fn has_super(self) -> bool {
        self.0 & SUPER != 0
    }

    /// Whether control is held.
    pub fn ctrl(&self) -> (r: bool)
        ensures
            r == self.has_ctrl(),
    {
        self.0 & CTRL != 0
    }

    /// Whether alt is held.
    pub fn alt(&self) -> (r: bool)
        ensures
            r == self.has_alt(),
    {
        self.0 & ALT != 0
    }

    /// Whether shift is held.
    pub fn shift(&self) -> (r: bool)
        ensures
            r == self.has_shift(),
    {
        self.0 & SHIFT != 0
    }

    /// Whether super is held.
    pub fn meta(&self) -> (r: bool)
        ensures
            r == self.has_super(),
    {
        self.0 & SUPER != 0
    }

    /// The mask the engine's protocol has for these modifiers: alt 1, control
    /// 2, super 4, shift 8.
    pub open spec fn engine_mask(self) -> int {
        (if self.has_alt() {
            1int
        } else {
            0
        }) + (if self.has_ctrl() {
            2int
        } else {
            0
        }) + (if self.has_super() {
            4int
        } else {
            0
        }) + (if self.has_shift() {
            8int
        } else {
            0
        })
    }

    /// The mask the engine's protocol has for these modifiers.
    pub fn cdp(&self) -> (r: u32)
        ensures
            r == self.engine_mask(),
    {
        let mut mask: u32 = 0;
        if self.alt() {
            mask += 1;
        }
        if self.ctrl() {
            mask += 2;
        }
        if self.meta() {
            mask += 4;
        }
        if self.shift() {
            mask += 8;
        }
        mask
    }
}

impl Default for Mods {
    fn default() -> (r: Mods)
        ensures
            r.0 == 0,
    {
        Mods(0)
    }
}

/// A key.
#[derive(Debug, Clone, Copy, PartialEq, Eq, Structural)]
pub enum Key {
    Char(char),
    Tab,
    Enter,
    Escape,
    Backspace,
    Insert,
    Delete,
    Up,
    Down,
    Left,
    Right,
    Home,
    End,
    PageUp,
    PageDown,
    Function(u8),
    /// A key with no name here, such as a modifier pressed on its own.
    Other(u32),
}

/// What happened to a key.
#[derive(Debug, Clone, Copy, PartialEq, Eq, Structural)]
pub enum KeyAction {
    Press,
    Repeat,
    Release,
}

/// One key event.
#[derive(Debug, Clone, Copy, PartialEq, Eq, Structural)]
pub struct KeyInput {
    pub key: Key,
    pub mods: Mods,
    pub action: KeyAction,
    /// The character it typed, when it typed one.
    pub text: Option<char>,
}

/// What a mouse did.
#[derive(Debug, Clone, Copy, PartialEq, Eq, Structural)]
pub enum MouseKind {
    Press,
    Release,
    Move,
    Wheel,
}

/// One mouse report: where, in cells or in pixels of the pane, from zero.
#[derive(Debug, Clone, Copy, PartialEq, Eq)]
pub struct MouseInput {
    pub kind: MouseKind,
    pub button: Option<u32>,
    pub x: i32,
    pub y: i32,
    /// How many notches a wheel turned, across and down.
    pub wheel: (i32, i32),
    pub mods: Mods,
}

/// The most bytes a paste may have.
pub const PASTE_LIMIT: usize = 64 * 1024;

/// One thing the terminal said.
#[derive(Debug, PartialEq, Eq)]
pub enum Input {
    Key(KeyInput),
    Mouse(MouseInput),
    /// The answer to a question about a mode, which the parser keeps.
    Mode,
    Paste(String),
    /// A paste of more than [`PASTE_LIMIT`] bytes.
    PasteRefused { bytes: usize },
}

/// What an [`Input`] is.
pub enum Said {
    Key(KeyInput),
    Mouse(MouseInput),
    Mode,
    Paste(Seq<char>),
    PasteRefused { bytes: usize },
}

impl View for Input {
    type V = Said;

    open spec fn view(&self) -> Said {
        match *self {
            Input::Key(key) => Said::Key(key),
            Input::Mouse(report) => Said::Mouse(report),
            Input::Mode => Said::Mode,
            Input::Paste(text) => Said::Paste(text@),
            Input::PasteRefused { bytes } => Said::PasteRefused { bytes },
        }
    }
}

/// A number kept in the range of an `i32`.
pub open spec fn in_range(n: int) -> i32 {
    if n > i32::MAX {
        i32::MAX
    } else if n < i32::MIN {
        i32::MIN
    } else {
        n as i32
    }
}

/// Where on the page a report is, in pixels, under `above` rows of the pane:
/// the middle of the cell when that is all the terminal says.
pub open spec fn point_of(report: MouseInput, pixels: bool, cell: (u32, u32), above: u32) -> (
    i32,
    i32,
) {
    if pixels {
        (report.x, in_range(report.y - above * cell.1))
    } else {
        (
            in_range(report.x * cell.0 + cell.0 / 2),
            in_range((report.y - above) * cell.1 + cell.1 / 2),
        )
    }
}

/// A number kept in the range of an `i32`.
fn clamp(n: i128) -> (r: i32)
    ensures
        r == in_range(n as int),
{
    if n > i32::MAX as i128 {
        i32::MAX
    } else if n < i32::MIN as i128 {
        i32::MIN
    } else {
        n as i32
    }
}

/// A product of two numbers no larger than 33 bits.
fn times(a: i128, b: i128) -> (r: i128)
    requires
        -0x2_0000_0000 <= a <= 0x2_0000_0000,
        0 <= b <= 0x1_0000_0000,
    ensures
        r == a * b,
        -0x4_0000_0000_0000_0000 <= r <= 0x4_0000_0000_0000_0000,
{
    proof {
        assert(-0x4_0000_0000_0000_0000 <= a * b <= 0x4_0000_0000_0000_0000) by (nonlinear_arith)
            requires
                -0x2_0000_0000 <= a <= 0x2_0000_0000,
                0 <= b <= 0x1_0000_0000,
        ;
    }
    a * b
}

/// Where on the page a report is, in pixels, under `above` rows of the pane.
pub fn page_point(report: &MouseInput, pixels: bool, cell: (u32, u32), above: u32) -> (r: (i32, i32))
    ensures
        r == point_of(*report, pixels, cell, above),
{
    if pixels {
        let over = times(above as i128, cell.1 as i128);
        (report.x, clamp(report.y as i128 - over))
    } else {
        let x = times(report.x as i128, cell.0 as i128);
        let y = times(report.y as i128 - above as i128, cell.1 as i128);
        (clamp(x + (cell.0 / 2) as i128), clamp(y + (cell.1 / 2) as i128))
    }
}

/// The engine counts the modifiers in its own order: alt is 1, control 2, the
/// command key 4 and shift 8, where the terminal has shift 1, alt 2, control 4
/// and the command key 8.
pub proof fn law_a_modifier_is_the_engines_too(mods: Mods)
    ensures
        mods.engine_mask() % 2 == 1 <==> mods.0 & 2u32 != 0,
        mods.engine_mask() / 2 % 2 == 1 <==> mods.0 & 4u32 != 0,
        mods.engine_mask() / 4 % 2 == 1 <==> mods.0 & 8u32 != 0,
        mods.engine_mask() / 8 == 1 <==> mods.0 & 1u32 != 0,
        0 <= mods.engine_mask() < 16,
        mods.has_shift() <==> mods.0 & 1u32 != 0,
        mods.has_alt() <==> mods.0 & 2u32 != 0,
        mods.has_ctrl() <==> mods.0 & 4u32 != 0,
        mods.has_super() <==> mods.0 & 8u32 != 0,
{
}

/// A report in cells is of the middle of its cell, below the rows above the
/// page: the place is the one that a report in pixels of that middle gives.
pub proof fn law_cells_and_pixels_agree(report: MouseInput, cell: (u32, u32), above: u32)
    requires
        0 < cell.0 <= 0x7fff,
        0 < cell.1 <= 0x7fff,
        0 <= report.x <= 0x7fff,
        0 <= above <= report.y <= 0x7fff,
    ensures
        ({
            let middle = MouseInput {
                x: (report.x * cell.0 + cell.0 / 2) as i32,
                y: (report.y * cell.1 + cell.1 / 2) as i32,
                ..report
            };
            point_of(report, false, cell, above) == point_of(middle, true, cell, above)
        }),
        point_of(report, true, cell, 0) == (report.x, report.y),
        point_of(report, false, cell, above).0 / (cell.0 as i32) == report.x,
        point_of(report, false, cell, above).1 / (cell.1 as i32) == report.y - above,
{
    let (w, h, x, y, a) = (
        cell.0 as int,
        cell.1 as int,
        report.x as int,
        report.y as int,
        above as int,
    );
    assert(0 <= x * w <= 0x7fff * 0x7fff && 0 <= y * h <= 0x7fff * 0x7fff && 0 <= (y - a) * h <= y
        * h && (y - a) * h == y * h - a * h) by (nonlinear_arith)
        requires
            0 < w <= 0x7fff,
            0 < h <= 0x7fff,
            0 <= x <= 0x7fff,
            0 <= a <= y <= 0x7fff,
    ;
    assert((x * w + w / 2) / w == x) by (nonlinear_arith)
        requires
            0 < w,
            0 <= x,
    ;
    assert(((y - a) * h + h / 2) / h == y - a) by (nonlinear_arith)
        requires
            0 < h,
            0 <= y - a,
    ;
}

}
