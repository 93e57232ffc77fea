use vstd::prelude::*;

verus! {

/// A colour as 8-bit red, green, blue and alpha channels.
#[derive(Clone, Copy, Debug, PartialEq, Eq, Structural)]
pub struct Rgba {
    pub r: u8,
    pub g: u8,
    pub b: u8,
    pub a: u8,
}

/// An opaque colour.
pub open spec fn opaque(r: u8, g: u8, b: u8) -> Rgba {
    Rgba { r, g, b, a: 255 }
}

/// The panel surface of the dark theme.
pub fn surface() -> (c: Rgba)
    ensures
        c == opaque(0x40, 0x44, 0x4B),
{
    Rgba { r: 0x40, g: 0x44, b: 0x4B, a: 255 }
}

/// The accent of the dark theme.
pub fn accent() -> (c: Rgba)
    ensures
        c == opaque(0x6F, 0xFF, 0xE9),
{
    Rgba { r: 0x6F, g: 0xFF, b: 0xE9, a: 255 }
}

/// The colour of active controls in the dark theme.
pub fn active_color() -> (c: Rgba)
    ensures
        c == opaque(0x72, 0x89, 0xDA),
{
    Rgba { r: 0x72, g: 0x89, b: 0xDA, a: 255 }
}

/// The colour of hovered controls in the dark theme.
pub fn hovered_color() -> (c: Rgba)
    ensures
        c == opaque(0x67, 0x7B, 0xC4),
{
    Rgba { r: 0x67, g: 0x7B, b: 0xC4, a: 255 }
}

/// Opaque white.
pub fn white() -> (c: Rgba)
    ensures
        c == opaque(255, 255, 255),
{
    Rgba { r: 255, g: 255, b: 255, a: 255 }
}

/// Fully transparent black.
pub fn transparent() -> (c: Rgba)
    ensures
        c == (Rgba { r: 0, g: 0, b: 0, a: 0 }),
{
    Rgba { r: 0, g: 0, b: 0, a: 0 }
}

/// The colour with its alpha replaced.
pub fn with_alpha(c: Rgba, a: u8) -> (r: Rgba)
    ensures
        r == (Rgba { a, ..c }),
{
    Rgba { a, ..c }
}

/// The two themes of the control panel.
#[derive(Clone, Copy, Debug, PartialEq, Eq, Structural)]
pub enum Theme {
    Light,
    Dark,
}

impl Theme {
    /// Both themes, light first.
    pub fn all() -> (r: [Theme; 2])
        ensures
            r[0] == Theme::Light,
            r[1] == Theme::Dark,
    {
        [Theme::Light, Theme::Dark]
    }
}

impl Default for Theme {
    /// The light theme.
    fn default() -> (r: Theme)
        ensures
            r == Theme::Light,
    {
        Theme::Light
    }
}

/// How a button is drawn.
#[derive(Clone, Copy, Debug, PartialEq, Eq, Structural)]
pub struct ButtonStyle {
    pub shadow_x: i16,
    pub shadow_y: i16,
    pub background: Option<Rgba>,
    pub border_radius: u16,
    pub border_width: u16,
    pub border_color: Rgba,
    pub text_color: Rgba,
}

/// How a container is drawn.
#[derive(Clone, Copy, Debug, PartialEq, Eq, Structural)]
pub struct ContainerStyle {
    pub text_color: Option<Rgba>,
    pub background: Option<Rgba>,
    pub border_radius: u16,
    pub border_width: u16,
    pub border_color: Rgba,
}

/// How a radio button is drawn.
#[derive(Clone, Copy, Debug, PartialEq, Eq, Structural)]
pub struct RadioStyle {
    pub background: Rgba,
    pub dot_color: Rgba,
    pub border_width: u16,
    pub border_color: Rgba,
}

/// How a text input is drawn.
#[derive(Clone, Copy, Debug, PartialEq, Eq, Structural)]
pub struct TextInputStyle {
    pub background: Rgba,
    pub border_radius: u16,
    pub border_width: u16,
    pub border_color: Rgba,
}

/// How the handle of a scrollbar is drawn.
#[derive(Clone, Copy, Debug, PartialEq, Eq, Structural)]
pub struct ScrollerStyle {
    pub color: Rgba,
    pub border_radius: u16,
    pub border_width: u16,
    pub border_color: Rgba,
}

/// How a scrollbar is drawn.
#[derive(Clone, Copy, Debug, PartialEq, Eq, Structural)]
pub struct ScrollbarStyle {
    pub background: Option<Rgba>,
    pub border_radius: u16,
    pub border_width: u16,
    pub border_color: Rgba,
    pub scroller: ScrollerStyle,
}

/// How a slider is drawn; its handle is a circle.
#[derive(Clone, Copy, Debug, PartialEq, Eq, Structural)]
pub struct SliderStyle {
    pub rail_color: Rgba,
    pub rail_faint: Rgba,
    pub handle_radius: u16,
    pub handle_color: Rgba,
    pub handle_border_width: u16,
    pub handle_border_color: Rgba,
}

/// How a progress bar is drawn.
#[derive(Clone, Copy, Debug, PartialEq, Eq, Structural)]
pub struct ProgressBarStyle {
    pub background: Rgba,
    pub bar: Rgba,
    pub border_radius: u16,
}

/// How a checkbox is drawn.
#[derive(Clone, Copy, Debug, PartialEq, Eq, Structural)]
pub struct CheckboxStyle {
    pub background: Rgba,
    pub checkmark_color: Rgba,
    pub border_radius: u16,
    pub border_width: u16,
    pub border_color: Rgba,
}

/// The button of the light theme.
pub struct LightButton;

impl LightButton {
    /// Blue, rounded, with a small shadow and light grey text.
    pub fn active(&self) -> (s: ButtonStyle)
        ensures
            s == self.active_spec(),
    {
        ButtonStyle {
            shadow_x: 1,
            shadow_y: 1,
            background: Some(Rgba { r: 28, g: 107, b: 222, a: 255 }),
            border_radius: 12,
            border_width: 0,
            border_color: transparent(),
            text_color: Rgba { r: 0xEE, g: 0xEE, b: 0xEE, a: 255 },
        }
    }

    /// As active, with white text and a deeper shadow.
    pub fn hovered(&self) -> (s: ButtonStyle)
        ensures
            s == (ButtonStyle { text_color: opaque(255, 255, 255), shadow_x: 1, shadow_y: 2, ..self.active_spec() }),
    {
        ButtonStyle { text_color: white(), shadow_x: 1, shadow_y: 2, ..self.active() }
    }

    pub open spec fn active_spec(&self) -> ButtonStyle {
        ButtonStyle {
            shadow_x: 1,
            shadow_y: 1,
            background: Some(opaque(28, 107, 222)),
            border_radius: 12,
            border_width: 0,
            border_color: Rgba { r: 0, g: 0, b: 0, a: 0 },
            text_color: opaque(0xEE, 0xEE, 0xEE),
        }
    }
}

/// The button of the dark theme.
pub struct Button;

impl Button {
    pub open spec fn active_spec(&self) -> ButtonStyle {
        ButtonStyle {
            shadow_x: 0,
            shadow_y: 0,
            background: Some(opaque(0x72, 0x89, 0xDA)),
            border_radius: 3,
            border_width: 0,
            border_color: Rgba { r: 0, g: 0, b: 0, a: 0 },
            text_color: opaque(255, 255, 255),
        }
    }

    pub open spec fn hovered_spec(&self) -> ButtonStyle {
        ButtonStyle { background: Some(opaque(0x67, 0x7B, 0xC4)), ..self.active_spec() }
    }

    /// The active colour, slightly rounded, with white text.
    pub fn active(&self) -> (s: ButtonStyle)
        ensures
            s == self.active_spec(),
    {
        ButtonStyle {
            shadow_x: 0,
            shadow_y: 0,
            background: Some(active_color()),
            border_radius: 3,
            border_width: 0,
            border_color: transparent(),
            text_color: white(),
        }
    }

    /// As active, in the hovered colour.
    pub fn hovered(&self) -> (s: ButtonStyle)
        ensures
            s == self.hovered_spec(),
    {
        ButtonStyle { background: Some(hovered_color()), text_color: white(), ..self.active() }
    }

    /// As hovered, with a white border.
    pub fn pressed(&self) -> (s: ButtonStyle)
        ensures
            s == (ButtonStyle { border_width: 1, border_color: opaque(255, 255, 255), ..self.hovered_spec() }),
    {
        ButtonStyle { border_width: 1, border_color: white(), ..self.hovered() }
    }
}

/// The container of the dark theme.
pub struct Container;

impl Container {
    /// Dark grey, slightly rounded, with white text.
    pub fn style(&self) -> (s: ContainerStyle)
        ensures
            s == (ContainerStyle {
                text_color: Some(opaque(255, 255, 255)),
                background: Some(opaque(0x36, 0x39, 0x3F)),
                border_radius: 3,
                border_width: 0,
                border_color: Rgba { r: 0, g: 0, b: 0, a: 0 },
            }),
    {
        ContainerStyle {
            text_color: Some(white()),
            background: Some(Rgba { r: 0x36, g: 0x39, b: 0x3F, a: 255 }),
            border_radius: 3,
            border_width: 0,
            border_color: transparent(),
        }
    }
}

/// The radio button of the dark theme.
pub struct Radio;

impl Radio {
    pub open spec fn active_spec(&self) -> RadioStyle {
        RadioStyle {
            background: opaque(0x40, 0x44, 0x4B),
            dot_color: opaque(0x72, 0x89, 0xDA),
            border_width: 1,
            border_color: opaque(0x72, 0x89, 0xDA),
        }
    }

    /// On the surface colour, dot and border in the active colour.
    pub fn active(&self) -> (s: RadioStyle)
        ensures
            s == self.active_spec(),
    {
        RadioStyle { background: surface(), dot_color: active_color(), border_width: 1, border_color: active_color() }
    }

    /// As active, on a half-transparent surface.
    pub fn hovered(&self) -> (s: RadioStyle)
        ensures
            s == (RadioStyle { background: Rgba { a: 128, ..opaque(0x40, 0x44, 0x4B) }, ..self.active_spec() }),
    {
        RadioStyle { background: with_alpha(surface(), 128), ..self.active() }
    }
}

/// The text input of the dark theme.
pub struct TextInput;

impl TextInput {
    pub open spec fn active_spec(&self) -> TextInputStyle {
        TextInputStyle {
            background: opaque(0x40, 0x44, 0x4B),
            border_radius: 2,
            border_width: 0,
            border_color: Rgba { r: 0, g: 0, b: 0, a: 0 },
        }
    }

    pub open spec fn focused_spec(&self) -> TextInputStyle {
        TextInputStyle { border_width: 1, border_color: opaque(0x6F, 0xFF, 0xE9), ..self.active_spec() }
    }

    /// On the surface colour, without a border.
    pub fn active(&self) -> (s: TextInputStyle)
        ensures
            s == self.active_spec(),
    {
        TextInputStyle { background: surface(), border_radius: 2, border_width: 0, border_color: transparent() }
    }

    /// As active, with a border in the accent colour.
    pub fn focused(&self) -> (s: TextInputStyle)
        ensures
            s == self.focused_spec(),
    {
        TextInputStyle { border_width: 1, border_color: accent(), ..self.active() }
    }

    /// As focused, with a faint accent border.
    pub fn hovered(&self) -> (s: TextInputStyle)
        ensures
            s == (TextInputStyle { border_width: 1, border_color: Rgba { a: 77, ..opaque(0x6F, 0xFF, 0xE9) }, ..self.focused_spec() }),
    {
        TextInputStyle { border_width: 1, border_color: with_alpha(accent(), 77), ..self.focused() }
    }

    /// Mid grey.
    pub fn placeholder_color(&self) -> (c: Rgba)
        ensures
            c == opaque(102, 102, 102),
    {
        Rgba { r: 102, g: 102, b: 102, a: 255 }
    }

    /// White.
    pub fn value_color(&self) -> (c: Rgba)
        ensures
            c == opaque(255, 255, 255),
    {
        white()
    }
}

/// The scrollable of the dark theme.
pub struct Scrollable;

impl Scrollable {
    pub open spec fn active_spec(&self) -> ScrollbarStyle {
        ScrollbarStyle {
            background: Some(opaque(0x40, 0x44, 0x4B)),
            border_radius: 2,
            border_width: 0,
            border_color: Rgba { r: 0, g: 0, b: 0, a: 0 },
            scroller: ScrollerStyle {
                color: opaque(0x72, 0x89, 0xDA),
                border_radius: 2,
                border_width: 0,
                border_color: Rgba { r: 0, g: 0, b: 0, a: 0 },
            },
        }
    }

    pub open spec fn hovered_spec(&self) -> ScrollbarStyle {
        let a = self.active_spec();
        ScrollbarStyle {
            background: Some(Rgba { a: 128, ..opaque(0x40, 0x44, 0x4B) }),
            scroller: ScrollerStyle { color: opaque(0x67, 0x7B, 0xC4), ..a.scroller },
            ..a
        }
    }

    /// Surface-coloured track, scroller in the active colour.
    pub fn active(&self) -> (s: ScrollbarStyle)
        ensures
            s == self.active_spec(),
    {
        ScrollbarStyle {
            background: Some(surface()),
            border_radius: 2,
            border_width: 0,
            border_color: transparent(),
            scroller: ScrollerStyle { color: active_color(), border_radius: 2, border_width: 0, border_color: transparent() },
        }
    }

    /// Half-transparent track, scroller in the hovered colour.
    pub fn hovered(&self) -> (s: ScrollbarStyle)
        ensures
            s == self.hovered_spec(),
    {
        let active = self.active();
        ScrollbarStyle {
            background: Some(with_alpha(surface(), 128)),
            scroller: ScrollerStyle { color: hovered_color(), ..active.scroller },
            ..active
        }
    }

    /// As hovered, with a light grey scroller.
    pub fn dragging(&self) -> (s: ScrollbarStyle)
        ensures
            s == (ScrollbarStyle {
                scroller: ScrollerStyle { color: opaque(217, 217, 217), ..self.hovered_spec().scroller },
                ..self.hovered_spec()
            }),
    {
        let hovered = self.hovered();
        ScrollbarStyle {
            scroller: ScrollerStyle { color: Rgba { r: 217, g: 217, b: 217, a: 255 }, ..hovered.scroller },
            ..hovered
        }
    }
}

/// The slider of the dark theme.
pub struct Slider;

impl Slider {
    pub open spec fn active_spec(&self) -> SliderStyle {
        SliderStyle {
            rail_color: opaque(0x72, 0x89, 0xDA),
            rail_faint: Rgba { a: 26, ..opaque(0x72, 0x89, 0xDA) },
            handle_radius: 9,
            handle_color: opaque(0x72, 0x89, 0xDA),
            handle_border_width: 0,
            handle_border_color: Rgba { r: 0, g: 0, b: 0, a: 0 },
        }
    }

    /// Rails in the active colour, a round handle of radius 9.
    pub fn active(&self) -> (s: SliderStyle)
        ensures
            s == self.active_spec(),
    {
        SliderStyle {
            rail_color: active_color(),
            rail_faint: with_alpha(active_color(), 26),
            handle_radius: 9,
            handle_color: active_color(),
            handle_border_width: 0,
            handle_border_color: transparent(),
        }
    }

    /// As active, the handle in the hovered colour.
    pub fn hovered(&self) -> (s: SliderStyle)
        ensures
            s == (SliderStyle { handle_color: opaque(0x67, 0x7B, 0xC4), ..self.active_spec() }),
    {
        SliderStyle { handle_color: hovered_color(), ..self.active() }
    }

    /// As active, the handle light grey.
    pub fn dragging(&self) -> (s: SliderStyle)
        ensures
            s == (SliderStyle { handle_color: opaque(217, 217, 217), ..self.active_spec() }),
    {
        SliderStyle { handle_color: Rgba { r: 217, g: 217, b: 217, a: 255 }, ..self.active() }
    }
}

/// The progress bar of the dark theme.
pub struct ProgressBar;

impl ProgressBar {
    /// Surface-coloured track, bar in the active colour, well rounded.
    pub fn style(&self) -> (s: ProgressBarStyle)
        ensures
            s == (ProgressBarStyle { background: opaque(0x40, 0x44, 0x4B), bar: opaque(0x72, 0x89, 0xDA), border_radius: 10 }),
    {
        ProgressBarStyle { background: surface(), bar: active_color(), border_radius: 10 }
    }
}

/// The checkbox of the dark theme.
pub struct Checkbox;

impl Checkbox {
    pub open spec fn active_spec(&self, is_checked: bool) -> CheckboxStyle {
        CheckboxStyle {
            background: if is_checked { opaque(0x72, 0x89, 0xDA) } else { opaque(0x40, 0x44, 0x4B) },
            checkmark_color: opaque(255, 255, 255),
            border_radius: 2,
            border_width: 1,
            border_color: opaque(0x72, 0x89, 0xDA),
        }
    }

    /// In the active colour when checked and the surface colour when not.
    pub fn active(&self, is_checked: bool) -> (s: CheckboxStyle)
        ensures
            s == self.active_spec(is_checked),
    {
        CheckboxStyle {
            background: if is_checked { active_color() } else { surface() },
            checkmark_color: white(),
            border_radius: 2,
            border_width: 1,
            border_color: active_color(),
        }
    }

    /// As active, with the background slightly transparent.
    pub fn hovered(&self, is_checked: bool) -> (s: CheckboxStyle)
        ensures
            s == (CheckboxStyle { background: Rgba { a: 204, ..self.active_spec(is_checked).background }, ..self.active_spec(is_checked) }),
    {
        let base = if is_checked { active_color() } else { surface() };
        CheckboxStyle { background: with_alpha(base, 204), ..self.active(is_checked) }
    }
}

} // verus!
