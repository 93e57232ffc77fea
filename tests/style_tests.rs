use oxel::style::{Button, Checkbox, Container, LightButton, ProgressBar, Radio, Rgba, Scrollable, Slider, TextInput, Theme};

fn rgb(r: u8, g: u8, b: u8) -> Rgba {
    Rgba { r, g, b, a: 255 }
}

#[test]
fn default_theme_is_light() {
    assert_eq!(Theme::default(), Theme::Light);
    assert_eq!(Theme::all(), [Theme::Light, Theme::Dark]);
}

#[test]
fn dark_button_states() {
    let active = Button.active();
    assert_eq!(active.background, Some(rgb(0x72, 0x89, 0xDA)));
    assert_eq!(active.border_radius, 3);
    let hovered = Button.hovered();
    assert_eq!(hovered.background, Some(rgb(0x67, 0x7B, 0xC4)));
    assert_eq!(hovered.text_color, rgb(255, 255, 255));
    let pressed = Button.pressed();
    assert_eq!(pressed.border_width, 1);
    assert_eq!(pressed.border_color, rgb(255, 255, 255));
    assert_eq!(pressed.background, hovered.background);
}

#[test]
fn light_button_hover_deepens_shadow() {
    let active = LightButton.active();
    let hovered = LightButton.hovered();
    assert_eq!((active.shadow_x, active.shadow_y), (1, 1));
    assert_eq!((hovered.shadow_x, hovered.shadow_y), (1, 2));
    assert_eq!(hovered.background, Some(rgb(28, 107, 222)));
}

#[test]
fn dark_widgets() {
    assert_eq!(Container.style().background, Some(rgb(0x36, 0x39, 0x3F)));
    assert_eq!(Radio.hovered().background, Rgba { r: 0x40, g: 0x44, b: 0x4B, a: 128 });
    assert_eq!(Radio.hovered().dot_color, Radio.active().dot_color);
    assert_eq!(TextInput.hovered().border_color, Rgba { r: 0x6F, g: 0xFF, b: 0xE9, a: 77 });
    assert_eq!(TextInput.placeholder_color(), rgb(102, 102, 102));
    assert_eq!(Scrollable.dragging().scroller.color, rgb(217, 217, 217));
    assert_eq!(Scrollable.hovered().scroller.color, rgb(0x67, 0x7B, 0xC4));
    assert_eq!(Slider.active().rail_faint.a, 26);
    assert_eq!(Slider.dragging().handle_radius, 9);
    assert_eq!(ProgressBar.style().border_radius, 10);
}

#[test]
fn checkbox_follows_checked_state() {
    assert_eq!(Checkbox.active(true).background, rgb(0x72, 0x89, 0xDA));
    assert_eq!(Checkbox.active(false).background, rgb(0x40, 0x44, 0x4B));
    assert_eq!(Checkbox.hovered(false).background, Rgba { r: 0x40, g: 0x44, b: 0x4B, a: 204 });
}
