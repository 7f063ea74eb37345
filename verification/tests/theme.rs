use loadpeek::theme::{
    BASE, BLUE, CRUST, GREEN, LAVENDER, MANTLE, MAUVE, PEACH, RED, SUBTEXT, SURFACE0, TEAL, TEXT,
    YELLOW,
};

fn luminance(color: u32) -> f64 {
    let linear = |channel: u32| {
        let value = f64::from(channel & 0xff) / 255.0;
        if value <= 0.04045 {
            value / 12.92
        } else {
            ((value + 0.055) / 1.055).powf(2.4)
        }
    };
    0.2126 * linear(color >> 16) + 0.7152 * linear(color >> 8) + 0.0722 * linear(color)
}

fn contrast(a: u32, b: u32) -> f64 {
    let (a, b) = (luminance(a), luminance(b));
    (a.max(b) + 0.05) / (a.min(b) + 0.05)
}

#[test]
fn all_text_colors_pass_wcag_aa_on_text_surfaces() {
    for background in [BASE, MANTLE, CRUST, SURFACE0] {
        for foreground in [
            TEXT, SUBTEXT, MAUVE, BLUE, GREEN, TEAL, PEACH, YELLOW, RED, LAVENDER,
        ] {
            let ratio = contrast(foreground, background);
            assert!(
                ratio >= 4.5,
                "{foreground:?} on {background:?}: {ratio:.2}:1"
            );
        }
    }
}

#[test]
fn chart_strokes_and_control_boundaries_pass_nontext_contrast() {
    for foreground in [MAUVE, BLUE, GREEN, TEAL, PEACH, YELLOW, RED, LAVENDER] {
        assert!(contrast(foreground, BASE) >= 3.0);
    }
    for background in [BASE, MANTLE, CRUST, SURFACE0] {
        for boundary in [SUBTEXT, MAUVE, LAVENDER] {
            assert!(contrast(boundary, background) >= 3.0);
        }
    }
}
