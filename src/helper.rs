//! Colour arithmetic for the LED panel.

use vstd::prelude::*;

verus! {

/// An LED colour, one byte per component.
#[derive(Debug, Clone, Copy, PartialEq, Eq, Structural)]
pub struct Color {
    pub red: u8,
    pub green: u8,
    pub blue: u8,
}

/// A component dimmed by `factor / 256`.
pub open spec fn scaled(c: u8, factor: u8) -> u8 {
    (c as nat * factor as nat / 256) as u8
}

/// A sum of components, capped at full brightness.
pub open spec fn saturated(sum: int) -> u8 {
    if sum > 255 {
        255
    } else {
        sum as u8
    }
}

/// `c` dimmed by `factor / 256`.
pub open spec fn scaled_color(c: Color, factor: u8) -> Color {
    Color {
        red: scaled(c.red, factor),
        green: scaled(c.green, factor),
        blue: scaled(c.blue, factor),
    }
}

/// No light.
pub open spec fn blank() -> Color {
    Color { red: 0, green: 0, blue: 0 }
}

/// `color` dimmed by `factor / 256`.
pub fn scale(color: &Color, factor: u8) -> (r: Color)
    ensures
        r == scaled_color(*color, factor),
{
    proof {
        lemma_scaled_fits(color.red, factor);
        lemma_scaled_fits(color.green, factor);
        lemma_scaled_fits(color.blue, factor);
    }
    Color {
        red: (color.red as u32 * factor as u32 / 256) as u8,
        green: (color.green as u32 * factor as u32 / 256) as u8,
        blue: (color.blue as u32 * factor as u32 / 256) as u8,
    }
}

proof fn lemma_scaled_fits(c: u8, factor: u8)
    ensures
        c as nat * factor as nat <= 255 * 255,
        c as nat * factor as nat / 256 < 256,
{
    assert(c as nat * factor as nat <= 255 * 255) by (nonlinear_arith)
        requires
            c <= 255,
            factor <= 255,
    ;
}

/// The additive mix of three colours, each component capped at 255.
pub fn combine(a: &Color, b: &Color, c: &Color) -> (r: Color)
    ensures
        r.red == saturated(a.red + b.red + c.red),
        r.green == saturated(a.green + b.green + c.green),
        r.blue == saturated(a.blue + b.blue + c.blue),
{
    let mut r: u32 = a.red as u32 + b.red as u32 + c.red as u32;
    let mut g: u32 = a.green as u32 + b.green as u32 + c.green as u32;
    let mut bl: u32 = a.blue as u32 + b.blue as u32 + c.blue as u32;
    if r > 255 {
        r = 255;
    }
    if g > 255 {
        g = 255;
    }
    if bl > 255 {
        bl = 255;
    }
    Color { red: r as u8, green: g as u8, blue: bl as u8 }
}

/// The additive mix of two colours, each component capped at 255.
pub open spec fn added(a: Color, b: Color) -> Color {
    Color {
        red: saturated(a.red + b.red),
        green: saturated(a.green + b.green),
        blue: saturated(a.blue + b.blue),
    }
}

/// Adds `other` onto `color`, each component capped at 255.
pub fn add_assign(color: &mut Color, other: &Color)
    ensures
        *final(color) == added(*old(color), *other),
{
    let r: u32 = color.red as u32 + other.red as u32;
    let g: u32 = color.green as u32 + other.green as u32;
    let b: u32 = color.blue as u32 + other.blue as u32;
    color.red = if r > 255 {
        255
    } else {
        r as u8
    };
    color.green = if g > 255 {
        255
    } else {
        g as u8
    };
    color.blue = if b > 255 {
        255
    } else {
        b as u8
    };
}

} // verus!
