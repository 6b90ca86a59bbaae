//! Text rendering and display-driver logic for a Sharp memory LCD on a small
//! synthesizer: bitmap fonts, one-bit mask blending, text layout, and the
//! line-oriented frame buffer of the LS027B4DH01 panel.

pub mod controls;
pub mod draw;
pub mod font;
pub mod layout;
pub mod ls027b4dh01;
pub mod mask;
