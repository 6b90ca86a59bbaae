# synth_pill

Display-side logic of a small STM32H7 synthesizer with a Sharp LS027B4DH01
memory LCD, written in Verus.

- `src/mask.rs`: LSB-left one-bit pixel rows and blending of ink masks into
  them (clipping, black/white painting, change detection).
- `src/font.rs`: bitmap fonts and glyph lookup (`?` and space fallbacks).
- `src/layout.rs`: text layout and measurement (tracking, tabs, newlines,
  carriage returns, integer scaling), with its laws.
- `src/draw.rs`: drawing laid-out text into any `TextTarget`, row by row,
  with horizontal and vertical scaling.
- `src/ls027b4dh01.rs`: the panel's frame buffer, dirty-line scan, line
  frames and VCOM/all-clear commands; implements `TextTarget`.
- `src/controls.rs`: combining the two wipers of the endless potentiometer.
- `app/`: the firmware around the library (HAL set-up, tasks, panic LED,
  floating-point synthesis code).
