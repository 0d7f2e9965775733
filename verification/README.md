# sound_locator

Library part of a two-microphone sound locator for the STM32F746 discovery
board, verified with Verus.

- `src/filter.rs`: the circular stereo audio buffer and the 33-sample moving-sum filter.
- `src/gui.rs`: points, vectors and boxes on the 480x272 display; the integer
  square root; the pixels of boxes and of vectors (Bresenham's algorithm).
- `src/sonar_localization.rs`: splitting the stereo buffer into channels and
  locating falling zero crossings.
- `app/`: the firmware around the library: hardware start-up, the audio polling
  loop, the floating-point direction estimate, and drawing on the LCD.
