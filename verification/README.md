# render

A pixelated fire for a 40x32 WS2812 LED matrix (five 8x32 panels), drawn at
20x16 and scaled up 2x2, and the same fire on a browser canvas.

- `src/` is the verified library:
  - `pixmap`: matrix coordinates to positions on the zig-zag LED chain, with
    its inverse and the proofs that the matrix maps one-to-one onto the chain;
  - `fire`: the heat model of the flames, its update step and the iterator
    over its pixels, with the laws that the update keeps;
  - `matrix`: one frame on the LED matrix: the 2x2 painting, the brightness
    pulse, and gamma correction and dimming through `smart-leds`;
  - `palette`, `canvas`, `request`: the fire's colours, CSS fill styles, and
    the body of a settings request.
- `app/` is the program around it: the ESP32 threads, Wi-Fi, the HTTP
  settings server, the LED driver, the browser canvas, and the random,
  floating-point draws that drive the fire.
