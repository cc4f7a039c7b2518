# obs-gamepad

An overlay that shows the inputs of a controller, for streams and recordings: a window, or a web
server whose pages OBS can show.

`src/` is the logic, verified with Verus: layouts and their bounds, XInput reports, what an image
of the overlay shows, labels, the label page, skin events, requests and streams, live reloading, the
command line.
Numbers are single-precision floating-point numbers held as bit patterns, with an arithmetic of
their own whose contracts are stated over integers (`src/scalar.rs`, `src/arith.rs`).

What the library trusts without proof is in two files. `src/canvas.rs` holds what it takes from
tiny-skia's `Pixmap`: making an image, its size, its bytes, setting one byte, encoding a PNG.
`src/text.rs` holds two functions of the standard library: `String::push`, and `==` on string
slices.

`app/` is the program around the library: arguments, files, sockets, windows, fonts, and the calls
that draw paths. It reads XInput controllers and layouts in TOML:

```toml
show_labels = true

[[buttons]]
id = 12
x = 40
y = 40
radius = 15
fill = ["#ffffff", "#404040"]           # active, inactive
outline = { color = "#000000", width = 2 }
label = "A"
skin = "a"

[[sticks]]
x_axis = 0
y_axis = 1
x = 100
y = 40
radius = 12
displacement = 8
fill = "#808080"
gate = { x = 100, y = 40, radius = 22, color = "#000000", line = 2 }
skin = "left"

[[axes]]
id = 16
x = 150
y = 40
width = 10
height = 60
direction = "bottom_to_top"
fill = ["#ff0000", "#400000"]
```

Skin and fonts are read from `assets/` next to the program.
