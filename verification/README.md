# laberinto

A ray-cast maze game. `src/` is the verified library:

- `framebuffer` – the pixel buffer (`point`, `clear`, colour channels).
- `draw` – boxes, maze cells and whole mazes, full-screen pictures, sprites,
  the mini-map marker and the columns of the 3D view, each specified pixel by
  pixel.
- `text` – the frame counter drawn from a glyph file.
- `maze` – the maze grid: parsing its file, wall tests, what a ray hits.
- `texture` – images decoded with the `image` crate, and colour lookups.
- `enemy` – the cats, and how a round of the hunt catches and counts them.
- `game` – which screen the game shows next.

`app/` is the program around it: the window and keyboard (`minifb`), the
music (`rodio`), reading files, and everything computed in floating point
(the player's movement, ray marching, sprite placement and wall heights).
