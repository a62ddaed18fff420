# minecraft_rust

A voxel world in the style of Minecraft: square chunks of blocks generated
from terrain noise, faces hidden where blocks touch, meshes rebuilt as the
player breaks and places blocks, and a grid of chunks that follows the player.

- `src/` is the library, verified with Verus: block kinds (`block`), the store
  of placed and broken blocks (`set_blocks`), chunk generation, trees and
  meshes (`chunk`, `trees`), the grid of chunks with face checks, chunk
  movement and the update queue (`world`), and the player's keys and moves
  (`input`). The properties proved of several functions together stand as
  public proof functions at the end of `chunk`, `trees`, `world` and `input`.
- `tests/` runs the library on concrete worlds.
- `app/` is the game around it: the window, terrain noise, the camera, block
  lookups by position, and drawing with glium. It expects a texture atlas
  `TextureTemplate.png` and sky images in `resources/`.
