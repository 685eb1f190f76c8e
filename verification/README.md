# minecraft_dungeons_ai

A reinforcement-learning environment for a dungeon crawler: synthetic or
recorded maps, fog of war, a pixel renderer, a curriculum of phases, and a
PPO trainer.

The library under `src/` is verified with Verus. It holds the integer logic:
map generation and room detection, start and exit placement, reading `.npy`
level grids, fog of war, the view, circles, resizing and minimap of the
renderer, frame stacking, the curriculum, best times, checkpoint timing and
the settings' defaults. Grids are `ndarray` arrays behind a small verified
interface (`grid.rs`); random draws come from `rand` (`random.rs`).

`app/` is the program around it: the command line, file and directory
access, threads, the viewer window, the floating-point parts of the
simulation (movement, combat, rewards, distance fog) and the neural network.

`tests/` runs the library on concrete inputs.
