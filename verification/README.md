# game

Game logic with contracts proved by Verus, and the program around it.

- `src/` is the verified library:
  - `cards`: blackjack dealing (never deals a played card) and hand values.
  - `bullets`: the bullet pool with its used part and spare slots.
  - `collision`: collision layers (masks) in front of the shape tests.
  - `ground`: the walk down the ground's tree of boxes.
  - `packet`: decoding client datagrams and queueing the recent ones.
  - `projectiles`: handing projectiles over between the cells of the world grid.
  - `input`: the keys held down and the mouse button, from window events.
  - `gpu_buffer`: lengths, offsets and growth of vector-like GPU buffers.
  - `render`: index records that tie instances to models, and finding a
    model's slot by name.
  - `model_layout`: laying out a model's scenes and node trees as flat tables.
- `app/` holds what stays outside: floating-point geometry and physics, the
  UDP socket, the GPU calls, and `main` (the blackjack demo and the server
  loop). The windowed client (window events, model loading, rendering) is not
  here: the window, model-file and async crates it needs are not among the
  dependencies.
- `tests/` runs the library on concrete values.
