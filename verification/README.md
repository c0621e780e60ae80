# llama_bot

A Matrix chat bot that answers room messages with llama.cpp worker processes.

- `src/` is the verified library (Verus): the configuration and the worker
  command line (`config`, `worker::profile`), the worker launch flags, the
  startup marker and the reply scanner that finds the end of a model answer
  (`worker`, `worker::text`), and the router that gives rooms workers and keeps
  a fixed number of worker slots (`bot`). Rooms are registered on their
  first message; a room without a worker takes the front ready one, else
  waits for the next worker being started, and only when every worker is busy
  shares the one that serves the fewest rooms. The room commands are
  `!help`, `!start`, `!stop` and `!reset`.
- `app/` is the program around it: YAML loading, the Matrix client, the
  llama.cpp child processes and the async tasks.
- `tests/` runs the library on concrete values.
