# eapp-tools

Tools for the game binaries of click-wheel iPods ("eApps"): a reader of their import tables, an
audit of which framework calls they reach, a static disassembly reader, and a player.

- `src/` is the library. It is written in Verus: every function states what it returns or changes,
  and the verifier proves it. It reads no file and opens no window.
- `app/` is the program around it: arguments, files, the window, the sound players, and the calls
  into the emulator (`eapp_loader`) and the disassembler (`arm7tdmi`).
- `tests/` runs the library on concrete values.

| modules | what they hold |
|---|---|
| `eapp`, `sinf`, `names`, `report`, `aggregate`, `hexdump` | the container format, its licence atoms, file names, and their reports |
| `arm`, `image`, `listing`, `callfmt`, `search` | instructions, flat images read by address, listings, references, call formats |
| `coverage`, `imports`, `audit`, `audit_report` | what a binary reaches, what is implemented, and the difference |
| `titles`, `options`, `args` | per-title settings and the command line |
| `input`, `script`, `frame`, `sound`, `reaper` | the wheel and buttons, scripted runs, the frame pump, the voice pool, started processes |
| `stats`, `journal` | counts over a run and the lines that show it |
| `bytes`, `text`, `table` | bytes, text and sorted tables |

Proof functions whose names begin with `law_` state what holds across functions: that a scan finds
every block, that a forgotten process is not reaped, that an event is withdrawn after it was seen,
that no completion is lost.

The player runs in a window, or without one:

    eapp-tools play path/to/Executables/game.bin
    eapp-tools play path/to/Executables/game.bin --headless --frames=120 --fixed-clock --fps=0

`--headless` requires `--frames=N` and mutes audio unless `--audio` is given.
