# boardwatch

Watches a game of Chinese chess in a window of the screen, asks an engine for
the best move, and plays it with the mouse.

`src/` is the library, verified with Verus. It neither captures the screen nor
moves the mouse; it decides.

| module | what it holds |
| --- | --- |
| `rounding`, `single` | single-precision arithmetic on integers, proved correct |
| `board` | the board, the sides, moves |
| `common` | from the detector's boxes to the board and its place on the screen |
| `calibration` | which part of the window is watched |
| `frame`, `buttons` | the buttons that a finished game shows |
| `clicks`, `gestures` | where to click, and how |
| `analysis` | reading a board, reading the engine's answer |
| `context`, `protocol`, `worker` | the watcher, as a machine that asks its host for one thing at a time |
| `laws` | what holds of the watcher over any number of steps |
| `startup` | what is decided before the watching begins |

`app/` is the program around it: capturing, detecting, the engine, the mouse and
the user interface.
