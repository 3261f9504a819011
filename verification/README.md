# Waveroll

A rolling sampler: it captures the last bars of whatever is playing, and lets you select a
bar-quantised region and export it as a file.

`src/` is the library, verified with Verus. It holds everything that decides or encodes:

| Module | What it does |
| --- | --- |
| `ring` | the overwriting audio ring and its readers |
| `midi` | the MIDI lane, and how notes, controllers and bends are read from it |
| `tempo` | the tempo map as a list of segments |
| `clock` | the capture rule, splices, and which MIDI clock ticks count |
| `grid` | clicks, drags, the number row, the unit ladder, grid lines |
| `view` | the wrapping display: what each pixel column draws from |
| `session`, `take` | selection, markers, hold, erosion; one captured block |
| `wav`, `quantise` | WAV files with their metadata, and exact quantisation with dither |
| `smf`, `reading` | Standard MIDI Files, and that exported files read back |
| `fft`, `envelope`, `render` | buffers, schedules and draw orders for the GPU |

Samples are carried as the 32 bits of their floats. Tempo and bar positions are values of a number
type that the caller picks; the arithmetic on them is the caller's, handed in as plain values or as
functions, and the library decides what follows from it.

Public proof functions whose names begin with `law_` state what holds of the library as a whole.

`app/` supplies double-precision arithmetic, the GPU passes, the C interface of the plugin and the
browser binding. `tests/` runs the library on concrete values, with the same arithmetic.
