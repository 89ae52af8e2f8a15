# ovreplay

Replay one recorded OpenVINO GPU inference over plain OpenCL. A recording is a
directory with the text of the inference (`replay.txt`), its constants
(`weights.bin`), the device binaries (`prog_<n>.bin`), and the inputs and
outputs of the recorded inference (`golden.bin`).

`src/` is a library verified with Verus. It makes no calls into OpenCL and
reads no files: it decides what is to be done, and states in contracts what
that is.

| module | what it holds |
| --- | --- |
| `text`, `number` | lines, words and numbers of a text |
| `plan` | `replay.txt`, from text to plan |
| `layout` | where each allocation of a plan lies |
| `trace`, `script` | what makes a plan ready on the device, in order |
| `replay` | ports, runs, and the check against the recorded outputs |
| `load` | the way in: the device check, the script, the driver check |
| `cl`, `error` | what OpenCL's answers mean, and what can go wrong |
| `runner` | the words of the command-line runner |

Public proof functions whose names begin with `law_` state what holds of the
library as a whole. Two facts are taken on trust, both of the standard library:
what `String::push` and `String::from_utf8_lossy` do.

`app/` carries the commands out: it opens the first GPU, reads the files, makes
the OpenCL calls, and hands the answers back.
