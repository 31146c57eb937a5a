# checkpoint-explorer

Browse model checkpoints in the terminal: the tree of tensors, the data inside them, and
the differences between two checkpoints.

`src/` is a library written in Verus. It holds the rules of the program: reading headers,
building and folding the tree, searching, what each key and click does, sampling and
decoding values, comparing checkpoints, drawing reports, and planning a repack. Every
function states what it returns in its `ensures` and is proved to do so, but for the few
that call another crate or a function of std that has no contract: what those state is
trusted. Proof functions named `law_…` state what holds of several functions together.

`app/` is the program around it: the command line, files, the terminal, threads, SSH, and
all floating-point work. Results of floating point (means, distances, colours) enter
the library as texts and integers.

## Modules

| modules | what they hold |
| --- | --- |
| `text`, `order`, `namemap`, `names`, `paths`, `units`, `json` | texts, sorting, ordered maps, names, paths, sizes, JSON |
| `tree`, `leaves`, `explorer`, `filetree` | the tree of tensors, what it holds, the browser, the file tree |
| `keys`, `prompts`, `inputs`, `screens`, `session`, `dataview`, `open`, `commands`, `load` | keys, prompts, screens, and the way back to them |
| `header`, `hdf5`, `health`, `files`, `remote`, `config` | reading checkpoints |
| `sample` | sampling, decoding and reading regions of a tensor |
| `scan` | exact statistics of a whole tensor |
| `diff`, `diff_laws`, `schema`, `filter`, `comparison` | comparing two checkpoints |
| `stats`, `progress`, `plain`, `tui`, `img` | reports, progress, plain text, pictures |
| `codec`, `convert` | codecs and repacking |
| `cli` | the command line as plain values |

The trusted functions are marked `#[verifier::external_body]` or stand in an
`assume_specification`, each with a comment that says what is claimed of the call.

HDF5 files are read and repacked where the program is built with the `hdf5` feature.
