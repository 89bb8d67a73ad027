# cull

A fast, keyboard-driven tool for culling RAW+JPEG pairs before import. It shows each JPEG of a folder
full screen and lets you mark shots for deletion. When you finish, marked shots (JPEG, RAW and any
`.xmp` sidecars) go to the system Trash, and what is left can be moved into a new, dated folder.

`src/` is the library: every rule of the tool, with contracts that Verus proves. `app/` is the
program around it: the window, the GPU, the disk and the worker threads. `tests/` runs the library.

| Module | What it holds |
|---|---|
| `catalog` | which files make a shot |
| `app`, `keys`, `scene` | the screens: what is marked, what keys do, what is shown |
| `state` | what is remembered between runs |
| `delete`, `relocate` | the trash and the dated folder: what is tried, in what order, and what is reported |
| `lineedit` | the text field for the folder, with a few vi keys |
| `loader`, `scale` | decoding, orienting and downsizing, and which images are worth it |
| `frame` | which frame headers the JPEG decoder can be given |
| `tags`, `makernote`, `meta` | EXIF fields, the in-camera colour profile, and the rows that show them |
| `render`, `layout` | textures in tiles, draws in batches, cells in rows |
| `paths`, `order`, `text` | paths, the order of texts, and characters |

Paths are texts with `/` between the components. What comes from outside the library stands behind
functions whose doc comments say what is taken on trust: the EXIF parser, the JPEG decoder, the
image resizer, and Unicode's tables in the standard library. Two things about them:

- The JPEG decoder is trusted as a release build has it, without overflow checks. With overflow
  checks on, a damaged or crafted picture can overflow its arithmetic and stop the program.
- Which values the pixels of a downsized image have is not stated, only what was handed to the
  resizer and which size was asked for: the filter's weights are computed in floating point, with a
  precision that is the platform's.
