# rocom_pets

The verified core of a desktop-pet runtime: pets from exported game packs
walk on the desktop, change faces, play scripted scenes and answer to a tray
menu. This crate holds the decisions of that runtime that work on plain
values, written in Verus with their contracts proved:

- `assets`, `pack`, `material`, `config` — pack locations and archives,
  manifest face curves and cards, material roles, pack lists (sorted by
  name) and names,
  the frame-rate range and `~` expansion;
- `persona`, `glassy`, `act` — faces and personas, appearance mutations and
  their roster spelling, the commands and names of scripted scenes;
- `mask`, `target`, `model`, `skeleton`, `draws` — hit-test silhouettes
  and which pet's silhouette is read back each frame, canvas supersampling,
  decoded textures, loose mesh pieces, skeleton order and root joint, and
  which render pass draws each primitive;
- `control`, `tray`, `platform` — control codes between processes, the tray
  menu, window styles;
- `text` — the string toolkit the rest is written with.

Not here: the windowing, GPU and audio shell, model loading from glTF, the
scene player that runs scripted scenes frame by frame, and the animation
maths, which are floating point.

`tests/` exercises the library as a user would. `app/` is the command-line
shell around it: configuration and pack files on disk, zip archives, and the
few computations done in floating point.
