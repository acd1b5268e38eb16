# photo_cleanup

The decisions behind a photo-archive cleanup tool, verified with Verus.

`src/` holds the library. Every function there carries a contract that
Verus proves, except the few marked `#[verifier::external_body]` that call
blake3, kamadak-exif, quick-xml or std: their contracts are believed, and
each names in its doc comment the outside function it calls and what is
assumed of it.

- `sniff`, `jpeg`, `tiff`, `probe`: what a file is, how large its picture
  is, and which embedded preview of a raw file to use.
- `meta`: capture dates from EXIF and from file names; `meta::camera` reads
  the EXIF block with kamadak-exif and composes the metadata, and
  `meta::xmp` reads the provenance chain of an XMP packet with quick-xml.
- `hash`: content digests (BLAKE3) of bytes, of grey pixels and of whole
  frames, and perceptual-hash distances.
- `unionfind`, `family::grouping`: which files become one family, from exact
  links, verified perceptual pairs and frames of one moment.
- `family::links`, `family::perceptual`: the exact links files assert, and
  the pairs worth comparing on their pixels.
- `family::roles`, `family::series`, `family::folders`, `family::curation`,
  `family::plan`, `family::originals`: what part each file plays, bursts,
  which folder a burst keeps its copies in, what Lightroom protects, what
  may be removed, and which file a folder marked as holding originals keeps.
- `family::review`: the review queue, group by group: whether a group is an
  exact copy, whether it may go into a plan, the shared decision of its
  members, and the snapshot (serde_json text) a decision is tied to.
- `family::reports`: what the family stages count as they go.
- `db`: the index's row types, and the folders marked as holding originals.
- `lightroom`: how a catalog spells a master's path.
- `desktop`: where the desktop app keeps its data, opening or creating its
  database, moving it, where the window comes back, quitting.

`app/` is the thin rest: reading and writing files, the floating-point part
of the EXIF block, and the launcher's `main`. `tests/` runs the library on
concrete cases.
