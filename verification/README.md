# afb_dds

Converts images to DDS textures for AFB stage containers and takes such
containers apart, with the logic verified by Verus.

- `src/chunks.rs`: finding byte signatures, splitting a container into its
  DDS chunks, replacing chunks, naming extracted chunk files; with the laws
  that hold of located chunks and of replacement.
- `src/texture.rs`: RGBA images, resizing to a target size, the 2-by-2 tile
  layout of effect textures, the sizes and formats of each texture kind,
  image signature checks.
- `src/afb.rs`: extracting the textures of a container and filling in a
  stage template.
- `src/wide.rs`: UTF-16 decoding and encoding for the C interface, with the
  round-trip laws.
- `app/`: the C entry points, image decoding, DDS compression with
  DirectXTex, and all file access.
