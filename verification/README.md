# apfsrelic

The verified core of a recovery toolkit for APFS images: it finds out what can be
recovered, lays file data out by its extents, recovers files, folders and whole
manifests, and builds the history of a volume over its snapshots.

- `src/` is the library. Every function has its contract there, and Verus proves it.
  What an image, a destination or a decoder answers is left open: the traits
  `ApfsImage`, `TreeReader`, `Container`, `SnapshotSource`, `Destination` and `Codec`
  promise nothing beyond the length of a block. A destination is only reached through
  its `Journal`, and contracts over the journal say what it is asked, in which order,
  that nothing else is, and what follows from each answer; what a person is told along
  the way stands in the journal too. A file's data goes to the destination block by
  block, while it is read. Of the blocks of a device
  `BlockReads` says the same. Of images and decoders contracts say what is asked of
  them and what follows from each answer; that nothing else is asked they do not say.
  The public proof functions whose names begin with `law_` state what holds of the
  library as a whole.
- `tests/` runs the library on images and file systems in memory.
- `app/` holds the commands: the file system of the machine as a destination, the
  decoder of the platform, and reading and writing manifests.

A few functions of the standard library are taken on trust: `String::push`,
`str::from_utf8`, `char::to_lowercase` and the `Debug` text of a string.
