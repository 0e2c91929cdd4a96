# mfsutils

Tools in the style of hfsutils for reading Macintosh MFS disk images (the
flat filesystem of the Macintosh 128K/512K): `mfsmount`, `mfsumount`,
`mfsls`, `mfscd`, `mfspwd` and `mfscopy`, which exports files as
MacBinary II, BinHex 4.0, text or raw data.

The library under `src/` is written in Verus, and every function in it is
verified against its contract. Two facts about the standard library are
taken on trust rather than proved (in `src/text.rs`): that `String::push`
appends its character, and that `str::to_lowercase` gives a result that
depends only on the string's characters. The modules:

- `mfs` takes a raw image or DiskCopy 4.2 container apart (master directory
  block, allocation map, file directory) and follows allocation chains;
- `macbinary` and `binhex` encode a file with both forks and its Finder
  information, `util` holds CRC-16, MacRoman decoding, dates and
  case-insensitive globbing, `calendar` the civil calendar;
- `listing`, `commands` and `mount` hold what the commands decide: which
  files a pattern names, what `mfsls` prints, which files `mfscopy`
  writes and how, and the text of the mount state file.

`app/` is the command-line program around it: arguments, the state file,
reading images and writing files.
