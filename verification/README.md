# s3_transfer

A command-line tool that moves files to and from an S3-compatible object store
(upload, folder upload, download, folder download, listing, content-type
change, move), built around a library whose logic is proved with Verus.

- `src/` is the verified library: the chunk plan of an upload and the byte
  ranges of a download (`chunking`), the rules on keys and remote paths
  (`keys`), the selection of listing entries and the reading of HEAD answers
  (`listing`), the bookkeeping of multipart-upload parts (`upload`), the
  SHA-256 checksum header (`checksum`), the upload order of a folder
  (`ordering`), the settings (`settings`), and string helpers (`text`).
- `app/` is the program around it: argument parsing, the settings file, logging,
  file and network I/O with the AWS SDK.
- `tests/` exercises the library on concrete values.
