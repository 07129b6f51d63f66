# harken

Local, offline audio transcription (whisper.cpp) with a WhatsApp chat-export
mode. This crate is its verified core, written in Verus:

- `header`, `attachment` — the iOS and Android message-header grammars and
  the attachment markers of message bodies.
- `whatsapp` — chat parsing (format detected once per chat, day/month order
  inferred from the whole chat, invalid calendar dates folded into the
  previous message), selection by type and inclusive date range, the zip
  member lookup, extraction planning and the merged chat with inlined
  transcripts.
- `collect`, `batch` — which files a batch run transcribes (explicit paths,
  directory walks and globs, ordered and de-duplicated by path components),
  output naming per stem, and the run's tally and exit code.
- `writers`, `engine`, `manifest` — the txt/srt/md documents, segment text
  assembly, and reading transcripts back from the manifest.
- `model`, `audio`, `cli`, `date`, `path`, `text` — model resolution, the
  decoding route and Opus header, argument defaults, calendar dates, Unix
  path semantics and character-level helpers.

`app/` is the program around it: command-line parsing, file and zip I/O,
audio decoding (float samples), the whisper.cpp FFI, JSON output and model
download.
