# pcap_parser

Parses the application payloads of packet capture (PCAP) files by protocol
templates, and drafts templates from the payloads themselves.

The library in `src/` is written in Verus and every function in it carries a
contract that Verus proves:

- `pcap`: reading capture files held in memory, and finding the payload
  behind the Ethernet, IPv4 and TCP/UDP headers.
- `template`: the template model (scalars, structures, conditions, arrays).
- `parser`: the template interpreter, with its model in spec functions.
- `compiler`, `bytecode`, `vm`: the template compiler and the bytecode
  machine that runs compiled templates.
- `engines`: on templates of scalars and structures, the machine and the
  interpreter give the same result; with arrays of scalars, the same
  result whenever the interpreter succeeds.
- `analyzer`, `infer`: per-offset byte statistics, field and signature
  inference, and template drafts.
- `output`: JSON records and CSV rows of parse results.
- `editor`: the edits of the interactive template editor.
- `json`, `scalar`, `numeric`, `bytes`, `decimal`, `hexcodec`: values,
  byte-level decoding and text.
- `capture_gen`: the sample capture files.

`app/` is the command line around the library (`parse`, `infer`,
`list-templates`): file and terminal I/O, template files through serde, the
terminal editor, and the formatting of floating-point numbers.
