# entroq

A lossless block codec whose functions are verified with Verus.

Input is staged into regions, each region is cut into blocks, and each block is stored under
the type that stores the fewest bytes of those assembled: RAW, RLE, or COMPRESSED. A block of
one repeated byte is stored as RLE without an assembly, and a block the early-RAW rule claims is
stored as RAW without one, whatever an assembly of it would have stored. A COMPRESSED block is a
sequence of literal runs and matches, split into four symbol streams, each coded by a
length-limited prefix code or by an interleaved range coder over tables the block declares.

| Module        | Owns                                                                   |
|---------------|------------------------------------------------------------------------|
| `format`      | frame, region and block headers, the block prologue, errors and policy |
| `entropy`     | bit streams, the prefix coder, the range coder                         |
| `sequence`    | the alphabets, the sequence representation, its streams, the offset slot |
| `simd`        | the common-prefix kernels                                              |
| `matchfinder` | the bounded hash chain and the single-entry table                      |
| `parser`      | the fast, chained and lazy parses, and the window between blocks       |
| `block`       | the compressed block: assembly, reading, and expansion                 |
| `encode`      | the layout, the selection rule, and the emitter                        |
| `decode`      | the expansion of stored payloads across caller buffers                 |

What holds of the codec as a whole is stated as public proof functions whose names start with
`law_`. The central ones are `encode::laws::law_decoding_undoes_encoding`, that the bytes a fresh
emitter writes for a region, in either mode, decode to the bytes that were staged, and
`encode::frames::law_frame_reads_back`, that a frame of such regions decodes to its content.
