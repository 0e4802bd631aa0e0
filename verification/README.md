# h264_ref_list

Reference picture lists and reference picture marking for an H.264 decoder,
verified with Verus.

The library works on a decoded picture buffer, a slice of `DpbEntry` values, and
on lists of their storage keys. It reads no bitstream and holds no samples.

| Module | What it holds |
| --- | --- |
| `picture` | the entries of the buffer, the operations of a slice header, picture numbers |
| `init` | initial lists for P and B slices, in frames and in fields |
| `fields` | reference frames regrouped from fields, and how their fields take turns |
| `modify` | modification of a list |
| `sliding_window` | sliding window marking |
| `mmco` | adaptive marking by memory management control operations |
| `marking` | the whole marking process of a picture |
| `sort`, `arith` | stable sorting by rank, truncation to 32 bits |

Each public function states its result over sequences of entries and keys. The
modules whose names end in `_laws` prove what holds of all results: which
pictures a list holds and in which order, what a modification keeps, that the
buffer stays within its capacity, and that picture numbers tell pictures apart.

The functions ask for nothing but that picture numbers can be formed in 32 bits.
`law_modification_in_range` and `law_mmco_in_range` show that a slice header that
keeps to its value ranges gives that.
