# lawean_amend

A verified library for the amendment instructions (改め文) of Japanese statutes and
ordinances. Every function of `src/` carries a contract that Verus proves; the contracts
are stated over spec functions on character sequences, so what a function returns is
pinned down for every input.

## Layout of `src/`

| module | what it holds |
|---|---|
| `numeral`, `place` | kanji and decimal numerals (`百五十三`, `３４`); the parts of a place (`附則第五条の二第三項第一号ロ`) |
| `article_num` | article numbers (`12_2`, ranges), their labels, and the rules of succession |
| `normalize`, `quotes`, `segments`, `segment_laws` | an instruction sentence in normal form, its quoted phrases, its segments, and its readings with the brackets inside phrases masked |
| `locs`, `containers`, `list_forms`, `table`, `phrase`, `phrase_forms`, `phrase_op` | reading places after the places named before them (`同条`, `同項`), table targets, and the phrase edits of a segment (`中「A」を「B」に改め`) |
| `op`, `labels` | the operations an instruction stands for; names of places and divisions; marked wording and the protected replacement of a phrase |
| `ident`, `ident_laws`, `derive`, `derive_laws` | the identity algebra of paragraph revisions, with its laws, and the derivation of a unit from two revisions |
| `body`, `body_refs`, `body_laws`, `hane`, `hane_cands` | references inside paragraph bodies (and reading a text into a body), the consequential fixes (ハネ) of an amendment, and the resolved references that an amendment moves |
| `scenario`, `compare` | orders in which amendments enforce; comparing snapshots of provisions |
| `content_lines`, `reiki*`, `rewrite`, `lines` | heads of lines of added provisions; ordinances (例規): their style of instruction, their provisions as e-Gov statute data |
| `text` | string helpers; `push_char` is the one trusted wrapper (`String::push`) |

`tests/` runs the library on concrete values; `app/` gives the error type `Display` and
`std::error::Error`.

## Scope

The library reads the parts of an instruction sentence: its normal form, its segments,
the places it names (with `同条`, `同項`), its table targets and its phrase edits. It does
not yet hold the full table of instruction forms that reads a whole sentence into
operations, nor the splitting of an amending law's text into units that rests on it.
Applying operations to an e-Gov document tree is not here either: that needs a model of
the document tree, which the library does not hold.
