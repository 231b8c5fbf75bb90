# hiddify-vless-xhttp-parser

Aggregates VLESS + XHTTP share links from public subscription sources, keeps
only nodes whose address lies in a known provider's network ranges, ranks them
by latency (and optionally by measured download speed) and writes a Hiddify
subscription (`vless.txt`, its base64 `subscription.txt`, and `report.json`).

## Layout

* `src/` — the library, verified with Verus. Every function carries a
  contract over mathematical models (`Seq<char>` texts, sorted entry lists,
  network values), and the laws of the library are public proof functions:
  * `vless` — parsing `vless://` links and printing them back;
    `roundtrip::lemma_link_round_trip` proves that a printed link parses back
    as the same node.
  * `params` — the query parameters as an ordered map (map laws).
  * `percent` — percent-encoding and decoding (decode undoes encode).
  * `sources` — source lists and link extraction from plain or base64
    subscription bodies; a base64 subscription of a text yields exactly the
    links of that text, and the written subscription reads back as the
    written links.
  * `cidr` — provider network ranges, address matching, range files.
  * `pipeline` — selection and de-duplication of XHTTP nodes, provider
    classification, node cap, throughput-test ports.
  * `output` — remarks, rendered links, report counts, output file texts.
  * `singbox` — the sing-box test configuration as plain values.
  * `civil` — civil dates and RFC 3339 timestamps.
  * `text` — character-level helpers and their facts.
* `app/` — the program: command line, HTTP fetching, DNS, TCP latency,
  the sing-box process, file output and JSON rendering. It hands plain values
  to the library and takes plain values back. The ranking score is a
  floating-point value and is computed there.
* `tests/` — tests of the library on concrete values.

## Data

The built-in source list and provider range files are not shipped; pass
`--sources` and `--cidr-dir` (the program stops with an error when either is
empty), or refresh the ranges with `update-cidr`.
