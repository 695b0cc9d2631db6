# serde_llsd

Linden Lab Structured Data (LLSD) as OpenSimulator and Second Life viewers use it,
written in Verus with its behaviour stated in contracts and proved.

- `src/value.rs`: the value tree `LLSDValue`, its model `SpecLLSD`, and the map
  operations (a map keeps its entries in order, with distinct keys).
- `src/de/xml_rpc.rs`: reading an XML-RPC method response (a login response) into a
  value, over the events of the `quick-xml` reader.
- `src/ser/xml_rpc.rs`: writing a value as an XML-RPC method call.
- `src/ser/layout.rs`: how the indented method call relates to the compact one.
- `src/de/newline.rs`: reading the newline-separated text of an `LLWearable` asset.
- `src/converter.rs`: typed access to map entries through `FromLLSDValue`, maps
  keyed by text or by integers included.
- `src/text.rs`, `src/numbers.rs`, `src/ser/xml.rs`: lines, words, trimming,
  Rust's integer and real-number syntax, XML escaping.
- `src/outside.rs`: the calls into `uuid`, `base64`, `chrono` and `quick-xml`, each
  behind a trusted contract.
- `src/laws.rs`: properties across operations (map insertion, well-formedness of
  what the readers produce, flattening, what indenting adds, the wearable lines that
  are passed over).
- `app/lib.rs`: the value with `f64` reals, `Uuid`s and `HashMap`s, `anyhow` errors,
  writing to `std::io::Write`, and the floating-point conversions.
