# redactix

Detection and redaction of common personal data in text (e-mail addresses,
phone numbers, payment card numbers, and user-registered regex patterns),
written in Verus with its behaviour stated as contracts and proved.

Layout:

- `src/text.rs` – character model of strings: UTF-8 byte offsets, character
  classes, trimming, case mapping, substring replacement.
- `src/matcher.rs` – the trusted boundary to the `regex` crate.
- `src/validators/luhn.rs` – the Luhn checksum.
- `src/detectors/` – turning regex matches into matches of personal data
  (e-mail, phone, card), and resolving overlapping matches (`overlaps.rs`).
- `src/redaction.rs` – splicing replacements into the text.
- `src/redactor.rs` – the `Redactor`: built-in and custom detectors, settings,
  name normalization and registration.
- `src/types.rs`, `src/error.rs` – data types, their views, errors.
- `app/lib.rs` – the Python extension module built with pyo3.
