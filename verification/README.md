# lib

A verified library for two small cryptography tools:

- `sha256`: the SHA-256 hash (FIPS 180-4). The round functions, the block compression and
  the padded whole-message hash are proved equal to a specification written after the
  standard (`sha256_spec`).
- `base64`, `hex`: Base64 (standard alphabet, `=` padding) and lower-case hexadecimal.
  Decoding what was encoded gives the bytes back (`lemma_base64_roundtrip`).
- `message`: authenticated messages `base64(text):hex(sha256(key ++ text))`; decoding a
  message made under the same key gives back the text (`lemma_message_roundtrip`).
- `files`: the digest of a file's contents, the comparison of a digest with an expected
  hexadecimal string, and the lookup path of a file.
- `text`: the few string operations the rest needs.

`app/` holds the interactive menus and the file reading; `tests/` holds known-answer tests.
