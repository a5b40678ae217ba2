# html2apk

Builds signed Android packages (APK or App Bundle) from a folder of HTML,
CSS and JavaScript, by filling in a prebuilt WebView template.

The library in `src/` is verified with Verus:

- `axml`: the binary AndroidManifest.xml of an APK (string pool decoding and
  encoding, string replacement, typed attributes), with `pool_law` and
  `manifest_law` proving that the patched pool reads back as the replaced
  strings (for a manifest in which no chunk shorter than its 4-byte chunk
  header stands before the string pool) and that the typed attributes hold
  their new values; `typed_frame` proves that, the pool swap aside,
  patching changes nothing but the typed data of attribute records.
- `bundle_proto`: the protobuf manifest of an App Bundle, as plain values,
  and its patching, with laws on the values it leaves.
- `jarsign`: MANIFEST.MF, CERT.SF and the PKCS#7 CERT.RSA of a JAR signature.
- `keyfile`: the fields of a stored signing key, written and read back
  (Base64, PKCS#8), and the making of a new key with its certificate.
- `package`, `aab`: which template entries are kept, replaced or patched,
  the order and digests of the entries of a bundle,
  icon sizes, alignment, the HTML folder's files and the manifest
  replacements of a configuration.
- `validate`, `config`, `project`, `replacements`, `text`: the rules of a
  build request, the settings, names shown to the user, the replacement
  table and character helpers.

`app/` holds the desktop program around it: the window, the file system,
the zip writer, the key file as JSON and APK signing.
