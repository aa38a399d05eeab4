# opencode_discovery

Discovers the OpenCode provider keys: the providers named in the OpenCode
configuration, those with credentials in its credential store, and those the
models cache lists as built in.

- `src/` is the verified library (Verus): key order and sorted key lists
  (`key_order`), the discovery report (`discovery`), the models cache
  (`models_cache`) and its location under the home directory (`paths`).
- `app/` reads the files and hands their contents to the library.
- `tests/` exercises the library on concrete values.
