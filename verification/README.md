# moon

The Lua modules of the moon runtime: serialization, schemas, ids, random numbers,
buffers, paths, digests, a MongoDB client, and the loading of modules and error
reports. The logic is a library verified with Verus; around it stands a thin layer
of ordinary Rust that talks to the Lua machine, the file system and the database.

- `src/` is the library. `value` and `laux` model Lua values and the stack that a
  callback sees; the other modules work on these. Every function says in its
  contract what it returns and when it fails. What spans several functions, such
  as that serialized values read back, is stated by the proof functions whose
  names start with `law_`.
- `app/` reads the machine's stack into the library's values, calls the library,
  and puts the results back. It holds what works on floats, files and sockets.
- `tests/` runs the library on concrete values.

| Module | Library |
|---|---|
| stack, tables, cursors | `laux`, `cursor`, `table`, `value`, `number`, `printing`, `text`, `words` |
| `seri` | `pack`, `unpack`, `seri`, `seri_laws` |
| `schema` | `schema`, `schema_load`, `schema_verify` |
| `uuid` | `uuid` |
| `random` | `random`, `weighted`, `random_laws` |
| `buffer` | `buffer`, `buffer_read` |
| `fs` | `fs` |
| `utils` | `utils` |
| `mongodb` | `bson`, `mongo`, `mongo_options`, `mongo_calls`, `mongo_reply`, `mongo_task`, `registry`, `bson_laws`, `mongo_laws` |
| module loading, error reports | `loader`, `rua`, `error` |
