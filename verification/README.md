# greptime

Building blocks of a time series store whose write-ahead log lives in an object store, verified
with Verus.

The centre of the library is the write-ahead log. Appends of many regions are batched into objects
that are created under increasing sequences. Reads are served from a catalog of the objects'
footers, and objects go away once every region has obsoleted their entries. The library decides;
it performs no input or output. Each decision is a function from state and event to the next state
and to what is to be done, with a contract that says exactly what that is.

## Layout

`src/` is the verified library:

| Modules | What they hold |
| --- | --- |
| `id`, `text`, `codec`, `ordmap`, `crc` | entry ids and sequences, decimal and big-endian encodings, an ordered map, checksums |
| `format`, `object` | the bytes of an object and its key, encoding, decoding and reconciling a conditional create |
| `catalog`, `recovery` | the index over object footers, and how it is rebuilt on open |
| `logstore`, `batch`, `config`, `error` | entries and providers, the open batch, settings and errors |
| `actor_model`, `actor` | the writer as functions between states, and the code that runs it |
| `store` | the log store on top of the writer and the catalog |
| `semaphore`, `ledger`, `ledger_pool` | memory accounts, and a memory pool on top of one |
| `options`, `file_purger`, `table_name`, `version` | query options, purging of files, table names, version lines |

What holds of the library as a whole stands in public proof functions next to what they speak of,
and in these modules:

| Module | What it states |
| --- | --- |
| `catalog_laws` | the catalog does not depend on the order in which objects are inserted |
| `actor_laws` | what the writer keeps with every event: no durable id is handed out again, durable ids never go down, an acknowledgement in the durable mode means that the entries are durable |
| `actor_answers` | every request is answered exactly once |
| `durability` | what was acknowledged is never lost and is read back |
| `read_laws` | a read is exact |
| `stop_laws` | stopping in the durable mode: no create starts, what is in flight is acknowledged if it succeeds, every caller is answered without an error |

`tests/` runs the library on concrete values. `app/` is ordinary Rust around it: the object store,
the tasks, the timers, the metrics and the traits of other crates.
