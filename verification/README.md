# lanfile

A file server for the local network and the client that mirrors from it. The rules of both are a
Verus library; what talks to sockets, disks and terminals is ordinary Rust around it.

## Layout

- `src/` is the library. Verus proves its contracts; the few calls into other crates are marked, each
  with what is taken on trust from it.
  - `text`, `bytes`, `decimal`, `percent`, `paths`, `order`: strings, numbers, escapes, paths and
    sorting.
  - `sendfile/`: responses that are sent from their file. `stream` is the transport stream, `laws`
    states what reaches the peer, `body` and `registry` hand a file range from a handler to its
    connection, `upgrade` says which responses are sent that way, `accept` admits connections.
  - `file_cache`, `assets`, `routes`, `chunked_file`: opening, caching and serving files.
  - `listing`, `lan_ip`: directory listings and the address shown in them.
  - `walk`, `zip`: walking a tree and packing it while it is sent.
  - `access_log`, `log_sink`, `serve_args`: the log and the command line of the server.
  - `pull/`: the client. `args` reads its command line, `http` and `fetch` read responses, `mirror`
    and `run` mirror a tree.
- `tests/` runs the library on concrete values.
- `app/` is the program `lanfile`.

## Use

```
lanfile [port] [dir]
lanfile get <base_url | direct link> [remote_dir] [local_dir] [--flat | -f]
```

Functions whose names begin with `law_` state what holds across several functions: that a mirrored
file is whole, that a peer gets a response byte for byte, that no request leads out of the root.
