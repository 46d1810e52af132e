# Tesseras REPL

An interactive shell for storing and retrieving content on the [Tesseras](https://tesseras.net)
network, with its logic verified by Verus.

```
tesseras-repl [options]
```

| Flag                   | Description                |
| ---------------------- | -------------------------- |
| `-4`                   | Only listen on IPv4        |
| `-6`                   | Only listen on IPv6        |
| `-a`, `--address ADDR` | Listen address `ip[@port]` |
| `-p`, `--port PORT`    | Listen port (4433)         |
| `-D`, `--datadir DIR`  | Data directory             |
| `-v`, `--version`      | Print version and exit     |
| `-h`, `--help`         | Print help and exit        |

## Layout

- `src/` is the library: pure logic, each function with a contract that Verus proves.
  `session` describes the shell as a machine from commands and events to lines and actions, and
  `shell` implements it; `database`, `tokens` and `completion` hold the rules around the list of
  known tokens; `content` splits data into chunks and makes tokens of their keys; `cli`, `args`,
  `terminal`, `banner`, `calendar`, `chronology` and `startup` hold the rest of what the program
  decides or prints.
- `app/` is the program around it: files, the terminal, SQLite, the line editor and the node.
- `tests/` runs the library on concrete values, with the real crates linked.

The wrappers around other crates and around std, which Verus takes on trust, are in `cli`
(`getopts`), `content` and `identity` (`tesseras-dht`, `hex`) and `unicode` (std).

## Tokens

Data is stored in chunks of 32 KiB, each under its SHA-256 digest, and a token is the list of these
digests, 64 hexadecimal digits each. The `tesseras-dht` crate stores single values and has no tokens
of its own, so this form is the shell's. Tokens of another form that a database or a `hash.txt` holds
are listed, named and deleted like all others, but `get` refuses them as invalid.
