# kuf

The core of a dual-pane file manager with SSH/SFTP support, written in Verus.

- `src/` is the verified library: base64, `known_hosts` parsing and host-key
  checking (trust on first use), `~/.ssh/config` parsing, configuration
  paths, directory listings and their order, bookmarks, the table of open
  SSH sessions and the order in which login methods are tried, default
  settings and key bindings, and the decisions that file operations make.
- `tests/` runs the library on concrete inputs.
- `app/` is the unverified shell around it: file and network I/O, the SSH
  and SFTP client calls, TOML/JSON (de)serialisation and the commands that
  a user interface invokes.
