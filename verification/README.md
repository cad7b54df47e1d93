# presunto_e_queijo

A peer-to-peer chat for the terminal. Peers connect over TCP, tell each other
their names, share the addresses of the peers they know, and exchange texts.

- `src/` is the verified library: the wire format of messages (`message`,
  `wire`), reading messages from bytes that arrive in chunks (`reader`), peer
  addresses (`addr`), the table of connected peers (`peers`), the client's
  decisions (`client`), the configuration format and the lookups of its hosts
  (`config_text`, `peer_config`, `peer_discovery`), what the user interface is
  told and shows (`ui`), and the text of error messages (`text`).
- `app/` is the program around it: command line, sockets, timers, name
  lookups, the file system and the terminal user interface. It asks the
  library what to do at each step and does it.
- `tests/` runs the library on concrete values.

## The table of peers

The connected peers are kept in a `Vec` of entries with the invariant that no
address occurs twice, stated as the type's invariant and kept by every method;
its view is a map from address to entry. A `HashMap` keyed by the socket
address would need that address to be a type of the library with derived `Eq`
and `Hash`, and for such keys Verus's specification of `HashMap` proves
nothing about what `insert`, `get` or `remove` do. The `Vec` costs a linear
search per lookup, which is nothing at the sizes a chat reaches, and lets
every operation of the table be proved.
