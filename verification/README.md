# iwwc

The verified core of a layer-shell widget daemon and its command line.

`src/` is checked by Verus:

- `text`, `number`: UTF-8 text, slicing, trimming, decimal numbers.
- `config::math`: the `${...}` expression language — interpolation
  segments, lexer, precedence parser, the typing and integer rules of
  evaluation, and how its errors are reported.
- `config::reader`, `config::document`, `config::parser`, `config::fields`:
  reading configuration text as KDL (`parse_str`), the top level of a
  configuration document (which node defines which variable, pull, element
  or block; the first definition of a name wins, and a later one is still
  read and its field errors reported), the readers of node fields, and the
  fields each kind of element reads with the problems they have.
- `config::primitives`, `config::types`, `config::resolver`: value parsers
  (colors, anchors, layers, alignments, intervals), coercion of expression
  values into field types, the variables a string refers to and the order
  in which variables are resolved, and (`config::resolver::refs`) following
  element references into trees, with circular and unresolved references
  reported.
- `config::smart`, `config::store`: the daemon's own variables, `/proc/meminfo`,
  surface checks, `iwwc update` values, the store that takes a new
  configuration only when it resolves, configuration file discovery.
- `ipc`: the line protocol between the command line and the daemon.
- `daemon`: open widget windows, the notification queue, surface settings,
  the stack of open tray menus, `pull` outputs.
- `notification`, `tray`, `render`, `iconlookup`: notifications, their icons,
  menu items and row texts.

`app/` is the command line (`iwwc update|open|close|toggle|reload|daemon`), the
Unix-socket client and server, reading the configuration file (its text
is parsed by the library; the table of what element references can name
is read from its KDL nodes and resolved by the library), and the parts of evaluation that compute with floating-point
numbers.
