# minx

A small service host. The verified library (`src/`) holds its logic:

- `text`: decimal rendering and `i32` parsing with exact specifications.
- `config`: the parameter table of a module, module items, and the choice
  of configuration file from the command line.
- `services`: the built-in module registry (`ServiceManager`), the logger's
  directory, record layout and the steps of writing a record, the HTTP
  module's port and bind address, the chat server's session registry and
  each websocket session's decisions.
- `value`: `MinxValue`, its RESP3-style encoding, which tells every two
  different values apart and writes a set's members in one canonical order,
  and the construction of sets without repeats.

`app/` is the program around it: the TCP listener, reading the configuration
file, the actix HTTP/websocket server, file writes of log records, and the
serde forms of the configuration and of log records.
