# boincview

A viewer for the tasks of one or more BOINC hosts. The library in `src/` holds the
parts that decide and compute, each with a contract proved by Verus:

- `config`: the hosts to watch, read from INI text (parsed with the `rust-ini`
  crate), and the bookkeeping of when each host was last reached;
- `tasks`: task times rendered as `d h:m:s` and task states by name;
- `client`: the project names of a host, by URL;
- `text`: decimal rendering of integers and a character search.

`app/` is the GTK program around it: it reads `conf.ini`, asks each host over
BOINC's GUI RPC every five seconds and shows the tasks in a table.
