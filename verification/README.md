# modemui

A web interface to what an LTE modem can do beyond the interface of its router: locks to a carrier
or a cell, the signal with its history, the cells around, the bands, and a console for AT commands.

`src/` is the library, verified with Verus. It decides and computes, and performs no I/O:

- `text`, `numbers`, `base64`, `table`: characters, notations of numbers, small tools;
- `json`, `json_reading`: writing JSON, reading forms, and what JSON texts denote;
- `http`: requests, responses, Basic authentication;
- `at`, `demo`: transports, replies, the search for the modem, made-up modems;
- `signal`: measurements and cells, as modems report them;
- `modem`: locks kept in files of the modem, probing, polling, bands;
- `intel`, `simcom`, `bands`, `store`: modems of other makers, and notes of what was locked;
- `api`: requests to the interface, and the answers;
- `cli`: the command line;
- `*_laws`: theorems that relate several of these.

An operation that depends on replies of the modem is a function of the replies so far. It says what
to do next: send a command, fall back to another port, or stop with a result.

`app/` is the program around it: sockets, threads, processes, devices, files, and floating-point
numbers. It reads the page from the directory `web`.
