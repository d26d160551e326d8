# llm-visuals

A terminal dashboard for language models that run on the local machine.

`src/` is the library: it detects inference servers from process tables and
command lines, reads GGUF headers, derives rates and request records from a
server's counters, lays a model's weights over the GPUs, and judges where the
tokens wait. Every function states what it returns, and Verus proves it. Rates
and shares are whole numbers of millionths, times are nanoseconds; what a card or
a command line says in decimals is kept as the nearest single-precision number,
held by its bits.

`app/` is the program around it: the command line, the terminal, the processes
and files it looks at, the servers it polls, and the SQLite log.

`tests/` runs the library on concrete values.
