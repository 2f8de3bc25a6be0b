# tosh

A small interactive shell. The library (`src/`) holds its logic, verified
with Verus:

- `trie`: the prefix tree of program names used for completion, with
  insertion, lookup and listing of the completions of a prefix;
- `lexer`: splitting a line of shell input or `ls -l` output into tokens;
- `command`: what a command line asks the shell to do;
- `editor`: the prompt's line editor and its history;
- `completion`: completing a command name from the programs on the search path;
- `config`: the shell's settings (aliases and managed environment variables);
- `text`: character-level helpers (splitting, white space, trimming).

`app/` is the program around it: the terminal, processes, files and the
environment.
