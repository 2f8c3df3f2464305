# void

A terminal chat client for language models, with its logic verified by Verus.

- `src/` is the verified library: line editing (`input`), the application's state machine
  (`state`), decoding of the streamed reply (`stream`), the request to the model (`llm`),
  configuration profiles (`config`), message rendering — inline markdown and wrapping
  (`render`), tables (`table`), code and diff highlighting (`highlight`), splitting a message
  into prose, code and tables (`message`) — what the screen shows (`ui`), the tools' rules and
  outputs (`tool`), and text as characters and UTF-8 offsets (`text`).
- `app/` is the program around it: the command line, the terminal loop, the network, the file
  system and the processes the tools run.
- `tests/` runs the library on concrete values.
