# fan

A fan controller for a board with two thermal zones. It reads the CPU
temperature, looks up a fan speed in a profile, eases the fan towards it, and
serves a page with the latest temperatures and load figures.

```sh
fan -i 2 -p 60006 -n 200 -c 0:0,46:50,50:100,55:150,60:200,65:230,68:255
```

- `-i` seconds between two rounds, 5 by default
- `-c` the profile, `temperature:speed` pairs with commas between them; speeds
  run from 0 to 255
- `-n` samples in the history, 10 by default
- `-p` port of the web page, 60006 by default
- `-a` weight of a new temperature in the smoothed one, above 0 and up to 1,
  0.2 by default

`src/` holds the decisions, verified with Verus: `text`, `text_laws` and
`decimal` (cutting text, whole numbers), `utf8` (text out of bytes), `double`
(comparing doubles by their bits), `steps` and `profile` (the profile), `ramp`,
`controller` and `history` (the rounds), `system` (the load figures), `args`
(the command line), `http`, `http_laws` and `page` (the web side). `app/` reads
and writes files and sockets, and does the floating-point arithmetic.
