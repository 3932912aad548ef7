# just_voip

A tiny peer-to-peer voice chat widget for the LAN. The library in `src/` holds
the parts that decide things, each proved with Verus:

- `discovery`: the `HELLO <id> <port>` announcements, their timer, and node ids;
- `peers`: the table of known peers (learning, refreshing, adding by hand,
  removing, timing out, listing, and where captured audio goes); discovered
  peers time out after 5 s of silence, peers added by hand stay until removed;
- `inbox`: received audio queued per sender, played two bytes at a time;
- `audio`: 16-bit little-endian PCM, mixing and channel spreading;
- `net`, `text`, `clock`: addresses (and their text), text and time as plain values.

`app/` is the window (eframe), the sockets and the sound devices (cpal); it
also carries a device self-test, run with `--self-test`.
