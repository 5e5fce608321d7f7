# hub

The classroom hub: the small server that a robotics class meets on its own Wi-Fi. It serves the
dashboard and the IDE, greets devices that join, sets up the uplink, vouches for the boards it has
seen, hands out team codes, and can be provisioned over Bluetooth.

- `src/` is the library: every rule, parser and state machine, with its contract, proved by Verus.
  Contracts speak of sequences of characters and bytes; the functions named `law_..` state what
  holds across functions.
- `app/` is the program around it: sockets, files, processes, BlueZ.
- `tests/` runs the library.

| module | what it decides |
|---|---|
| `http`, `response`, `router` | taking requests out of a stream, who answers, what is sent |
| `gzip`, `ide` | compressed bodies, the IDE bundle and its validators |
| `captive`, `address` | which devices are greeted, and for how long |
| `uplink`, `fleet` | what is shown of the internet, which boards are vouched for |
| `wifi` | reading `nmcli`, choosing a radio, joining and forgetting |
| `improv`, `provision` | the provisioning protocol and what it sets off |
| `codes`, `mqtt` | team codes, the queue of requests, asking the broker |
| `envelopes` | messages of the classroom |
| `text`, `number`, `bytes`, `json` | what the others are built on |

Times are nanoseconds since the program started. Random bytes, files, what tools print and how they
end are handed in by the program.

The program is configured by its environment: `HUB_HTTP`, `HUB_MQTT_ADDR`, `HUB_IDE_DIR`,
`HUB_PAGES` (where `dashboard.html`, `icon.svg` and `welcome.html` are), and, for `provisiond`,
`HUB_INFO_SERVICE_UUID` and `HUB_INFO_CHAR_UUID`.
