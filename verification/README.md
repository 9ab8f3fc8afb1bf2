# iroh on ESP32

A library for [iroh](https://www.iroh.computer) endpoints on ESP32 boards and for
the clients that dial them, with its behaviour stated in contracts and proved with
Verus.

- A dual-DHT22 sensor logger: two temperature and humidity sensors, a ventilation
  fan, a two-row display, a log of the last 1440 samples, and a service that answers
  requests for it.
- A CO2 traffic light: an SCD30 over I2C and an RGB LED.
- A Wi-Fi scanner with a small panel.
- An echo service on every board, also on one without a radio.
- A terminal client and a browser page that follow the log without missing a record
  or showing one twice, and notice when the device has restarted.

## Layout

`src/` is the library. It holds the rules: decoding, checksums, state machines,
retention, formatting, parsing. Nothing in it does input or output. A machine says
what is to be done next and is told how it went; its view is the mathematical value
over which its contract is stated. Each module ends with its laws, which relate
several functions or speak of whole runs.

Numbers from the DHT22 are counts of tenths. Other measured values are the bit
patterns of 32-bit floats; `ieee` proves how those compare.

`tests/` runs the library on concrete values.

`app/` is the programs: the terminal clients, the browser nodes, and the firmware
with its drivers. It also holds the few formulas over floating-point numbers.
