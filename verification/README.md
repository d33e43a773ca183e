# lnp2

Control software for a LumenPnP pick-and-place machine: a G-code link to the
Marlin controller, the Photon feeder bus, nozzle-tip changes, placement-file
import, job planning and the running of jobs, behind an HTTP interface.

The library under `src/` is written in Verus and verified:

- `text` — character-level text functions (scans, trimming, lines, words,
  decimal and hexadecimal digits) that the parsers are built from.
- `gcode` — the controller's reply grammar (`ok`, errors, RS-485 replies,
  positions, sensor data), the collection of a command's reply, and the choice
  of the serial port.
- `photon` — feeder packets (CRC-8, with the laws that it is the usual
  byte-wise CRC-8 and that a message followed by its CRC checks to zero; hex
  encoding and decoding, with the law that decoding an encoded packet gives it
  back), feeder commands, and the reading of replies on the bus.
- `actuators`, `changer` — the commands for vacuum, blow-off and LEDs, and the
  moves that load and unload nozzle tips.
- `import` — KiCad placement files (ASCII and CSV) and OpenPnP element splitting.
- `job` — the planner (grouping by tip, ordering, pairing the two nozzles), the
  laws of its plans, and the job runner's decisions with the laws of a run.

`tests/` runs the library on concrete cases. `app/` is the server around it:
serial I/O, HTTP handlers, configuration files, and the geometry in floating
point that the library does not hold.

## What this build leaves out

The camera and vision parts of the machine software (camera capture and
streaming, fiducial and pocket detection, bottom-camera part alignment) are not
part of this build: they are floating-point image processing on OpenCV, ONNX
Runtime and the camera and JPEG libraries, none of which is built here. In
their place `app/` reports that no camera is available, so a board with two or
more fiducials cannot be located (the job ends with that error; boards with
fewer fiducials use their origin), and parts are placed without an alignment
correction.
