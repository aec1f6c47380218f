# usbtree

A live tree of the USB devices attached to the machine, for the terminal:
hot-plug events, per-device activity (URB counts, or bytes/s from usbmon),
a filter, folding, and copying of ids and details.

The decisions of the program are a library verified with Verus (`src/`):

- `usb`, `tree`: the device model, sysfs-style names, the port tree
  (ordering a scan, flattening it into rows, folding, hot-plug diffs).
- `ids`: usb.ids and override parsing, and how a device gets its label.
- `descriptors`: interfaces and endpoints from a configuration descriptor.
- `metrics`, `namemap`: activity sampling and the usbmon parsers.
- `rows`, `ui`, `session`: what the view decides — rails, the filter,
  mouse hit tests, the copy menu, keys, focus, the event log, highlights
  and lingering rows of removed devices, activity history, selection.
- `text`, `encode`: character-level helpers and base64.
- `demo`: the scripted device tree of `--demo`.

`app/` is the program around it: enumeration with nusb, file and device
I/O, the usbmon reader threads, and drawing with ratatui.
