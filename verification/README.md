# rpi_lcd_project

A driver and test-pattern program for ILI9486 SPI panels (480x320) on a Raspberry Pi,
written in Verus.

The library under `src/` is verified:

- `canvas`: the mathematical model of a frame, a grid of RGB565 pixels, and painting.
- `framebuffer`: frame, page and transfer buffers; the byte streams sent to the panel
  (big-endian RGB565 or RGB666, row- or column-major) and copying a band into a page.
- `render`: the 5x7 font, drawing primitives (rectangles, outlines, rounded rectangles,
  rings, thick lines, text), the test patterns and the dashboard page.
- `bus` and `panel`: how buffers are cut into SPI writes, and the exact sequence of pin
  changes, delays and writes for reset, initialisation, full-frame and page flushes.
- `app`: pattern names, panel orientation and how a frame is cut into pages.
- `delta`, `sysinfo`, `text`, `gpio`: parsing the daily-code service reply, selecting
  process rows, reading the memory summary and the idle share, decimal and string helpers,
  and sysfs GPIO paths.

The program under `app/` does the I/O: arguments, the spidev device, sysfs GPIO, the
clock, fetching the daily codes, reading `/proc`, and the floating-point colour gradient.
It carries out the operation sequences the library plans.
