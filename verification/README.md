# Clip Vault

A clipboard-history manager with a file-search tab and a screenshot annotator.

- `src/` is the verified core, written in Verus:
  - `store.rs`: history entries, deduplication, pinning, the 500-entry bound,
    debounced saving, and the laws the store keeps;
  - `monitor.rs`: the clipboard watcher's change detection (FNV-1a fingerprint);
  - `clipview.rs`: status line, search filter, pinned/recent split, keyboard
    selection and day headings;
  - `search.rs`: remembered paths and patterns, pattern checking, result intake,
    status lines and highlighted runs of the file-search tab;
  - `capture.rs`, `screens.rs`: capture history, cropping, colour picking, joining
    monitor grabs, the Win+drag decisions;
  - `raster.rs`: pixel drawing (rectangles, lines, discs, mosaic, eraser, 5x7
    bitmap text, numbered badges);
  - `tools.rs`, `hotkey.rs`, `hooks.rs`, `icon.rs`, `text.rs`: tools and colours,
    the capture hotkey, input-hook state and window choice, the tray icon, text
    helpers.
- `app/` is the program around it: the egui window, files on disk, the
  clipboard thread, the directory walk and the Windows-only system calls.
- `tests/` runs the library on concrete inputs.
