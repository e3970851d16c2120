# qdc-core

Core of the QDC field-log analyser: it reads TDMS, CSV and DAT logs of a
magnetic field, slides a window over them, and gives the peak-to-peak values of
every window. It runs in the browser.

`src/` is verified with [Verus](https://github.com/verus-lang/verus): readers,
dates, sliding windows, decimation, and the plans of the filters. Doubles are
held there as their bits; ordering them needs no arithmetic. `app/` is the
ordinary Rust around it: double arithmetic, the filters themselves, and the
functions that JavaScript calls.

| Module | What it does |
| --- | --- |
| `tdms` | segments, objects, raw data and the hierarchy of a TDMS file |
| `readers` | delimited tables, DAT scans, tables of results |
| `calendar`, `dates` | days, instants, the date formats of the logs |
| `scan`, `text`, `lex`, `slices` | lines, cells, words, the order of texts |
| `bits` | the order of doubles by their bits |
| `rolling` | the greatest and the least sample of a sliding window |
| `processing` | settings, windows over all streams, blocks in sequence |
| `decimation` | the least and the greatest sample of each bucket |
| `filter`, `filter_design` | padding, pole groups and sections of the filters |
