# weer

A weather map service for the Netherlands: it serves the KNMI seamless
precipitation ensemble forecast, the Harmonie model runs (temperature, wind
at five heights, solar radiation, rain) and the 5-minute radar observations
as map overlays, point values and time series.

The `weer` library (`src/`) holds the logic, verified with Verus:

- `models`, `stats`, `pmm`, `mask`: the ensemble statistics of a member-major
  grid (median, maximum, neighbourhood probability, spread and the
  probability-matched mean) and the neighbourhood rain masks;
- `cache`, `bytes`, `forecast`: the forecast runs and their binary cache files;
- `actuals`, `rtcor`: the history of observed radar frames and the conversion
  of an observation grid;
- `timeline`, `request`: time axes, the choice of the forecast step for a
  requested time, and what a request names;
- `names`, `calendar`, `text`, `split`: the KNMI file names and time strings;
- `knmi`, `harmonie`: the reading of notification payloads and the decisions
  taken on notifications, downloads, cached files and Harmonie archives;
- `render`: the pixel packing of the map overlays and their WebP encoding.

The program in `app/` does the I/O around it: the HTTP server, the MQTT
subscriptions, the downloads, NetCDF/HDF5/GRIB reading, and the
floating-point projection and interpolation onto the map.
