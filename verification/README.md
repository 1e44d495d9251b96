# hls2dash

An HLS-to-DASH transpackaging proxy with a verified core.

A DASH player asks the proxy for a manifest; the proxy fetches the HLS playlists behind it, and answers with a DASH MPD
whose segment URLs lead back to the proxy. Segments are passed through, or re-muxed from MPEG-TS to fragmented MP4 by
FFmpeg, without re-encoding.

## Layout

- `src/` is the library. Everything in it is verified by Verus, against contracts that are trusted for the calls into
  `m3u8-rs`, `url` and `chrono`, and for `String::push` of the standard library.
  - `text`: text as sequences of characters, decimal numbers
  - `rounding`: floating-point products, computed exactly with integers
  - `url_utils`, `url_laws`: URL resolution, proxy URLs, XML escaping
  - `hls`: playlists
  - `clock`, `dash`, `dash_laws`: MPD generation
  - `mp4`, `transmux`: MP4 boxes, init and media segments, time stamps, FFmpeg arguments and outcomes
  - `handlers`: routing, the steps of a manifest request, replies
  - `cache`, `config`, `error`, `upstream`: what is cached, how the proxy is configured, what failures mean
- `app/` is the server around it: HTTP, the cache, FFmpeg processes, the environment.
- `tests/` runs the library.

Public proof functions whose names start with `law_` state what holds of several functions together.

## Configuration

| Variable | Default | Description |
|---|---|---|
| `PORT` | `3100` | TCP port to listen on |
| `PROXY_BASE` | _(empty)_ | Public base URL of the proxy; without it, URLs in manifests are paths |
| `TRANSMUX_TS` | `false` | Re-mux MPEG-TS segments to fragmented MP4 |
| `CACHE_MAX_CAPACITY` | `500` | Maximum number of cached playlists |
| `UPSTREAM_TIMEOUT_SECS` | `15` | Timeout of upstream requests |
| `LOG_LEVEL` | `info` | Tracing log level |

The variables may also stand in a `.env` file, one `NAME=value` to a line. Malformed lines are ignored.

## Endpoints

| Path | Answer |
|---|---|
| `/hls2dash/<host>/<path>.m3u8` | the manifest |
| `/hls2dash/<host>/<path>.ts` | the segment, re-muxed where `TRANSMUX_TS` is set |
| `/hls2dash/<host>/<path>` | anything else, passed through |
| `/dash/<host>/<path>.mpd` | the manifest of `<path>.m3u8` |
| `/hls2dash-init/<host>/<path>` | the init segment of a TS segment |
| `/hls2dash-init-pl/<host>/<path>` | the init segment of a media playlist |
| `/hls2dash-ts-pl/<host>/<path>?_idx=<n>&_dur=<ms>` | segment `n` of a media playlist |
| `/health` | `OK` |
| `/rn` | the release notes |
