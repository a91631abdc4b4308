# speed

Internet speed test and live throughput monitor for the terminal, with its logic
verified by Verus.

```
  speed  Vorboss Limited · City of London (LHR)

  ◷ Latency       4.7 ms   jitter 0.7 ms
  ↓ Download  113.2 Mbps   peak 124.3 Mbps · 139 MB · loaded latency 189 ms (+185 ms)
  ↑ Upload    118.2 Mbps   peak 132.1 Mbps · 150 MB · loaded latency 107 ms (+103 ms)
```

## Usage

```
speed                  # latency, download, upload (10s each)
speed -d 5 --no-upload # test options work without the `test` subcommand
speed test --json      # machine-readable result
speed watch            # continuous download with a live chart; Ctrl+C for a summary
speed watch -s 8 -d 60 # 8 streams, stop after 60s
speed servers          # the download mirrors, ranked by round trip
```

## Layout

- `src/` is the library: what the program decides and what it writes. It holds no
  sockets, no clocks and no floating point. A measured number comes in by its bit
  pattern, is compared and sorted, and goes out as it came (`reading`).
  - `net`: transfer loops as state machines, byte counting, medians.
  - `latency`: ICMP echoes, replies, which way of measuring to use.
  - `servers`: the mirror pool, ranking and choosing mirrors.
  - `test`: the course of a test, its smoothed rate, steady state and rows.
  - `watch`: the running tally and the dashboard.
  - `ui`, `text`, `order`: drawing, text and sorting.
- `app/` is the program around it: arguments, HTTP, sockets, the terminal, and the
  arithmetic on measured numbers.
- `tests/` runs the library on concrete values.

## How it measures

- **Throughput** is counted in-process on its own connections, so other traffic on the
  machine doesn't skew it. The final rate skips the first 1–2 seconds of ramp-up.
- **Download** pulls from Hetzner's speed mirrors (2 connections each); **upload** posts
  to Cloudflare's speed endpoint. Cloudflare rate-limits repeated uploads (HTTP 429);
  wait a minute between runs.
- **Latency** is TCP handshake time to Cloudflare's nearest edge (no root needed, unlike
  ICMP). **Loaded latency** is measured the same way during each transfer, which exposes
  bufferbloat.
- **`watch`** keeps parallel downloads running on the nearest mirrors and samples the
  rate once a second. It uses a lot of data: about 3.75 GB per minute at 500 Mbps.
