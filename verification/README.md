# clawcam

Verified core of a camera-monitoring service: a Raspberry Pi (or an
off-device worker) runs YOLO on camera frames, tracks objects, and posts
detection events to webhooks.

`src/` is the Verus-verified library:

- `debounce`: the off-device worker's webhook lifecycle (continuous or
  start/end event mode).
- `event`: the event state machine (Idle → Active → Cooldown → Idle) that
  turns tracks into initial alerts, updates and final reports.
- `tracker`: IoU-based object tracking with persistent, never reused ids.
- `frame_buffer`: the rolling buffer of JPEG frames, in capture order.
- `watcher`: one frame of the on-device pipeline: tracker, event manager and
  frame buffer together, giving start (with a fresh event id and the
  pre-detection frames), update and end (with the clip's frames) actions,
  every one of an event carrying its id.
- `webhook`: detections, webhook target pairing, the base64 image and
  timestamp fields, and the rule that keeps bearer tokens off plaintext HTTP
  to public hosts.
- `device`: the device registry and its name, host and user rules.
- `audio`, `media`: device command texts, message checks and snapshot
  freshness.

Times are nanoseconds on the caller's monotonic clock. `app/` holds the I/O:
GStreamer pipelines, HTTP delivery, the registry file, and the binaries'
main loops.
