# twitter_dl

A Twitter/X video downloader service whose core is verified with Verus.

- `src/` is the verified library: WebVTT to SubRip conversion and the merging
  of SubRip documents (`captions`) with the laws of merging (`srt_laws`), the choice and ordering of a tweet's video
  variants, tweet ids, dates and request URLs (`twitter`), the variant to
  download and HLS playlists (`video`), the tweet card's text, layout and
  ffmpeg arguments (`overlay`), the steps of answering a download request and
  the names handed to ffmpeg and the client (`download`), a sliding-window
  rate limiter (`rate_limit`), the error type (`error`), the data model
  (`models`) and the string model they share (`text`).
- `app/` is the HTTP service around it (axum, reqwest, tokio): the routes,
  the calls to the syndication API and the CDN, and the ffmpeg and Python
  processes that render and remux the videos.
- `tests/` runs the library on concrete values.
