# zeroclaw

The message-media and configuration layers of an agent runtime, with their
logic proved by Verus.

- `src/media_ref.rs`, `src/fetch_media.rs`: media claim tickets in a
  conversation's history, and the tool that redeems them.
- `src/media.rs`, `src/media_pipeline.rs`, `src/landed_files.rs`: what is said
  of attachments that arrive with a message, and the files they land in.
- `src/config_layers.rs`, `src/config_merge.rs`, `src/toml_tree.rs`: config files
  that pull in shared fragments. `config_layers` is the expansion step by step,
  `config_merge` what it comes to.
- `src/log_bridge.rs`: what dependencies' log records may carry into the
  runtime's own log.
- `src/encoding.rs`, `src/json.rs`, `src/text.rs`: base64, JSON and text, as far
  as the others need them.
- `app/`: the file system, the network, the process-global logger and the
  conversion of lossless and extended WebP files around the library.
