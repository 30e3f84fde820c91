# RatioUp

RatioUp seeds torrents without sending data: it announces each torrent of a
directory to its trackers, as a chosen BitTorrent client would, with a
made-up upload drawn in a configured range.

The library (`src/`) is verified with Verus. Each function states in its
contract what it computes, over spec functions:

- `bencode`: the decoder and encoder, the grammar as spec functions, and the
  law that decoding an encoding gives the value back;
- `torrent`: torrents, their metainfo and info dictionaries, the JSON line of
  the statistics;
- `announcer::tracker`: supported tracker URLs, the HTTP announce URL, tracker
  answers and what they change;
- `announcer::udp`: the UDP tracker protocol's packets and replies;
- `announcer::scheduler`: when to announce next, with jitter;
- `config`: the configuration and how a TOML file sets it;
- `watcher`, `directory`, `json_output`: which files count, which torrents
  are added or removed, the statistics file;
- `utils`, `algorithm`, `strings`, `text`, `random`: helpers.

`app/` is the program around it: the command line, files, sockets, HTTP,
the directory watcher and the timers.

Configuration (`~/.config/RatioUp/config.toml`):

```toml
client = "Transmission_3_00"
port = 55555
numwant = 8
use_pid_file = true
min_upload_rate = 262144
max_upload_rate = 23068672
torrent_dir = "./torrents"
output_stats = "/tmp/RatioUp.json"
```
