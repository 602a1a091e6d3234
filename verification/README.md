# markov_chains_bot

A Discord bot that answers queries with text generated by Markov chains.
The crate's library (`src/`) is verified with Verus; the bot itself
(`app/`) wires it to Discord, the SQLite database, the network and the
Markov-chain models.

- `text` – character utilities (white space, words, lines, trimming, decimals)
- `numfmt` – human-readable byte counts and durations
- `cowsay` – word wrapping and the speech-bubble rendering of a reply
- `query` – query words, token decisions and the rendering of generated words
- `search` – the file search, one decision per look at the file system
- `models` – model storage paths, names, ids and downloaded file names
- `report` – the system report, the model list and the model description
- `params` – a user's generation parameters and their update
