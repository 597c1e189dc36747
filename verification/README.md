# ferrosdr

The receiver logic of a small SDR web server, verified with [Verus](https://github.com/verus-lang/verus).
A radio delivers raw IQ bytes; browsers get a spectrum, a waterfall and demodulated audio, and
steer the receiver by JSON messages.

## Layout

`src/` is the verified library.

| Module | What it holds |
|---|---|
| `text`, `number` | trimming, ordering and decimal notation of texts; integers from doubles |
| `settings`, `config` | the parameters of a profile; the demodulator chosen |
| `store` | the named profiles and the one in use |
| `json`, `command`, `station` | reading a control message, the command in it, and what it does |
| `math`, `formula` | the arithmetic operations, and formulas over them |
| `measure`, `reals` | the real numbers that operands stand for; facts about real numbers |
| `raw`, `spectrum` | raw samples; from raw bytes to the displayed spectrum |
| `filter`, `demod`, `audio` | mixing, filtering and decimation; demodulation; the audio path |
| `squelch`, `receiver` | the squelch; one turn of the receiver |
| `agreement` | the signal path gives one result where the arithmetic does |
| `blocker` | what the DC blocker leaves of a static offset |
| `frame`, `http` | the binary frames; the header of the page |

`app/` is the server around it: the radio, the sockets, the files, the JSON forms of settings
and profiles, and the floating-point operations.

`tests/` runs the library, with single-precision arithmetic for the signal path.

## What is proved

* The station: what every control message does to the live settings, the profiles and the
  choice of a demodulator, when it is answered and when the profiles are written. The profile
  in use always exists, a refused message changes nothing, and what is saved is what selecting
  brings back.
* The signal path: of which formulas over the arithmetic's operations every spectrum, every
  audio sample and every state between two buffers is a result. The formulas, their constants
  and the decisions stand in the library; the operations themselves may be any. Where every
  operation gives one result, so does the whole path. Each stage that keeps a state goes on from
  block to block as on one stream: the mixer (of whole groups), the filter, the demodulators,
  the de-emphasis, the gain control and the fade. Thinning and the decimations start anew in
  every block. The order of the averaged stretches does not change a spectrum, and the tuning
  does not change the offsets that the DC blocker finds.
* The signals, under premises on the arithmetic that are named in `formula` and `measure`: a
  static offset dies away, an FM signal's strength and phase make no difference to what is
  demodulated, and negated samples give negated audio.
* The frames: their bytes, that a reader gets back what was packed, and how close PCM values
  are to the samples.
* The receiver: retuning, the spacing of spectra, and when the demodulator starts afresh.

What is taken on trust is how `serde_json` reads a member of a JSON text; see `json`.

## Running

The server serves `index.html` from its working directory at port 8080, talks to browsers at
port 8081 and keeps its profiles in `profiles.json`.
