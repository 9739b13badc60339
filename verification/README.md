# mapreduce

Word count as a small MapReduce system: a master splits `input.txt` into one
map task per line and hands map tasks, then reduce tasks, to workers that
serve them over in-process RPC channels. Map tasks group their word counts by
word and write each group, as a `key;["value",...]` line, into the
intermediate partition that the word's hash names; reduce tasks read their
partition of every map task's output, group the values again and append one
`key;total` line per word to `output.txt`.

- `src/` is the verified library: task file names, text splitting, decimal
  numbers, record framing, grouping, hashing into partitions, the map and
  reduce task bodies, word count, and the master's scheduling decisions as a
  state machine. Proof functions there state the laws of the library: file
  names never collide; records read back as written; for keys without `;`
  or a line feed, partitions read back as written and a reduce task receives
  every value of its keys, so that the output of a whole run holds one line
  per emitted key, in some order, with what the reduce function gives for
  all the key's values; word totals equal word occurrences, in any order of the
  counts, and add up over joined texts; every task is handed out exactly
  once, maps before reduces; and a run whose tasks succeed ends.
  What serde_json is relied on for (its list encoding succeeds, holds no
  line feed, and reads back as the same list) is stated on the one function
  that calls it.
- `app/` runs it: file I/O, the RPC services (tarpc) and the tokio loop that
  carries out the scheduler's decisions.
- `tests/` exercises the library on concrete values.
