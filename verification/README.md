# baremetal erasure

Verified core of the baremetal loader's secure erasure.  The erased area is the
RRAM that follows the baremetal image, then the BIO instruction memories.  A key
stream is written through these regions front to back, each region taking
writes only in whole units of its granularity (32-byte rows for RRAM, words for
ordinary memory); bytes that do not make a whole unit yet are held back.

- `src/region.rs`: the two kinds of region, their write checks and how they
  shrink as they are written.
- `src/fill.rs`: the mathematical model of filling regions with whole units
  (how many bytes a write takes, where filling then stands, what the regions
  become) and its composition lemmas.
- `src/traversal.rs`: the traversal of the regions.  `write_step` and
  `write_done` decide one write at a time and take its outcome; `write_slice`
  states what a whole call writes when every write succeeds.
- `src/erasure.rs`: the erasure as the firmware uses it.
- `src/laws.rs`: properties across calls (successive writes compose, any number
  of calls lays out the joined data and succeeds while it fits, splitting a
  write changes nothing, held bytes stay below a unit, alignment is kept, `peek`
  names the next address).
- `src/soc.rs`: the memory-map constants read from the platform API crate.
- `app/`: the chip side, which performs each decided write on memory and RRAM
  and reports it back.

Recovering the key from the erased memory folds the memory contents through a
shift-and-xor accumulator that is not part of these sources; only the final
step, turning the accumulated bytes into a 16-byte key (`key_from_bytes`), is
here.
