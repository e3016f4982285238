# phase_vm

A reversible register machine, verified with Verus. Every instruction writes
one destination and leaves its sources intact, so its inverse can be computed
from the current state: rolling a phase back needs no log and no snapshot.
`set` and `mset` destroy a value and are the boundaries of a phase.

## Layout

- `src/` — the verified library.
  - `inst`, `state`, `bits`: the instruction set, the machine state and their
    semantics (`step`, `inverse_spec`; `law_inverse_undoes`).
  - `program`, `lex`, `text`: the text format and its parser
    (`law_parse_text_form`).
  - `machine`: forward runs, rollback over the expanded leaf stream
    (`law_roundtrip`, `law_rollback_rewinds`, `law_rollback_partial`).
  - `check`: the reversibility verifier.
  - `ctl`: `ifnz`/`wz`/`rep` with a journal of decisions (`law_ctl_roundtrip`).
  - `dbg`: the debugger's cursor and command replies (`law_step_back_undoes_step`).
  - `opt`, `synth`, `pmath`, `cipher`: kernel algebra, synthesis by search,
    invertible arithmetic, and the PC1 cipher whose decryption is the backward run
    (`law_optimize_fixed_point`, `law_seq_inverse_right`, `law_synth_sound`,
    `law_synth_shortest`, `law_synth_none`, `law_round_shape`).
  - `arena`, `phase_server`, `patch`, `cap`: phase-shaped allocation, a
    transactional key-value service, all-or-nothing patching, and the `.eml`
    capsule (`law_rollback_restores`, `law_undo_last`, `law_handle_keeps_safe`,
    `law_capsule_roundtrip`).
  - `cli`, `report`, `trials`, `ring`: the command line's parsing, reports,
    randomized round trips, and the io_uring entry layout.
- `tests/` — tests run against the compiled library.
- `app/` — the `phase-vm` command-line tool: file and terminal I/O, timing,
  and the raw io_uring runtime.
