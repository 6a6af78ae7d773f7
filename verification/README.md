# kami_script_runtime_rs

A host for game scripts compiled to WebAssembly. A guest module imports a small
set of `kami:engine/*` functions, exports `init` and any number of
`<name>-tick` systems, and is driven against an in-memory entity store. Two
engines run guests: `wasmtime` (`KamiHost`) and `wasmi` (`KamiHostWasmi`).

Everything that the host decides is verified with Verus.

| module | what it holds |
|---|---|
| `leb`, `exports` | the export section of a module, read by hand so that systems run in the order of definition |
| `ecs` | the entity store |
| `rng` | the seeded generators |
| `imports`, `state` | the imported functions, and what each call does to the host |
| `laws`, `queries` | what holds of the host, and of its queries, whatever a guest calls |
| `guest`, `wasmtime_engine`, `wasmi_engine` | what is believed of the two engines |
| `lifecycle` | loading, `init` and ticks as any engine runs them, and when two runs agree |
| `host`, `wasmi_host` | the two hosts |
| `error`, `text` | errors, and text out of raw bytes |
| `binary32`, `big`, `decimal` | single-precision arithmetic on bit patterns, and decimals read into them |
| `scene` | scene files |
| `game`, `particles`, `player`, `report` | the player around a game |

Numbers with a fraction are held as the 32 bits of an IEEE 754 number. The
arithmetic on them is proved to round to the nearest number, ties to even, so a
run can be repeated bit for bit.

`app/` is the part that touches files, clocks, windows and the graphics card:
`kami host <path.wasm> [ticks] [seed]` and `kami play`.
