# samply

A verified library that records profiles for the [Firefox Profiler](https://profiler.firefox.com/)
and reads the symbols of the running Linux kernel.

- `src/` is the library, verified with [Verus](https://github.com/verus-lang/verus).
  - `profile` is the profile with its processes, threads, samples, markers and categories, and its
    JSON in the processed profile format. `process`, `thread`, `frame`, `category`, `marker`,
    `timestamp` and `library` hold its parts.
  - `stack_tables` and `sample_table` are the tables of a thread; `table_json` is what they look
    like in the JSON. `string_table` and `intern` are tables without repeated rows.
  - `kernel_symbols` puts together what `elf_notes` finds in `/sys/kernel/notes` and what
    `kallsyms` finds in `/proc/kallsyms`. `hex` reads the addresses there.
  - `symbol_table`, `sort`, `text`, `digits` and `json` serve the others.
- `tests/` runs the library.
- `app/` is ordinary Rust around it: reading files, floating-point numbers, and writing JSON with
  serde.

The contracts speak of the views of the types. `ProfileView` says what a profile holds, and every
operation on a profile says which view it leaves. Laws that relate several operations are public
proof functions, next to what they speak of:

- a stack that was recorded is read back as it was recorded, and later operations do not change it
  (`recorded_calls_are_read_back`, `recorded_stacks_stay`);
- equal stacks are recorded once (`equal_stacks_are_shared`, `same_calls_share_a_stack`);
- consecutive samples without CPU time are combined (`idle_samples_are_combined`);
- addresses are resolved against what is loaded at the time (`covering_library_locates_frame`,
  `libraries_belong_to_their_process`, `address_is_in_nearest_range`, `added_library_is_found`,
  `added_library_is_loaded`, `other_libraries_stay_loaded`, `unloaded_library_is_gone`,
  `unloading_undoes_adding`);
- the JSON holds every thread once, in an order that the profile decides
  (`profile_json_is_complete`, `profile_json_is_determined`);
- the offsets of kernel symbols lead back to the addresses of the file
  (`offsets_lead_back_to_addresses`, `every_offset_has_a_symbol`).

What the library takes from `memchr`, `object` and std without proof stands in six small functions
in `kallsyms` and `elf_notes`, with what is believed of each.
