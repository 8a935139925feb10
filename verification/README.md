# disko-zfs

Plans the changes that bring ZFS datasets in line with a declared
specification, and prints them as `zfs` command lines: it creates missing
datasets and their ancestors, sets declared properties that differ, and
unsets (`zfs inherit`) locally set properties that are not declared. It never
removes a dataset: existing datasets that are neither declared nor an
ancestor of a declared one are only listed, with the `zfs destroy` command
that would remove them, commented out.

Layout:

- `src/` is the verified library.
  - `value.rs`: property values and their decimal/text rendering.
  - `strmap.rs`: an insertion-ordered map with text keys, the model of maps.
  - `model.rs`: the existing datasets and the declared specification.
  - `action.rs`: planned actions and the command lines that carry them out.
  - `plan.rs`: `eval_spec`, which compares the specification with the datasets.
  - `producer.rs`: the sink that collects actions, errors and extra datasets,
    with the order of all calls kept as a ghost log.
  - `cleanup.rs`: the passes that merge repeated creations, drop shadowed
    properties and fold settings into creations.
  - `laws.rs`: properties of planning and clean-up that hold for all inputs.
- `app/` is the command-line program: argument parsing, running `zfs`,
  reading the JSON files, printing.
- `tests/` exercises the library on concrete values.
