# subspace

A verified core of the Subspace pallet, the logic of Commune's Substrate
chain: module and subnet registration, staking and its ledger, parameter
validation, the block step with the linear epoch and the payout of emission,
governance applications, profit shares, validator blacklists, the bridge,
genesis building and the benchmarked call weights.

- `src/` is the library, written in Verus: each public function states in
  its contract what it returns and how it changes the pallet's state,
  including the events it deposits to the pallet's event log (`events`), and
  the laws that span several calls stand there as proof functions. A
  registration on a new name creates the subnet with the default parameters
  (`registration_params`) before the module is registered.
- `tests/` runs the library on concrete values.
- `app/` holds the conversions between the library's plain values and the
  fixed-point and percentage types of `substrate-fixed` and `sp-arithmetic`.

The pallet's storage is the `Subspace` value of `src/state.rs`; what the
runtime answers (the root network, the mineable and removable subnets, the
lowest-emission subnet, the treasury) is passed in as plain values.
