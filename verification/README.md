# insurance

A verified registry of insurance policies for a Soroban contract.

- `src/` is the library, checked by Verus:
  - `common.rs`: shared enums, event codes, page-limit clamping and tag
    canonicalisation;
  - `key_map.rs`: a small association list keyed by byte strings, viewed as a `Map`;
  - `policy.rs`: the policy records, errors, events and their plain models;
  - `model.rs`: the mathematical model of the registry, its invariant and the
    specification of every operation;
  - `insurance.rs`: the executable registry, each operation proved equal to its
    model and to keep the invariant;
  - `laws.rs`: properties that span several operations.
- `tests/` runs the library on concrete values.
- `app/` is the contract itself: authorization, ledger time, storage and event
  publication through `soroban-sdk`, around the library.
