# cfw_build

The build phase of cfirewalld as a verified library. It parses the
declarations the shell streams on fd 3, decides which names need DNS and what
the lookups amount to, builds the ipsets and both families' rulesets, and
renders the `ipset restore` and `iptables-restore --noflush` streams.

- `src/` is the library, verified with Verus: every public function carries a
  contract over a mathematical model of its inputs and result, and the laws
  the build relies on (chains once each, rule order kept, tails rewritten only
  at `-j +chain`, quoting read back unchanged, failures reported once in file
  order, one probe per distinct tail) are proved there.
- `app/main.rs` is the `cfw-build` program around it: argument handling,
  reading fd 3, the DNS lookups, running `iptables`/`ip6tables` to probe
  tails, and submitting the streams.
- `tests/` exercises the library on concrete inputs.
