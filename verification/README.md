# sled-topo-advisor

NUMA/PCIe topology-aware placement hints for AI/ML workloads, with the
advisory logic written in Verus and proved against its contracts.

Layout:

- `src/topology.rs` — nodes, accelerators, the topology; reading sysfs
  texts (cpulists, SLIT rows, PCI classes, `numa_node` values, node
  directory names); assembling a scan.
- `src/advisor.rs` — ranking nodes by SLIT distance, placements, verdicts,
  range strings.
- `src/cpulist.rs` — the cpulist notation: what a CPU list renders to and
  what a cpulist reads as, with the lemmas that tie the two together.
- `src/text.rs` — characters, whitespace, decimal numbers.
- `src/laws.rs` — properties that span functions (a rendered range string
  reads back as the sorted CPUs; rankings are nearest-first; ...).
- `src/fixtures.rs` — synthetic machines for tests and benchmarks.
- `app/` — the `sled-advisor` command: sysfs I/O, printing, benchmarks.
