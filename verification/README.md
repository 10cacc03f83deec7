# apm-partition-forensic (verified)

Reads an Apple Partition Map (the big-endian Driver Descriptor Map and `PM`
partition entries) and grades its structural anomalies into severity-ranked
findings: map-count disagreement, overlapping or out-of-bounds partitions,
zero-length and unknown-type entries, a missing `Apple_partition_map`
self-entry, residual entries past the declared map, and unmapped interior
regions.

The library under `src/` is written in Verus; every function carries a
contract stated over a mathematical model of the bytes, and Verus proves it.

| Module | Contents |
|---|---|
| `be` | bounds-checked big-endian reads |
| `map` | `parse`, `ApplePartitionMap`, `ApmPartition`, `end_block`, `hfs_partition` |
| `text` | decimal rendering and padding with exact contracts |
| `findings` | `Severity`, `AnomalyKind`, `Anomaly` (severity, code, note, evidence), `ApmAnalysis::max_severity` |
| `knowledge` | partition-type knowledge from `forensicnomicon` |
| `analyse` | the forensic passes and `analyse` |
| `report` | `text_report` |
| `volumes` | the volume table (byte windows of each partition) |
| `reading` | the decisions of the bounded head read, and what a run of reads fills |
| `laws` | properties proved for every input |

`app/` holds what Verus does not see: the command-line program, reading from
files and `Read + Seek` sources, JSON output, the `forensicnomicon` report
`Observation` adapter and the `forensic-vfs` volume system.
