# copy_propagation

A copy propagation pass for programs in static single assignment form, written in Rust and proved
correct with Verus.

The pass works in rounds. A round first lets every block read the copies that it makes at their
origin. Then it looks at what blocks hand on to one another: a slot in which all blocks that may
come before hand on the same local, one that is defined above, is redundant. Such a slot goes, and
what was taken in through it is read at its origin. Rounds follow one another until no slot is
redundant.

| Module | Contents |
| --- | --- |
| `ir`, `analyses` | programs, and what the pass is told about their control flow |
| `model`, `settle` | what the pass makes of a program |
| `pass` | `CopyPropagation`, the pass itself |
| `replace`, `compact`, `groups`, `chains` | the steps of a round |
| `local_map` | maps from locals to locals, a `hashbrown` table behind stated contracts |
| `layout` | what stays of the tables and the arena of a program |
| `flow`, `scope`, `legality`, `semantics` | control flow, where locals may be read, legal programs, what programs do |
| `laws` | what holds of the pass as a whole |
| `redundancy`, `slots`, `copies_alike`, `slots_alike` | proofs that these rest on |

What is believed without proof is in `local_map` alone: the effect of the calls into `hashbrown`.
