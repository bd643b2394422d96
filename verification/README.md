# eqiora_numerics

Verified index, topology and partition logic of the simplicial
fluid-structure interaction (FSI) discretizations, written in Verus.

The library holds the exact, integer-valued decisions of the FSI step: which
mesh cell belongs to which Domain, which facets witness which trace quotient,
which vertices a Region closes over, which roles the coupled Fields play, and
where each coefficient sits in local and global vectors. Every public
function carries a contract that Verus proves, and the library states its
laws as public proof functions.

## Modules

- `topology`: a plain snapshot of a conforming simplicial mesh and the Region
  binding, which assigns every cell to one Domain and every trace quotient to
  its oriented facet witnesses.
- `partition`: the exact fixed-reference partition, its canonical inventory,
  Region connectivity and closure checks, and its accessors.
- `connectivity`: facet connectivity of a cell set and its vertex closure.
- `contract`: dimension admission and the homogeneous exterior closure.
- `roles`: the projection roles derived from equation roles and the Plan.
- `motion`: the Domain/Connection inventory and the dense storage budget of
  the harmonic mesh motion.
- `projection`: retained material boundary sides, interface facets and scalar
  degree-of-freedom positions of the planar remesh projection.
- `remesh`: shape checks of the dense reference operators.
- `ale_fields`, `navier_stokes`, `mini_transient`: local vector layouts and
  assembly bookkeeping.
- `evidence`: interface action order of an accepted step.
- `sorted`: strictly increasing index sets.

## Laws

- `partition::lemma_partition_ignores_inventory_order`
- `partition::lemma_partition_replay`
- `partition::lemma_admitted_witnesses_oriented`
- `topology::lemma_binding_ignores_membership_order`
- `topology::lemma_quotient_witnesses_oriented`
- `roles::lemma_roles_ignore_inventory_order`
- `contract::lemma_homogeneous_exterior_is_admissible`
- `ale_fields::lemma_fluid_layout_partitions_rows`
- `remesh::lemma_dense_side_round_trip`
