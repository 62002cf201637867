# devicetree

A parser for devicetree blobs whose behaviour is stated in contracts and proved
with Verus.

- `src/blob.rs`: the blocks of a blob, and the tokens of its structure block
- `src/node.rs`: iterators over the items, properties and children of a node, and
  ranges of nodes with the same name
- `src/context.rs`, `src/deserialize.rs`, `src/owned.rs`, `src/prop_value.rs`:
  conversion of properties and nodes into Rust values
- `src/path.rs`, `src/reserve.rs`, `src/util.rs`: paths, the memory reservation
  block, names and numbers
- `src/laws.rs`, `src/encoding.rs`: what holds of all of this together
- `app/`: the errors of the library as standard errors

`NodeContext` carries custom information of any type. Use
`NodeContext<'_, dyn Any>` where that type is only known at run time.
