# handlebars_context

The context of a Handlebars-style template engine: the JSON data a template
is rendered against, and how a template path (`addr.city`, `titles.[0]`,
`../name`, `@root/b`, a block parameter) finds its way through that data
among the blocks that enclose it. The library is written in Verus and its
contracts are proved.

- `src/json.rs`: the JSON data (`Json`, and `StrMap`, whose entries stand in
  increasing key order as in serde_json's default map), what it stands for
  (`JsonValue`), and the values navigation hands back (`ScopedJson`).
- `src/path.rs`: path segments and the names they contribute.
- `src/block.rs`: enclosing blocks, their base paths and block parameters.
- `src/index.rs`: reading a path segment as an array index.
- `src/order.rs`: the order of `String` keys, and its laws.
- `src/context.rs`: `Context`, path resolution, navigation, merging, and the
  laws of navigation.
- `app/`: serialising values with `serde` into `Json`, and back.
