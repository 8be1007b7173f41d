# lib

The data model and the text generation behind a scene editor for a portal-rendering ray
tracer, verified with Verus.

A scene is made of elements (matrices, objects, materials, animations, ...) kept in
storages. Elements refer to each other by typed identifiers; an element may be named, and
listed in the editor, or anonymous and live inside another element as its field. The
library states and proves what each operation does to these storages, and how generated
shader code is traced back to the user's pieces of code.

## Layout

- `src/unique_id.rs`: the pool of identifiers; a new identifier is always the smallest free
  one, and giving one back restores the pool.
- `src/ids.rs`, `src/id_tools.rs`: the typed identifiers and the renumbering of them.
- `src/storage2.rs`: storages of named and anonymous elements: adding, renaming, reordering,
  renumbering, removing an element with the anonymous elements it holds.
- `src/error_count.rs`: counting the problems of elements through their anonymous fields.
- `src/stage.rs`, `src/animation.rs`: what animation stages change in the storages, and which
  camera an animation starts and ends with.
- `src/code_generation.rs`, `src/shader_error_parser.rs`, `src/common.rs`: text with the line
  ranges of the user's code, template filling, and reading compiler messages back.
- `src/shader_code.rs`: the generated shader: the uniform and texture declarations, the
  intersection code and functions of the objects, the portal materials, the library code,
  the skybox and intersection material code, the filled template and the final filtering of
  optional lines.
- `src/scene_serialized.rs`: saving a scene by names: the stage shown, and elements saved by
  name or as anonymous copies, with cycles cut, and read back into a storage.
- `src/object.rs`, `src/arithmetic.rs`, `src/texture.rs`, `src/glsl.rs`, `src/easing.rs`,
  `src/eng_rus.rs`, `src/scenes.rs`, `src/combo_box.rs`: scene elements and the choices the
  editor offers for them.
- `src/text.rs`: small verified string helpers.
- `app/`: the floating-point helpers, which the verified library does not hold.
- `tests/`: tests of the library on concrete values.
