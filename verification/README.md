# progred libraries, verified core

The data conventions, decisions and algorithms of the progred standard
libraries, written in Verus and proved against their contracts.

- `value`: the GID value model (cells, blobs, position-keyed lists, key-ordered
  records) with its mathematical view; `vocabulary` gives stand-ins
  for the evaluator's cells, with this crate's own identities (as do the
  absence tags, the layout vocabulary and the mesh depth cells).
- `absent`, `logic`, `color`, `controls`, `outline`, `completion`, `line_edit`,
  `layout_scope`, `grap`, `suggestions`, `number`, `fidget`: the libraries'
  value conventions and decisions (absences and their reasons, booleans, color
  spellings, control state and radio choices, outlines and their extras,
  completion vocabularies, line editors, layout programs and the shape checks
  of layout operations, parameter metadata, statically visible bindings, expression
  forms and their grouping). `arguments` orders a call's arguments: declared
  parameters first, then named fields by name, then the rest by cell;
  `offers` orders the visible bindings that completion offers: nearest scope
  first, then by name ignoring case, then by name, then by cell.
- `dag`, `traversal`, `lowering`, `specialization`, `census`: hash-consed
  expression graphs, their depth-first lowering to straight-line tapes and back,
  specialization to the choices an evaluation made, and the census that
  reconstructs expressions from register programs.
- `raster`, `assembly`, `depth_tile`, `scene`: progressive rendering in integers: the
  resolutions a render passes through, nearest-neighbour resampling of the
  previous image, placing finished tiles into a frame, and the depth buffer of
  an octree voxel tile (hidden regions, full regions, the columns to sample,
  the order in which children are visited); frames keep a depth per pixel
  that tells finished pixels from unfinished ones; `scene` composites a
  tile's objects nearest-first, places finished tiles into the image, checks
  the strides of a pass sequence and orders depth slabs nearest first; `mesh`
  shifts the indices of an appended mesh past the existing vertices.

`app/` holds what runs around the core: number scrubbing in floating point, the
line editor's callback adapter, and the census report.
