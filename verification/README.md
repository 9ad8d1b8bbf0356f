# lgenerator

A 3D L-system tree, coloured by the domains a user spent time on, drawn with
falling cherry petals.

- `src/` is the verified library (Verus):
  - `lsystem/words.rs`: bracket depth, balance and symbol counts of words.
  - `lsystem/generator.rs`: production rules, parallel rewriting, the tree
    grammar and the word built from a list of domains, with the laws that the
    grown words are balanced and how many segments, leaves and symbols they have.
  - `lsystem/turtle3d.rs`: the turtle's reading of a word into drawing commands
    (branch domains, leaf numbering) and the triangle indices of the tree mesh,
    with the laws that balanced stretches restore the branch and that every
    index names a drawn vertex.
  - `data/parser.rs`: name hues, and the ranking of the domains read from JSON
    (sorted, a permutation, stable).
  - `render/`: petal indices and the decisions of the render loop.
- `app/` is the program around it: file reading, floating-point geometry and
  colours, random petals, and the wgpu/winit window and GPU code.
- `tests/` exercises the library on concrete values.
