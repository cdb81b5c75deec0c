# dfm

The planning core of a dotfiles manager, verified with Verus.

A repository of dotfiles is built into a build tree, the build tree is
installed into an installed tree, and each installed file is linked from the
home directory. `src/` holds the logic, with contracts that Verus proves:

- `order`, `path`, `relpath`: paths as bytes and their components, the
  order of paths, and paths relative to the root of a tree.
- `fileset`: sets of relative paths kept in ascending order.
- `filter`: the filter that selects files by the start of their path.
- `listing`, `utils`, `tree`: the files of a tree, from what reading its
  directories gave; the climb that removes empty directories.
- `context`: the directories the commands work on.
- `sync`, `build_tree`, `install`, `apply`, `diff`, `check`, `link`,
  `cleanup`: what each command copies, links, removes or shows.

`app/` holds the program: the command line, reading directories, and
carrying out the plans that the library computes.
