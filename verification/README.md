# vell

The verified core of a text editor: its completion engine, its face themes, and the workspace
that arranges views on the screen.

- `src/completion`: fuzzy matching, ranking, and the engine that turns completion events into
  effects, within stated memory bounds.
- `src/theme.rs`: face patches and how themes resolve to faces.
- `src/view`: view definitions, view instances, the scene they are shown in, the workspace, and
  the panes that extensions add to views.
- `app`: the library's names and errors as printable values.

The functions of `src` carry contracts that Verus proves. A few wrappers of standard library
functions are trusted, and say what is claimed of them. Functions named `law_*` state what holds
of several functions together.

A scene is built and changed by a `SceneBuilder`, and the lines of panes come from
`ViewExtension`s, both of which users of the library implement. Each may say, by spec functions
of its trait, what it answers, and the contracts of the library are stated over that. The library
relies on none of the answers: a change is made on a copy, the copy is checked, and a copy that
fails the check is dropped.
