# figma-code-dl

Pulls a Figma node from the local Dev Mode server and turns it into a clean
React file. The passes over the code are a library written in Verus: each
function states what it returns, and Verus proves that it does.

## Layout

`src/` is the library.

| Module | What it does |
|---|---|
| `replace`, `jsx`, `instance_map` | replaces the instances of a design by components, and removes the functions that they stand for |
| `icons` | replaces `<img>` tags by icon components |
| `colors`, `variables_dump`, `channel` | replaces colors by CSS variables, and reads those out of an answer |
| `trim` | takes out classes and attributes, and closes up the space |
| `assets`, `paths` | finds assets, names their files, rewrites their URLs |
| `imports`, `output` | gathers the imports and puts the file together |
| `mcp`, `session`, `content`, `screenshot`, `figma_url` | the answers of the server, its sessions, and the URL of a node |
| `edit`, `substitute`, `pattern` | edits to a text, and the matches that they are made to |
| `text`, `chars`, `text_map`, `json`, `calendar` | texts and their bytes, maps, JSON, dates |

`app/` is the program around it: arguments, files, and the network.
`tests/` runs the library.

## How the contracts read

A text is a sequence of characters (`text@`); `utf8` gives its bytes, and
`cut` the text between two byte offsets. What a pass does is stated as a plan:
the edits, the imports and the counts, folded over the matches of a pattern.
The `regex` crate finds the matches. Each pass has a function that takes them
as an argument, and one that looks for them.

Proof functions whose names start with `law_` state what holds across
functions: that edits that are made do not overlap, that every reference is
imported, that the first entry of a color wins, that a relative path leads where
it should.

What is taken on trust are the calls into other crates and a few of the
standard library. Each stands in a small function of its own, with a comment
that says what it claims.
