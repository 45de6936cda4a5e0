# terragrunt-dag

The dependency graph of terragrunt projects: finds the projects of a monorepo, reads their
configurations and stack files, resolves the paths in them, and puts the projects out for Atlantis,
Digger or GitHub Actions, or as JSON or YAML.

The library is written in Verus. Each function says in its contract what it returns, and the
modules end with laws about what holds of several functions together.

## Layout

- `src/` is the library.
  - `source`, `syntax`, `parser`, `stack_file`: HCL text becomes a syntax tree, a tree becomes a
    configuration or a stack file. The text is parsed by `hcl`.
  - `world`, `hcl_eval`, `builtins`, `functions`: what is known of the outside, how expressions are
    evaluated lazily, and the functions that can be called in them.
  - `resolver`, `cache`, `processor`, `stack`, `stack_laws`: paths, projects and the expansion of
    stacks into projects.
  - `discovery`, `pipeline`, `changes`: which files are projects, which projects are put out, and
    which are affected by a change.
  - `graph`, `cycle`, `cycle_report`, `layers`: cycles and the order of execution.
  - `output`, `gha`: the documents that are put out.
  - `text`, `path`, `names`, `project`: what the others are built from.
- `app/` is the command line tool: it reads files, runs git, evaluates expressions and writes
  documents.
- `tests/` runs the library, on a file system in memory where it needs one.

## Facts

The library never looks outside. A function that depends on the file system, or on the value of an
expression, takes the facts that are known (`world::Facts`) and returns a `world::Step`: either it is
done, or it needs to know one thing more. The caller finds that out, adds it to the facts and calls
again. A result holds in every world that agrees with the facts, and a question is one that the
computation asks in every such world.

## Trust

What the proofs rest on stands behind functions marked `#[verifier::external_body]`, one
`assume_specification`, and spec functions without a body, each with a comment that says what is
taken on trust: path operations of `camino`, patterns of `glob`, the parser of `hcl`, the map of
`dashmap`, and the case of letters, the quoting and the growth of strings in `std`.
