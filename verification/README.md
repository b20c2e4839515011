# oxarch

Architecture analysis for JavaScript, TypeScript and Vue frontends: the module
dependency graph, its cycle groups, boundary rules, reachability and hub metrics, a
health score and prioritised guidance. The library in `src/` is verified with Verus;
`app/` is the command line around it (file walking, reading, git, HTTP, JSON).

## Layout

| Module | What it holds |
| --- | --- |
| `text`, `paths` | character sequences, their order, and slash-separated paths |
| `graph`, `order`, `names` | reachability, strongly connected components (petgraph), orderings |
| `report`, `edges`, `cycles`, `analyzer` | the report: sorted edges and sorted cycle groups |
| `scan` | which files are modules, path order, line counts, the parse cache |
| `parser` | import specifiers (Oxc): statements, literal dynamic imports, bare `require` calls; Vue script blocks |
| `jsonc`, `config`, `workspace`, `resolve` | tsconfig chains, aliases, workspace packages, probe order |
| `diagnose` | diagnostics for imports that resolve to no file |
| `rules`, `metrics`, `advice` | boundary rules, metrics and health, guidance and its rendering |
| `framework` | Next.js and Expo entry-point conventions |
| `gitdiff`, `server`, `cli` | branch changes against the merge base, the explorer's HTTP exchange, command verdicts |

Each public function states its result in its `ensures`: exactly where the result is
determined by the inputs, and where an outside call leaves a choice open (the order in
which petgraph lists the components that `cycle_groups` hands on), what holds of every
outcome; the report sorts those groups before it lists them. The laws that relate
several functions are public proof functions next to them (`lemma_*`).
