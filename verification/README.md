# luck

A verified library for Luck intent graphs and for the IDEF0 business models
that are turned into them.

An intent graph is a set of typed nodes (ROLE, STEP, FILTER, CLASSIFY, SPAWN,
TOOL, ...) joined by sequential, branch and merge edges. The library reads
graphs from their surface syntax and from an XML presentation, writes them
back, derives the output grammar a generative node is held to, and runs a
graph against a language model and a set of tools. On the business side it
checks IDEF0 models (every flow has a producer, decompositions are complete,
the execution graph has no cycle), maps a checked model to an intent graph,
and drives the survey that builds such a model question by question.

Every function in `src/` carries a contract that Verus proves. The contracts
are stated over mathematical models (`Seq`, `Map`, `Set`) of the data: the
lexer, the parser and the presentation reader are each equal to a spec
function on the input text, the validator to a spec function on the model,
and the scheduler's run states what every successful run gives (each node
processed once, parents before children, branch routing, rejects, growth by
SPAWN, reuse of cached computations).

## Layout

- `src/text.rs`, `src/keyed_map.rs`, `src/digest.rs`: strings, an ordered
  map keyed by strings, SHA-256 digests.
- `src/registry.rs`: the node kinds, their subtypes and slots.
- `src/lexer.rs`, `src/parser.rs`: surface syntax to graphs; node identity
  and cache keys.
- `src/decoding.rs`, `src/surface.rs`: output grammars, output checks, and
  the surface form of a node, with its round trip through the parser.
- `src/presentation.rs`, `src/roundtrip.rs`: the XML presentation and its
  round trip.
- `src/scheduler.rs`: running a graph.
- `src/idef0.rs`, `src/icom.rs`, `src/interview.rs`: IDEF0 models, their
  validation, the mapping to graphs, and the survey.
- `src/verify.rs`: VERIFY slots enforced after a run, and run reports.
- `src/validation.rs`: what a model that checks its own answers asks, and
  what it does with each reply.
- `app/`: the programs around the library (command line, web page, language
  model transports, JSON, business predicates on numbers).
- `tests/`: tests of the library on concrete values.

Laws that relate several functions stand in `src/` as public proof
functions whose names begin with `lemma_`, next to the functions they
speak of.
