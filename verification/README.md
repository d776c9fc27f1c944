# Letheo

A cognitive runtime for the memory of agents: it perceives, dreams, evokes and fades. Memory costs
the same whether a history has four thousand events or a million, because behaviour is distilled into
an essence per subject and everything that is not recalled is forgotten.

```
weight(t) = salience · e^(−λ · Δt) · (1 + reinforcement)        λ = ln2 / halflife
```

One physics governs two layers: archetypes with their modes and their arc (who a subject is and where
it is heading), and exact facts (what was said, word for word).

| Verb | Role |
|------|------|
| `PERCEIVE` | Takes a stimulus into short-term memory. It is born decaying. |
| `DISTILL` | The dream: collapses perceptions into an intention vector and its modes. |
| `EVOKE` | The essence of a subject within a token budget. |
| `FADE` | Sweeps what has decayed; what was contributed to archetypes stays. |
| `IMPRINT` | Anchors an archetype against forgetting. |
| `RECALL` | Exact facts that resonate; reads only. |
| `REINFORCE` | Recalls facts and resets their decay. |

## Layout

- `src/` is the library. Everything in it is verified with Verus: each function against its contract,
  and the laws that relate functions as proof functions beside them.
- `app/` is the program around it: the prompt, files and the transactional store, the model that
  embeds text, the graph index, the background task, the Python module.
- `tests/` runs the library on the machine's floating-point unit.

## Numbers

The library holds numbers as IEEE 754 bit patterns and decides comparisons on them itself. What an
operation yields is asked of an `Arithmetic` that the host supplies, and every formula is stated over
those operations. What the library needs of it is one predicate, `arithmetic::lawful`: an operation
answers the same arguments in the same way, a cosine is a number, and some facts about sums,
differences, products and quotients that hold wherever results are rounded to the nearest number.

## Limits

Counts are machine words. A dream needs room in the counts of the subjects it dreams of for what it
can add, a rate of decay in their archetypes, and at least one mode per cycle;
`CognitiveRuntime::ready`, `Executor::can_execute` and `Organism::can_carry_out` tell whether it can
go ahead.
