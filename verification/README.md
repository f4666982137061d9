# substrate_evolver

A verified core for an artificial-life simulation on a toroidal grid: agents
with genome-encoded neural brains move, eat, fight, die and reproduce, while
food grows faster in the Oasis (left half) than in the Tundra (right half)
and periodic Ice Ages cut food and raise energy costs.

`src/` holds the integer logic of the simulation, verified with Verus:

- `config` – the integer world parameters and their validity.
- `substrate` – toroidal wrapping and shortest differences, food deposits
  capped per cell, the Oasis/Tundra split, food totals.
- `environment` – the Ice Age schedule and its start/end events.
- `world` – the food grid, clock and bounded history log.
- `history` – log entries, their text and the bounded log.
- `perception` – nearest food and nearest mate within the vision window.
- `population` – processing order, crowding counts, cell buckets, victims,
  removal of the dead, birth and step positions.
- `mating` – pairing of eligible agents per cell, and its soundness.
- `genetics` – genome layout and two-point crossover.
- `i18n` – user-interface texts in English and Turkish.
- `random` – the random number generator behind the random draws.

`app/` is the WebAssembly boundary and the floating-point side of the
simulation (energies, neural network, mutation noise, probabilities).
