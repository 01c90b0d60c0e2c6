# pfsp_solver

Permutation flow shop scheduling: instances are read from text, schedules are
evaluated by their total flow time, and a greedy construction, a genetic
algorithm and simulated annealing search for good schedules. A terminal
interface shows an instance, lets the user type a schedule and runs the
algorithms.

- `src/` is the verified library (Verus): the instance format, schedules and
  their Gantt intervals, the caching evaluator, the crossover and mutation
  operators, selection, the greedy construction, the steps of the genetic
  algorithm, the settings format of the algorithms and the state machine of
  the interface.
- `app/` is the program around it: reading the file, the terminal, the
  drawing, the runs in the background, and what works with floating point
  numbers (simulated annealing, the roulette selection, the shares of the
  genetic operators).
- `tests/` runs the library on concrete values.
