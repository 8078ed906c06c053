# openv2b

A discrete-event simulator for EV vehicle-to-building (V2B) charging, written as
a verified library. A site with chargers is simulated slot by slot: vehicles
arrive, ask for a state of charge by departure, and leave; a policy decides each
connected vehicle's charge or discharge power; the bill is settled with energy
prices, demand charges and demand-response events.

Every function of the library carries a contract that Verus proves. The
contracts speak of a model of the site (`src/site.rs`) and of the linear programs
that the planning policies hand to a solver (`src/policy/`). On top of them stand
laws about whole runs, for any policy, adversarial ones too: no port serves two
sessions, the site neither exports nor exceeds its cap, batteries stay in their
range, energy is conserved, every session is reported exactly once, sessions of
one vehicle start where the last one ended, what is banked is not drawn again, the
order of the input rows does not matter, and planners see no future load. Of the
target-seeking policies it is proved that they meet the targets that can be met:
`uncontrolled`, `policy-0`, and, with a threshold that leaves room for what the cars
need, `edf` and `llf`, which also discharge a car above its target onto it.

## Layout

- `src/`: the verified library
- `tests/`: its tests, on double-precision and on fixed-point numbers
- `app/`: the command line: files, solver processes, HiGHS

The library is generic over its number type (`num::Num`), and its contracts fix
which operations are performed in which order. `fixed::Fixed` is a verified
implementation; the application and most tests bring a wrapper around `f64`. The
laws on power and energy are proved for numbers that round toward zero
(`src/rounding.rs`), with their rounding in the statement; `Fixed` is proved to be
one of these, `f64` is not.

## Running

    openv2b --scenario <dir> --policy <name> [--out <dir>] [--futures <dir,dir,...>]
    openv2b gen_month
    openv2b plan_fsl --scenario <dir>
    openv2b negotiate --scenario <dir> [--seed N]

A scenario is a directory with `scenario.json` and CSV tables for vehicles,
chargers, building load, grid prices and, optionally, demand-response events.
The `-cplex` policies run the binary that `OPENV2B_CPLEX_BIN` names (by default
`/opt/ibm/cplex/bin/x86-64_linux/cplex`); `oracle`, `mpc`, `scenario-mpc`,
`plan_fsl` and `negotiate` use HiGHS.
