# robotics-foundations, verified core

`src/` is a Verus library holding the integer logic of the project's path
planners, with contracts that Verus proves:

- `path_planning::astar`: grid cells and their 4- and 8-connected
  neighbours; `ParentMap` (parent links keyed by a one-to-one `i64` cell
  key) and `reconstruct_path`; `AStarSearch`, the bookkeeping of an A*
  search (closed set, parent links, neighbour filter, exploration limit and
  path reconstruction). Its `visit` contract states that a reached goal comes
  back as a path from the start to the goal through neighbouring cells that
  the occupancy test reported free, with no cell repeated.
- `path_planning::rrt`: `extract_path`, the root-to-node path through a tree
  given by parent indices.

`app/` is the rest of the project, which computes with floating-point
numbers: transforms, kinematics, the A* open set and costs, RRT sampling,
potential fields, PID control, collision checks, sensors and agents. It uses
the library for the pieces above, and `nalgebra`, `rand` and `serde`.

`tests/` exercises the library, including the A* scenarios driven by a
floating-point open set over `AStarSearch`.
