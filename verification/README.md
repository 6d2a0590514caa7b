# resource_sim

Autonomous robots explore a grid map, share what they perceive through a
base, and carry resources back to it. Scouts walk at random and report; 
collectors plan on their own mental map (breadth-first search of first steps)
towards the nearest known deposit and bring one unit at a time home.

- `src/` is the verified library (Verus): terrain layout and deposits
  (`map`), per-robot knowledge and perception (`knowledge`), random walk and
  BFS (`pathfinding`), the robots' per-tick decisions (`robot`), the base's
  aggregation (`base`), what each screen cell shows (`display`), shared types
  (`world`) and the random choices drawn from `rand` (`chance`).
- `app/` is the terminal program: Perlin-noise roughness, one thread per
  robot, channels between robots and base, and drawing with ratatui.
