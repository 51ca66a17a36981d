# sch_engine

A schematic engine: a netlist with a layout tree is laid out, compiled to a KiCad sheet and checked;
an existing sheet can be read, patched and drawn anew with its placements kept.

`src/` is the library, verified with Verus. Coordinates are integers in units of 0.00001 mm.

- Drawing: `geom`, `geo`, `pins`, `pack`, `arrange`, `place_text`
- Layout of netlists: `reader`, `circuit`, `tree`, `lint`, `flex`, `measure`, `orient`, `group`,
  `layout`, `router`, `cheapest`, `drawing`, `flexlayout`
- Sheets: `model`, `model_json`, `edit`, `pinref`, `annotate`, `compile`, `check`, `netlist`,
  `report`, `pipeline`, `extract`, `flow`
- What is read of a sheet that was written: `spacing`, `readsym`, `readback`, `roundtrip`, `settle`,
  `again`
- Writing a circuit again: `kernel`, `grammar`, `chains`, `chained`, `cluster_geom`, `place`,
  `floorplan`, `plan_cost`, `refine`, `rails`, `tee`, `reconcile`, `reemit`, `decorate`, `wiring`, `afresh`,
  `emit`, `render`, `retract`, `route`
- Basics: `text`, `number`, `natural`, `names`, `order`, `order_map`, `json`, `sexp`, `symlib`, `ids`

`tests/` runs the library on given values. `app/` reads and writes files and calls the KiCad command
line around it.
