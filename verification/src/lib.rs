//! Schematic engine: symbols, layout, wiring and checks of circuit drawings.
pub mod afresh;
pub mod again;
pub mod annotate;
pub mod arrange;
pub mod chained;
pub mod chains;
pub mod cheapest;
pub mod check;
pub mod circuit;
pub mod cluster_geom;
pub mod compile;
pub mod crowding;
pub mod decorate;
pub mod dots;
pub mod drawing;
pub mod edit;
pub mod emit;
pub mod engine;
pub mod extract;
pub mod faults;
pub mod flex;
pub mod flexlayout;
pub mod floorplan;
pub mod flow;
pub mod folding;
pub mod gathering;
pub mod geo;
pub mod geo_json;
pub mod geom;
pub mod grammar;
pub mod group;
pub mod hooked;
pub mod ids;
pub mod interchange;
pub mod joined;
pub mod json;
pub mod kernel;
pub mod layout;
pub mod lint;
pub mod measure;
pub mod model;
pub mod model_json;
pub mod names;
pub mod naming;
pub mod natural;
pub mod netlist;
pub mod number;
pub mod order;
pub mod orient;
pub mod order_map;
pub mod pack;
pub mod patching;
pub mod pinref;
pub mod pins;
pub mod place;
pub mod pipeline;
pub mod place_text;
pub mod plan_cost;
pub mod reaching;
pub mod readable;
pub mod readback;
pub mod readsym;
pub mod rails;
pub mod reader;
pub mod reconcile;
pub mod reemit;
pub mod refine;
pub mod render;
pub mod report;
pub mod retract;
pub mod roundtrip;
pub mod route;
pub mod router;
pub mod sexp;
pub mod settle;
pub mod sorting;
pub mod spacing;
pub mod spread;
pub mod standing;
pub mod symlib;
pub mod tee;
pub mod text;
pub mod touching;
pub mod tree;
pub mod trunks;
pub mod wiring;

pub use flow::BuildReport;
pub use geo::Geo;
pub use model::{Design, Label, Part, Power, Rect, Text};
pub use symlib::{Pin, SymbolInfo};
