pub mod addr_map;
pub mod addr_set;
pub mod lc3;
pub mod text;
pub mod disasm;
pub mod cfg;
pub mod liveness;
pub mod ir;
pub mod passes;
pub mod lift;
pub mod control_flow;
pub mod structure;
pub mod refine;
pub mod conditionals;
pub mod stack;
pub mod linear;
pub mod codegen;
pub mod new;
pub mod show;
pub mod laws;
pub mod semantics;
pub mod checks;
