pub mod consts;
pub mod deadline_heap;
pub mod listen_laws;
pub mod listen_model;
pub mod listen_table;
pub mod sockets;
pub mod timer_laws;
pub mod timers;
pub mod wire;
