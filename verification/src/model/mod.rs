pub mod focus;
pub mod graph;
pub mod graph_spec;
pub mod implicit;
pub mod layering;
pub mod order;
pub mod persist;
pub mod task;
pub mod task_set;
pub mod todo_list;
