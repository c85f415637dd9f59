pub mod commands;
pub mod dump;
pub mod int_cmds;
pub mod list;
pub mod load;
pub mod open;
pub mod save;
