pub mod idl;
pub mod maxsat_ddd;
pub mod maxsat_ti;
