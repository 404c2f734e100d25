pub mod io;
pub mod prop;
pub mod sp;
