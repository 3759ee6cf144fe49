pub mod packet;
pub mod scanner;
pub mod target;

pub use scanner::Scanner;
pub use target::ScanTarget;
