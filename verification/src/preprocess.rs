pub mod cnf;
pub mod niver;
pub mod preprocess;
pub mod selfsubsume;
pub mod subsume;
