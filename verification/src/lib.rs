pub mod agreement;
pub mod babybear;
pub mod binding;
pub mod bytes;
pub mod certificates;
pub mod chips;
pub mod constraints;
pub mod digest;
pub mod export;
pub mod extension;
pub mod hexadecimal;
pub mod known_primes;
pub mod laws;
pub mod logup;
pub mod machine;
pub mod matrix;
pub mod meaning;
pub mod memory;
pub mod modular;
pub mod names;
pub mod number_theory;
pub mod permutation;
pub mod primality;
pub mod pvor;
pub mod residuals;
pub mod ring;
pub mod rows;
pub mod sizing;
pub mod statement;
pub mod stream;
pub mod tag;
pub mod text;
pub mod transcript;
pub mod walk;
pub mod walk_error;
