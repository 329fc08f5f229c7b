pub mod codec;
pub mod csv_input;
pub mod decode;
pub mod keys;
pub mod lwe;
pub mod records;
pub mod seqs;
pub mod utf8_lemmas;
