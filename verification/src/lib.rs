pub mod bake;
pub mod bank;
pub mod dispatch;
pub mod entry;
pub mod guesser;
pub mod laws;
pub mod laws_of_bakes;
pub mod laws_of_entries;
pub mod laws_of_games;
pub mod laws_of_text;
pub mod laws_of_words;
pub mod letters;
pub mod play;
pub mod report;
pub mod response;
pub mod scores;
pub mod solve;
pub mod text;
