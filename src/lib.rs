pub mod deck;
