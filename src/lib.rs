pub mod searching;
