//! Wish: distributes people into slots, each person ranking the slots, so that the sum of the
//! squared ranks is as small as possible while every slot stays between its least and its
//! most number of people.

// The data and its text forms.
pub mod model;
pub mod lang;
pub mod text;
pub mod numbers;
pub mod parse;
pub mod format;
pub mod editor;

// The assignment.
pub mod permutation;
pub mod matching;
pub mod solver;
pub mod hungarian;
pub mod assignment;
pub mod pipeline;
pub mod quotas;
pub mod fairness;

// Mails, pages and the server's rules.
pub mod templates;
pub mod markdown;
pub mod highlight;
pub mod safe_html;
pub mod mails;
pub mod feedback;
pub mod pages;
pub mod client;
pub mod results;
pub mod server;
pub mod roster;
pub mod admin;
pub mod history;
pub mod calendar;
