//! The logic of the applets: option parsing, text transformations and
//! formatting, apart from the reading and writing that surrounds them.

pub mod echo;
pub mod files;
pub mod cut;
pub mod tr;
pub mod sed;
pub mod awk;
pub mod lines;
pub mod cat;
pub mod wc;
pub mod grep;
pub mod ls;
pub mod headtail;
pub mod gzip;
pub mod tar;
pub mod switches;
pub mod seq;
pub mod xargs;
pub mod find;
pub mod cmdline;
pub mod textopts;
