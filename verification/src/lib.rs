pub mod action;
pub mod autocomplete;
pub mod bindings;
pub mod buffer;
pub mod carry;
pub mod checkbox;
pub mod complete;
pub mod context;
pub mod cursor;
pub mod cycle;
pub mod diff;
pub mod dispatch;
pub mod edit;
pub mod editor;
pub mod erasing;
pub mod family;
pub mod github;
pub mod grapheme;
pub mod keys;
pub mod line_scan;
pub mod lines;
pub mod links;
pub mod looks;
pub mod marker;
pub mod marks;
pub mod mentions;
pub mod moves;
pub mod names;
pub mod newline;
pub mod number;
pub mod offers;
pub mod outline;
pub mod popup;
pub mod review;
pub mod session;
pub mod snapshot;
pub mod sort;
pub mod space;
pub mod state;
pub mod stepping;
pub mod tab;
pub mod text;
pub mod toggle;
pub mod tree;
pub mod view;
