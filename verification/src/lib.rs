pub mod bezier;
pub mod color;
pub mod commit;
pub mod diff_pane;
pub mod edge;
pub mod garph;
pub mod history_oid;
pub mod lane;
pub mod point;
pub mod text;
pub mod title;
pub mod workspace;

