pub mod coding_laws;
pub mod context;
pub mod context_laws;
pub mod learning_laws;
pub mod suballoc;
pub mod update_laws;
pub mod variant_g;
