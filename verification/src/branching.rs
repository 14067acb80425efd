pub mod chose_next_assignment;
pub mod chose_next_variable;
pub mod monien_speckenmeyer;
