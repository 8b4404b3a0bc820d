pub mod model;
pub mod printing;
pub mod text_editing;
pub mod time_format;
pub mod time_reading;
