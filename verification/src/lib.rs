//! Verified core of the moon Lua runtime modules.
pub mod bson;
pub mod bson_laws;
pub mod buffer;
pub mod buffer_laws;
pub mod buffer_read;
pub mod cursor;
pub mod document_laws;
pub mod error;
pub mod fs;
pub mod laux;
pub mod loader;
pub mod module_laws;
pub mod mongo;
pub mod mongo_calls;
pub mod mongo_laws;
pub mod mongo_options;
pub mod mongo_reply;
pub mod mongo_task;
pub mod number;
pub mod option_laws;
pub mod pack;
pub mod path_laws;
pub mod printing;
pub mod random;
pub mod random_laws;
pub mod registry;
pub mod reply_laws;
pub mod request_laws;
pub mod rua;
pub mod schema;
pub mod schema_laws;
pub mod schema_load;
pub mod schema_verify;
pub mod seri;
pub mod seri_laws;
pub mod stack_laws;
pub mod table;
pub mod table_laws;
pub mod text;
pub mod text_laws;
pub mod unpack;
pub mod utils;
pub mod uuid;
pub mod value;
pub mod value_laws;
pub mod weighted;
pub mod wire_laws;
pub mod words;
