pub mod in_memory_catalog;
