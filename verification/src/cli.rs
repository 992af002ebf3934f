pub mod cat_file;
pub mod commit;
pub mod init;
