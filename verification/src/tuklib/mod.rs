pub mod common;
pub mod mythread;
pub mod sysdefs;
pub mod tuklib_exit;
pub mod tuklib_integer;
pub mod tuklib_mbstr_fw;
pub mod tuklib_mbstr_width;
pub mod tuklib_open_stdxxx;
pub mod tuklib_progname;
