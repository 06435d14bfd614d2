pub mod hostsfile;
pub mod socketry;
