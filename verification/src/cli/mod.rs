pub mod drk_cli;
