[package]
name = "highlight_related"
version = "0.1.0"
edition = "2021"
publish = false

[dependencies]
ra_ap_hir = "=0.0.62"
ra_ap_ide_db = "=0.0.62"
ra_ap_profile = "=0.0.62"
ra_ap_syntax = "=0.0.62"
# Not used by name: ra_ap_ide_db 0.0.62 is written against this release of
# salsa and does not compile against the next, which cargo would select.
salsa = "=0.17.0-pre.1"
