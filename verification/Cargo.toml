[package]
name = "fynix"
version = "0.1.0"
edition = "2021"
publish = false

[dependencies]
hashbrown = "=0.17.1"
indexmap = "=2.14.2"
sparse_map = "=0.3.1"
typarena = "=0.1.2"
rectree = "=0.0.0"
spatree = "=0.0.0"
field_path = "=0.6.0"
imaging = "=0.0.1"
linkme = "=0.3.37"
motiongfx_interp = "=0.5.0"
parley = "=0.12.0"
