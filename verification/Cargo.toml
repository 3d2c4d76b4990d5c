[package]
name = "jenq"
version = "0.1.0"
edition = "2021"
publish = false

[dependencies]
jenkins_api = "=0.7.0"
chrono = "=0.4.45"
clap = "=2.34.0"
failure = "=0.1.8"
log = "=0.4.34"
loggerv = "=0.7.2"
libc = "=0.2.190"
openssl-probe = "=0.1.6"
