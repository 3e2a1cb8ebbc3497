[package]
name = "qsv_sniffer"
version = "0.1.0"
edition = "2021"
publish = false

[dependencies]
csv = "*"
csv-core = "*"
regex = "*"
memchr = "*"
bytecount = "*"
simdutf8 = "*"
qsv-dateparser = "=0.12.1"
