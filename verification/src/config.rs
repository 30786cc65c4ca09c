//! Server configuration: the settings record, its defaults, and the
//! listen address derived from them.

use vstd::prelude::*;

use crate::text::{chars_to_string, extend_vec, str_to_chars, subvec};

verus! {

/// The settings of the surrounding service. Loading and storing them is
/// the caller's business; the record itself and the address derivation
/// are plain values.
pub struct AppConfig {
    /// The port to run the server on.
    pub port: u16,
    /// Whether to watch for file changes.
    pub watch_files: bool,
    /// The address to bind to.
    pub bind_address: String,
    /// The maximum file size in megabytes.
    pub max_file_size_mb: u64,
    /// Enable dark mode by default.
    pub default_dark_mode: bool,
}

/// The decimal digit character for a value below ten.
pub open spec fn digit_char(d: nat) -> char {
    ((48 + d) as u8) as char
}

/// The decimal representation of a number, most significant digit first.
pub open spec fn dec_digits(n: nat) -> Seq<char>
    decreases n,
{
    if n < 10 {
        seq![digit_char(n)]
    } else {
        dec_digits(n / 10).push(digit_char(n % 10))
    }
}

/// Writes `n` in decimal, matching `dec_digits`.
pub fn u16_to_decimal(n: u16) -> (r: Vec<char>)
    ensures
        r@ == dec_digits(n as nat),
    decreases n,
{
    if n < 10 {
        let mut r: Vec<char> = Vec::new();
        r.push(((48 + n) as u8) as char);
        proof {
            assert(r@ =~= dec_digits(n as nat));
        }
        r
    } else {
        let mut r = u16_to_decimal(n / 10);
        r.push(((48 + n % 10) as u8) as char);
        r
    }
}

impl Default for AppConfig {
    /// The default settings: port 3000 on 127.0.0.1, file watching on,
    /// a 10 MB size cap, and dark mode off.
    fn default() -> (r: AppConfig)
        ensures
            r.port == 3000,
            r.watch_files,
            r.bind_address@ == "127.0.0.1"@,
            r.max_file_size_mb == 10,
            !r.default_dark_mode,
    {
        AppConfig {
            port: 3000,
            watch_files: true,
            bind_address: "127.0.0.1".to_owned(),
            max_file_size_mb: 10,
            default_dark_mode: false,
        }
    }
}

impl AppConfig {
    /// The socket address to serve on: the bind address, a colon, and the
    /// port in decimal.
    pub fn server_address(&self) -> (r: String)
        ensures
            r@ == self.bind_address@ + seq![':'] + dec_digits(self.port as nat),
    {
        let mut out = str_to_chars(self.bind_address.as_str());
        out.push(':');
        let digits = u16_to_decimal(self.port);
        extend_vec(&mut out, &digits);
        proof {
            assert(out@ =~= self.bind_address@ + seq![':'] + dec_digits(self.port as nat));
        }
        chars_to_string(&out)
    }
}

} // verus!
