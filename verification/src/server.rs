//! The file server's own settings: where it listens and which protocol it
//! speaks.

use crate::number::{decimal, decimal_digits, ZERO};
use crate::path::bytes_eq;
use vstd::prelude::*;
use vstd::string::*;

verus! {

/// The file server: the address and port it listens on.
pub struct FileServer {
    ip: String,
    port: u16,
}

/// The decimal digits of `n` as text.
pub open spec fn decimal_text(n: nat) -> Seq<char> {
    decimal(n).map_values(|b: u8| b as char)
}

/// The text of one decimal digit.
fn digit_text(d: u8) -> (r: &'static str)
    requires
        d < 10,
    ensures
        r@ == seq![(ZERO + d) as u8 as char],
{
    proof {
        reveal_strlit("0");
        reveal_strlit("1");
        reveal_strlit("2");
        reveal_strlit("3");
        reveal_strlit("4");
        reveal_strlit("5");
        reveal_strlit("6");
        reveal_strlit("7");
        reveal_strlit("8");
        reveal_strlit("9");
    }
    match d {
        0 => "0",
        1 => "1",
        2 => "2",
        3 => "3",
        4 => "4",
        5 => "5",
        6 => "6",
        7 => "7",
        8 => "8",
        _ => "9",
    }
}

impl FileServer {
    pub closed spec fn spec_ip(&self) -> Seq<char> {
        self.ip@
    }

    pub closed spec fn spec_port(&self) -> u16 {
        self.port
    }

    /// A server that will listen on `ip` and `port`.
    pub fn new(ip: String, port: u16) -> (r: Self)
        ensures
            r.spec_ip() == ip@,
            r.spec_port() == port,
    {
        FileServer { ip, port }
    }

    /// The address it listens on: `ip:port`.
    pub fn address(&self) -> (r: String)
        ensures
            r@ == self.spec_ip() + seq![':'] + decimal_text(self.spec_port() as nat),
    {
        let digits = decimal_digits(self.port as u32);
        proof {
            crate::number::lemma_decimal(self.port as nat);
            reveal_strlit(":");
        }
        let mut r = self.ip.clone();
        r.append(":");
        let ghost head = r@;
        let mut i: usize = 0;
        while i < digits.len()
            invariant
                i <= digits@.len(),
                digits@ == decimal(self.port as nat),
                crate::number::all_digits(digits@),
                r@ == head + digits@.subrange(0, i as int).map_values(|b: u8| b as char),
            decreases digits@.len() - i,
        {
            let b = digits[i];
            assert(crate::number::is_digit(digits@[i as int]));
            r.append(digit_text(b - ZERO));
            assert(digits@.subrange(0, i + 1).map_values(|b: u8| b as char) =~= digits@.subrange(
                0,
                i as int,
            ).map_values(|b: u8| b as char).push(b as char));
            i = i + 1;
        }
        assert(digits@.subrange(0, digits@.len() as int) =~= digits@);
        r
    }
}

/// The protocols the server can speak.
#[derive(Clone, Copy, Debug, PartialEq, Eq, Structural)]
pub enum Protocol {
    Grpc,
    HttpAxum,
    HttpActix,
}

pub open spec fn spec_protocol(name: Seq<char>) -> Option<Protocol> {
    if name == "grpc"@ {
        Some(Protocol::Grpc)
    } else if name == "http_axum"@ {
        Some(Protocol::HttpAxum)
    } else if name == "http_actix"@ {
        Some(Protocol::HttpActix)
    } else {
        None
    }
}

/// Whether two texts are equal.
fn text_eq(a: &str, b: &str) -> (r: bool)
    ensures
        r == (a@ == b@),
{
    proof {
        vstd::utf8::encode_utf8_decode_utf8(a@);
        vstd::utf8::encode_utf8_decode_utf8(b@);
    }
    bytes_eq(a.as_bytes(), b.as_bytes())
}

/// The protocol that a name on the command line stands for.
pub fn parse_protocol(name: &str) -> (r: Option<Protocol>)
    ensures
        r == spec_protocol(name@),
{
    if text_eq(name, "grpc") {
        Some(Protocol::Grpc)
    } else if text_eq(name, "http_axum") {
        Some(Protocol::HttpAxum)
    } else if text_eq(name, "http_actix") {
        Some(Protocol::HttpActix)
    } else {
        None
    }
}

} // verus!
