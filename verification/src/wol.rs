//! Wake-on-LAN magic packets: parsing the textual MAC address, the 102-byte
//! wire layout, and resolution of the destination address and port.
//!
//! Transmission itself is a single UDP send that the caller performs with the
//! datagram built here; everything up to that send is verified.
use crate::text::{hex_value, hex_value_exec, is_hex_char, str_to_chars};
use vstd::prelude::*;

verus! {

/// Why a wake request failed.
#[derive(Debug)]
pub enum WolError {
    /// The MAC string is not six colon-separated pairs of hex digits.
    InvalidMacFormat { input: String },
    /// The transport refused the datagram; built by the caller that owns the
    /// socket, never by this module.
    NetworkSendError { mac: String, target: String, port: u16 },
}

/// A MAC string is exactly six groups of two hexadecimal digits separated by
/// colons: `XX:XX:XX:XX:XX:XX`.
pub open spec fn mac_shape_ok(s: Seq<char>) -> bool {
    &&& s.len() == 17
    &&& forall|k: int|
        0 <= k < 6 ==> is_hex_char(#[trigger] s[3 * k]) && is_hex_char(s[3 * k + 1])
    &&& forall|k: int| 0 <= k < 5 ==> #[trigger] s[3 * k + 2] == ':'
}

/// The `k`-th octet named by a well-shaped MAC string.
pub open spec fn mac_byte(s: Seq<char>, k: int) -> u8 {
    (hex_value(s[3 * k]) * 16 + hex_value(s[3 * k + 1])) as u8
}

/// The six octets named by a well-shaped MAC string.
pub open spec fn mac_bytes(s: Seq<char>) -> Seq<u8> {
    Seq::new(6, |k: int| mac_byte(s, k))
}

/// Parses a MAC string, rejecting anything but six colon-separated pairs of
/// hex digits, before any network resource is touched.
pub fn parse_mac(mac: &str) -> (r: Result<Vec<u8>, WolError>)
    ensures
        match r {
            Ok(b) => mac_shape_ok(mac@) && b@ == mac_bytes(mac@),
            Err(e) => !mac_shape_ok(mac@) && match e {
                WolError::InvalidMacFormat { input } => input@ == mac@,
                _ => false,
            },
        },
{
    let s = str_to_chars(mac);
    if s.len() != 17 {
        return Err(WolError::InvalidMacFormat { input: mac.to_owned() });
    }
    let mut bytes: Vec<u8> = Vec::new();
    let mut k: usize = 0;
    while k < 6
        invariant
            s@ == mac@,
            s@.len() == 17,
            k <= 6,
            forall|j: int|
                0 <= j < k ==> is_hex_char(#[trigger] s@[3 * j]) && is_hex_char(s@[3 * j + 1]),
            forall|j: int| 0 <= j < k && j < 5 ==> #[trigger] s@[3 * j + 2] == ':',
            bytes@ =~= Seq::new(k as nat, |j: int| mac_byte(s@, j)),
        decreases 6 - k,
    {
        let hi = hex_value_exec(s[3 * k]);
        let lo = hex_value_exec(s[3 * k + 1]);
        if hi >= 16 || lo >= 16 {
            return Err(WolError::InvalidMacFormat { input: mac.to_owned() });
        }
        if k < 5 && s[3 * k + 2] != ':' {
            return Err(WolError::InvalidMacFormat { input: mac.to_owned() });
        }
        bytes.push(hi * 16 + lo);
        proof {
            assert(bytes@ =~= Seq::new((k + 1) as nat, |j: int| mac_byte(s@, j)));
        }
        k = k + 1;
    }
    proof {
        assert(bytes@ =~= mac_bytes(mac@));
    }
    Ok(bytes)
}

/// The standardized magic-packet payload for a six-octet MAC: six `0xFF`
/// bytes, then the MAC repeated sixteen times, 102 bytes in all.
pub open spec fn magic_payload(b: Seq<u8>) -> Seq<u8> {
    Seq::new(102, |i: int| if i < 6 { 0xffu8 } else { b[(i - 6) % 6] })
}

/// Builds the 102-byte magic packet for the given six MAC octets.
pub fn magic_packet(b: &Vec<u8>) -> (r: Vec<u8>)
    requires
        b@.len() == 6,
    ensures
        r@ == magic_payload(b@),
        r@.len() == 102,
{
    let mut out: Vec<u8> = Vec::new();
    let mut i: usize = 0;
    while i < 6
        invariant
            i <= 6,
            b@.len() == 6,
            out@ =~= magic_payload(b@).take(i as int),
        decreases 6 - i,
    {
        out.push(0xff);
        proof {
            assert(out@ =~= magic_payload(b@).take(i + 1 as int));
        }
        i = i + 1;
    }
    let mut rep: usize = 0;
    while rep < 16
        invariant
            rep <= 16,
            b@.len() == 6,
            out@ =~= magic_payload(b@).take(6 + 6 * rep as int),
        decreases 16 - rep,
    {
        let mut j: usize = 0;
        while j < 6
            invariant
                rep < 16,
                j <= 6,
                b@.len() == 6,
                out@ =~= magic_payload(b@).take(6 + 6 * (rep as int) + j as int),
            decreases 6 - j,
        {
            out.push(b[j]);
            proof {
                let pos = 6 + 6 * (rep as int) + j as int;
                assert((pos - 6) % 6 == j as int) by {
                    assert(pos - 6 == 6 * (rep as int) + j as int);
                };
                assert(out@ =~= magic_payload(b@).take(pos + 1));
            }
            j = j + 1;
        }
        rep = rep + 1;
    }
    proof {
        assert(magic_payload(b@).take(102) =~= magic_payload(b@));
    }
    out
}

/// The limited broadcast address used when no target address is given.
pub open spec fn default_broadcast() -> Seq<char> {
    "255.255.255.255"@
}

/// The conventional WOL port, used when no port is given.
pub const DEFAULT_WOL_PORT: u16 = 9;

/// The destination host: the given address verbatim, or the limited
/// broadcast address.
pub fn resolve_target(target_addr: Option<String>) -> (r: String)
    ensures
        match target_addr {
            Some(a) => r@ == a@,
            None => r@ == default_broadcast(),
        },
{
    match target_addr {
        Some(a) => a,
        None => String::from_str("255.255.255.255"),
    }
}

/// The destination port: the given one, or the conventional WOL port 9.
pub fn resolve_port(port: Option<u16>) -> (r: u16)
    ensures
        match port {
            Some(p) => r == p,
            None => r == 9,
        },
{
    match port {
        Some(p) => p,
        None => DEFAULT_WOL_PORT,
    }
}

/// Everything one UDP send needs: the payload and the resolved destination.
pub struct WakeDatagram {
    pub payload: Vec<u8>,
    pub target: String,
    pub port: u16,
}

/// The whole local half of `sendWakePacket`: validates the MAC, builds the
/// magic packet and resolves the destination. The caller sends `payload` in
/// one broadcast-enabled UDP datagram to `target:port`.
pub fn build_wol_datagram(mac: &str, target_addr: Option<String>, port: Option<u16>) -> (r: Result<
    WakeDatagram,
    WolError,
>)
    ensures
        match r {
            Ok(d) => {
                &&& mac_shape_ok(mac@)
                &&& d.payload@ == magic_payload(mac_bytes(mac@))
                &&& d.target@ == (match target_addr {
                    Some(a) => a@,
                    None => default_broadcast(),
                })
                &&& d.port == (match port {
                    Some(p) => p,
                    None => 9u16,
                })
            },
            Err(e) => !mac_shape_ok(mac@) && match e {
                WolError::InvalidMacFormat { input } => input@ == mac@,
                _ => false,
            },
        },
{
    let bytes = match parse_mac(mac) {
        Ok(b) => b,
        Err(e) => {
            return Err(e);
        },
    };
    let payload = magic_packet(&bytes);
    let target = resolve_target(target_addr);
    let port = resolve_port(port);
    Ok(WakeDatagram { payload, target, port })
}

} // verus!
