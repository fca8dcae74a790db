//! The contract between the forwarder and an optional kernel offload:
//! configuration, status, metrics, and the form in which Data is mirrored.

use vstd::prelude::*;
use crate::error::Error;
use crate::ndn::{Data, data_encodable, encode_data};
use crate::name::render;

verus! {

/// How the offload program is attached.
#[derive(Debug, Clone, Copy, PartialEq, Eq, Structural)]
pub enum XdpMode {
    Skb,
    Drv,
    Hw,
}

/// Configuration of the offload.
#[derive(Debug, Clone)]
pub struct XdpConfig {
    pub xdp_obj_path: String,
    pub interface: String,
    pub xdp_mode: XdpMode,
    pub cs_size: usize,
    pub cs_ttl: u32,
    pub map_pin_path: String,
    pub enable_metrics: bool,
    pub metrics_interval: u64,
}

impl Default for XdpConfig {
    /// The program `./ndn_parser.o` on `eth0` in skb mode, a content store
    /// of 10000 entries that live 60 s, maps pinned under
    /// `/sys/fs/bpf/ndn`, metrics every 10 s.
    fn default() -> (r: Self)
        ensures
            r.xdp_obj_path@ == "./ndn_parser.o"@,
            r.interface@ == "eth0"@,
            r.xdp_mode == XdpMode::Skb,
            r.cs_size == 10000,
            r.cs_ttl == 60,
            r.map_pin_path@ == "/sys/fs/bpf/ndn"@,
            r.enable_metrics,
            r.metrics_interval == 10,
    {
        XdpConfig {
            xdp_obj_path: "./ndn_parser.o".to_owned(),
            interface: "eth0".to_owned(),
            xdp_mode: XdpMode::Skb,
            cs_size: 10000,
            cs_ttl: 60,
            map_pin_path: "/sys/fs/bpf/ndn".to_owned(),
            enable_metrics: true,
            metrics_interval: 10,
        }
    }
}

impl XdpMode {
    /// The word that names the mode on a command line.
    pub fn as_str(&self) -> (r: &'static str)
        ensures
            r@ == match self {
                XdpMode::Skb => "skb"@,
                XdpMode::Drv => "drv"@,
                XdpMode::Hw => "hw"@,
            },
    {
        match self {
            XdpMode::Skb => "skb",
            XdpMode::Drv => "drv",
            XdpMode::Hw => "hw",
        }
    }
}

/// Status of the offload.
#[derive(Debug, Clone, PartialEq, Eq)]
pub enum XdpStatus {
    NotLoaded,
    Running,
    Failed(String),
}

/// Counters read from the offload.
#[derive(Debug, Clone, Copy, PartialEq, Eq, Structural)]
pub struct XdpMetrics {
    pub packets_processed: u64,
    pub interests: u64,
    pub data_packets: u64,
    pub cache_hits: u64,
    pub cache_misses: u64,
    pub cache_size: u64,
    pub cache_evictions: u64,
    pub errors: u64,
    pub avg_processing_time_ns: u64,
}

impl Default for XdpMetrics {
    /// All counters at zero.
    fn default() -> (r: Self)
        ensures
            r == XdpMetrics::zero(),
    {
        XdpMetrics {
            packets_processed: 0,
            interests: 0,
            data_packets: 0,
            cache_hits: 0,
            cache_misses: 0,
            cache_size: 0,
            cache_evictions: 0,
            errors: 0,
            avg_processing_time_ns: 0,
        }
    }
}

impl XdpMetrics {
    /// All counters at zero.
    pub open spec fn zero() -> XdpMetrics {
        XdpMetrics {
            packets_processed: 0,
            interests: 0,
            data_packets: 0,
            cache_hits: 0,
            cache_misses: 0,
            cache_size: 0,
            cache_evictions: 0,
            errors: 0,
            avg_processing_time_ns: 0,
        }
    }

    /// The metrics with the counter that `key` numbers set to `value`; keys
    /// above 8 number no counter.
    pub open spec fn with_metric(self, key: u32, value: u64) -> XdpMetrics {
        if key == 0 {
            XdpMetrics { packets_processed: value, ..self }
        } else if key == 1 {
            XdpMetrics { interests: value, ..self }
        } else if key == 2 {
            XdpMetrics { data_packets: value, ..self }
        } else if key == 3 {
            XdpMetrics { cache_hits: value, ..self }
        } else if key == 4 {
            XdpMetrics { cache_misses: value, ..self }
        } else if key == 5 {
            XdpMetrics { cache_size: value, ..self }
        } else if key == 6 {
            XdpMetrics { cache_evictions: value, ..self }
        } else if key == 7 {
            XdpMetrics { errors: value, ..self }
        } else if key == 8 {
            XdpMetrics { avg_processing_time_ns: value, ..self }
        } else {
            self
        }
    }

    /// Sets the counter that `key` numbers in the offload's metrics map.
    pub fn record(&mut self, key: u32, value: u64)
        ensures
            *final(self) == old(self).with_metric(key, value),
    {
        match key {
            0 => {
                self.packets_processed = value;
            },
            1 => {
                self.interests = value;
            },
            2 => {
                self.data_packets = value;
            },
            3 => {
                self.cache_hits = value;
            },
            4 => {
                self.cache_misses = value;
            },
            5 => {
                self.cache_size = value;
            },
            6 => {
                self.cache_evictions = value;
            },
            7 => {
                self.errors = value;
            },
            8 => {
                self.avg_processing_time_ns = value;
            },
            _ => {},
        }
    }
}

impl XdpStatus {
    /// The status after an attempt to load the program.
    pub fn after_load(outcome: Result<(), String>) -> (r: XdpStatus)
        ensures
            outcome is Ok ==> r == XdpStatus::Running,
            outcome is Err ==> r == XdpStatus::Failed(outcome->Err_0),
    {
        match outcome {
            Ok(_) => XdpStatus::Running,
            Err(reason) => XdpStatus::Failed(reason),
        }
    }

    /// Whether the program is attached and running.
    pub fn is_running(&self) -> (r: bool)
        ensures
            r == (*self == XdpStatus::Running),
    {
        match self {
            XdpStatus::Running => true,
            _ => false,
        }
    }
}

/// The lower-case hexadecimal digit for a value below 16.
pub open spec fn hex_char(v: u8) -> char {
    if v < 10 {
        ((0x30 + v) as u8) as char
    } else {
        ((0x61 + v - 10) as u8) as char
    }
}

/// The lower-case hexadecimal text of a byte string: two digits for each
/// octet, the high one first.
pub open spec fn hex_text(bytes: Seq<u8>) -> Seq<char>
    decreases bytes.len(),
{
    if bytes.len() == 0 {
        Seq::empty()
    } else {
        hex_text(bytes.drop_last()) + seq![hex_char(bytes.last() / 16), hex_char(bytes.last() % 16)]
    }
}

/// Writes octets as hexadecimal text with `hex::encode`: two lower-case
/// digits for each octet, the high one first.
#[verifier::external_body]
fn hex_encode(data: &[u8]) -> (r: String)
    ensures
        r@ == hex_text(data@),
{
    hex::encode(data)
}

/// Key and value under which a Data packet is mirrored into the offload's
/// content store.
#[derive(Debug)]
pub struct MirrorEntry {
    /// The canonical textual form of the name.
    pub key: String,
    /// The encoded packet in hexadecimal.
    pub value_hex: String,
}

/// The entry that mirrors `data`; `InvalidArgument` where the packet does not
/// fit the wire format.
pub fn mirror_entry(data: &Data) -> (r: Result<MirrorEntry, Error>)
    ensures
        data_encodable(data@) ==> r is Ok && r->Ok_0.value_hex@ == hex_text(encode_data(data@)) && r->Ok_0.key@.len()
            == render(data@.name).len() && (forall|i: int|
            0 <= i < r->Ok_0.key@.len() ==> r->Ok_0.key@[i] == render(data@.name)[i] as char),
        !data_encodable(data@) ==> r is Err && r->Err_0 == Error::InvalidArgument,
{
    match data.to_bytes() {
        Ok(bytes) => Ok(MirrorEntry { key: data.name().to_string(), value_hex: hex_encode(bytes.as_slice()) }),
        Err(_) => Err(Error::InvalidArgument),
    }
}

/// Whether every octet is a decimal digit.
pub open spec fn all_digits(s: Seq<u8>) -> bool {
    forall|i: int| 0 <= i < s.len() ==> 0x30 <= #[trigger] s[i] <= 0x39
}

/// The number that decimal digits stand for.
pub open spec fn decimal_value(s: Seq<u8>) -> int
    decreases s.len(),
{
    if s.len() == 0 {
        0
    } else {
        decimal_value(s.drop_last()) * 10 + (s.last() - 0x30)
    }
}

proof fn lemma_decimal_grows(s: Seq<u8>, i: int)
    requires
        all_digits(s),
        0 <= i <= s.len(),
    ensures
        0 <= decimal_value(s.take(i)) <= decimal_value(s),
    decreases s.len() - i,
{
    if i == s.len() {
        assert(s.take(i) =~= s);
        lemma_decimal_nonnegative(s);
    } else {
        lemma_decimal_grows(s, i + 1);
        assert(s.take(i + 1).drop_last() =~= s.take(i));
        lemma_decimal_nonnegative(s.take(i));
    }
}

proof fn lemma_decimal_nonnegative(s: Seq<u8>)
    requires
        all_digits(s),
    ensures
        decimal_value(s) >= 0,
    decreases s.len(),
{
    if s.len() > 0 {
        lemma_decimal_nonnegative(s.drop_last());
    }
}

/// Reads a counter written in decimal digits: `None` for an empty text, for
/// a text that holds anything but digits, and for a number beyond `u64`.
pub fn parse_decimal(text: &[u8]) -> (r: Option<u64>)
    ensures
        r is Some <==> text@.len() > 0 && all_digits(text@) && decimal_value(text@) <= u64::MAX,
        r is Some ==> r->0 == decimal_value(text@),
{
    if text.len() == 0 {
        return None;
    }
    let mut acc: u64 = 0;
    let mut i: usize = 0;
    assert(text@.take(0) =~= Seq::<u8>::empty());
    while i < text.len()
        invariant
            0 <= i <= text@.len(),
            all_digits(text@.take(i as int)),
            acc == decimal_value(text@.take(i as int)),
        decreases text@.len() - i,
    {
        let b: u8 = text[i];
        if b < 0x30 || b > 0x39 {
            return None;
        }
        let digit: u64 = (b - 0x30) as u64;
        proof {
            assert(text@.take(i + 1).drop_last() =~= text@.take(i as int));
            assert(text@.take(i + 1).last() == b);
            assert(all_digits(text@.take(i + 1))) by {
                assert forall|k: int| 0 <= k < i + 1 implies 0x30 <= #[trigger] text@.take(i + 1)[k] <= 0x39 by {
                    if k < i {
                        assert(text@.take(i as int)[k] == text@[k]);
                    }
                }
            }
        }
        if acc > (u64::MAX - digit) / 10 {
            proof {
                if all_digits(text@) {
                    lemma_decimal_grows(text@, i + 1);
                }
            }
            return None;
        }
        acc = acc * 10 + digit;
        i += 1;
    }
    assert(text@.take(text@.len() as int) =~= text@);
    Some(acc)
}

} // verus!
