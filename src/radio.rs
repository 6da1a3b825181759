use vstd::prelude::*;
use vstd::string::*;
use crate::assoc::{assoc, keys_unique, lemma_assoc_absent, lemma_assoc_at, lemma_assoc_push, lemma_assoc_update};

verus! {

/// The hardware variants an emulated radio can claim to be.
#[derive(Debug, Clone, Copy, PartialEq, Eq, Structural)]
pub enum HpsdrHw {
    Atlas,
    Hermes,
    HermesII,
    Angelia,
    Orion,
    OrionMkII,
    HermesLite,
    Saturn,
    SaturnMkII,
}

impl HpsdrHw {
    /// The one-byte board code reported in discovery replies.
    pub open spec fn spec_code(self) -> u8 {
        match self {
            HpsdrHw::Atlas => 0,
            HpsdrHw::Hermes => 1,
            HpsdrHw::HermesII => 2,
            HpsdrHw::Angelia => 3,
            HpsdrHw::Orion => 4,
            HpsdrHw::OrionMkII => 5,
            HpsdrHw::HermesLite => 6,
            HpsdrHw::Saturn => 10,
            HpsdrHw::SaturnMkII => 11,
        }
    }

    /// The largest number of receive DDCs the variant offers.
    pub open spec fn spec_max_ddcs(self) -> u8 {
        match self {
            HpsdrHw::Atlas => 2,
            HpsdrHw::Hermes => 4,
            HpsdrHw::HermesII => 4,
            HpsdrHw::Angelia => 5,
            HpsdrHw::Orion => 5,
            HpsdrHw::OrionMkII => 8,
            HpsdrHw::HermesLite => 2,
            HpsdrHw::Saturn => 10,
            HpsdrHw::SaturnMkII => 10,
        }
    }

    pub fn code(self) -> (r: u8)
        ensures
            r == self.spec_code(),
    {
        match self {
            HpsdrHw::Atlas => 0,
            HpsdrHw::Hermes => 1,
            HpsdrHw::HermesII => 2,
            HpsdrHw::Angelia => 3,
            HpsdrHw::Orion => 4,
            HpsdrHw::OrionMkII => 5,
            HpsdrHw::HermesLite => 6,
            HpsdrHw::Saturn => 10,
            HpsdrHw::SaturnMkII => 11,
        }
    }

    pub fn max_ddcs(self) -> (r: u8)
        ensures
            r == self.spec_max_ddcs(),
            1 <= r <= 10,
    {
        match self {
            HpsdrHw::Atlas => 2,
            HpsdrHw::Hermes => 4,
            HpsdrHw::HermesII => 4,
            HpsdrHw::Angelia => 5,
            HpsdrHw::Orion => 5,
            HpsdrHw::OrionMkII => 8,
            HpsdrHw::HermesLite => 2,
            HpsdrHw::Saturn => 10,
            HpsdrHw::SaturnMkII => 10,
        }
    }
}

/// What `str::to_lowercase` makes of a string.
pub uninterp spec fn lower_of(s: Seq<char>) -> Seq<char>;

/// Relies on `str::to_lowercase`: the result depends on the characters alone.
#[verifier::external_body]
fn lowercase(s: &str) -> (r: String)
    ensures
        r@ == lower_of(s@),
{
    s.to_lowercase()
}

/// Character-wise equality of two strings.
pub fn str_eq(a: &str, b: &str) -> (r: bool)
    ensures
        r == (a@ == b@),
{
    let n = a.unicode_len();
    if n != b.unicode_len() {
        return false;
    }
    let mut i: usize = 0;
    while i < n
        invariant
            n == a@.len(),
            n == b@.len(),
            i <= n,
            a@.subrange(0, i as int) == b@.subrange(0, i as int),
        decreases n - i,
    {
        if a.get_char(i) != b.get_char(i) {
            assert(a@[i as int] != b@[i as int]);
            return false;
        }
        assert(a@.subrange(0, i + 1) =~= a@.subrange(0, i as int).push(a@[i as int]));
        assert(b@.subrange(0, i + 1) =~= b@.subrange(0, i as int).push(b@[i as int]));
        i = i + 1;
    }
    assert(a@ =~= a@.subrange(0, n as int));
    assert(b@ =~= b@.subrange(0, n as int));
    true
}

impl HpsdrHw {
    /// The lower-case name by which the variant is chosen.
    pub open spec fn spec_name(self) -> Seq<char> {
        match self {
            HpsdrHw::Atlas => "atlas"@,
            HpsdrHw::Hermes => "hermes"@,
            HpsdrHw::HermesII => "hermesii"@,
            HpsdrHw::Angelia => "angelia"@,
            HpsdrHw::Orion => "orion"@,
            HpsdrHw::OrionMkII => "orionmkii"@,
            HpsdrHw::HermesLite => "hermeslite"@,
            HpsdrHw::Saturn => "saturn"@,
            HpsdrHw::SaturnMkII => "saturnmkii"@,
        }
    }

    /// The variant whose lower-case name is exactly `s`.
    pub open spec fn named(s: Seq<char>) -> Option<HpsdrHw> {
        if s == "atlas"@ {
            Some(HpsdrHw::Atlas)
        } else if s == "hermes"@ {
            Some(HpsdrHw::Hermes)
        } else if s == "hermesii"@ {
            Some(HpsdrHw::HermesII)
        } else if s == "angelia"@ {
            Some(HpsdrHw::Angelia)
        } else if s == "orion"@ {
            Some(HpsdrHw::Orion)
        } else if s == "orionmkii"@ {
            Some(HpsdrHw::OrionMkII)
        } else if s == "hermeslite"@ {
            Some(HpsdrHw::HermesLite)
        } else if s == "saturn"@ {
            Some(HpsdrHw::Saturn)
        } else if s == "saturnmkii"@ {
            Some(HpsdrHw::SaturnMkII)
        } else {
            None
        }
    }

    /// Looks a variant up by its name, already in lower case.
    pub fn from_lowercase_name(name: &str) -> (r: Option<HpsdrHw>)
        ensures
            r == HpsdrHw::named(name@),
    {
        if str_eq(name, "atlas") {
            Some(HpsdrHw::Atlas)
        } else if str_eq(name, "hermes") {
            Some(HpsdrHw::Hermes)
        } else if str_eq(name, "hermesii") {
            Some(HpsdrHw::HermesII)
        } else if str_eq(name, "angelia") {
            Some(HpsdrHw::Angelia)
        } else if str_eq(name, "orion") {
            Some(HpsdrHw::Orion)
        } else if str_eq(name, "orionmkii") {
            Some(HpsdrHw::OrionMkII)
        } else if str_eq(name, "hermeslite") {
            Some(HpsdrHw::HermesLite)
        } else if str_eq(name, "saturn") {
            Some(HpsdrHw::Saturn)
        } else if str_eq(name, "saturnmkii") {
            Some(HpsdrHw::SaturnMkII)
        } else {
            None
        }
    }

    /// Looks a variant up by its name, in any case.
    pub fn from_name(name: &str) -> (r: Option<HpsdrHw>)
        ensures
            r == HpsdrHw::named(lower_of(name@)),
    {
        let lower = lowercase(name);
        HpsdrHw::from_lowercase_name(lower.as_str())
    }

    /// The names accepted by `from_name`, in declaration order.
    pub fn all_names() -> (r: &'static [&'static str])
        ensures
            r@.len() == 9,
            r@[0]@ == "atlas"@,
            r@[1]@ == "hermes"@,
            r@[2]@ == "hermesii"@,
            r@[3]@ == "angelia"@,
            r@[4]@ == "orion"@,
            r@[5]@ == "orionmkii"@,
            r@[6]@ == "hermeslite"@,
            r@[7]@ == "saturn"@,
            r@[8]@ == "saturnmkii"@,
    {
        &[
            "atlas",
            "hermes",
            "hermesii",
            "angelia",
            "orion",
            "orionmkii",
            "hermeslite",
            "saturn",
            "saturnmkii",
        ]
    }
}

/// The sample rate that a Protocol 1 rate code selects.
pub open spec fn rate_of_code(code: u8) -> Option<u32> {
    if code == 0 {
        Some(48000u32)
    } else if code == 1 {
        Some(96000u32)
    } else if code == 2 {
        Some(192000u32)
    } else if code == 3 {
        Some(384000u32)
    } else {
        None
    }
}

/// The rate code of a sample rate; rates outside the set map to 0.
pub open spec fn code_of_rate(rate: u32) -> u8 {
    if rate == 96000 {
        1
    } else if rate == 192000 {
        2
    } else if rate == 384000 {
        3
    } else {
        0
    }
}

pub fn sample_rate_to_code(rate: u32) -> (r: u8)
    ensures
        r == code_of_rate(rate),
{
    if rate == 48000 {
        0
    } else if rate == 96000 {
        1
    } else if rate == 192000 {
        2
    } else if rate == 384000 {
        3
    } else {
        0
    }
}

pub fn code_to_sample_rate(code: u8) -> (r: Option<u32>)
    ensures
        r == rate_of_code(code),
{
    if code == 0 {
        Some(48000)
    } else if code == 1 {
        Some(96000)
    } else if code == 2 {
        Some(192000)
    } else if code == 3 {
        Some(384000)
    } else {
        None
    }
}

/// Default firmware and board versions reported to the host.
pub const DEFAULT_VERSION: u8 = 25;

/// Default receive and transmit frequency, in Hz.
pub const DEFAULT_FREQUENCY: u32 = 7_074_000;

/// Per-stream sequence counters, keyed by stream name.
pub struct SeqCounters {
    names: Vec<String>,
    counters: Vec<u32>,
}

impl SeqCounters {
    /// The stream names, as character sequences.
    closed spec fn name_keys(&self) -> Seq<Seq<char>> {
        self.names@.map_values(|s: String| s@)
    }

    /// Each stream has one counter.
    pub closed spec fn wf(&self) -> bool {
        &&& self.names@.len() == self.counters@.len()
        &&& keys_unique(self.name_keys())
    }

    /// The next sequence number of each stream that has been used.
    pub closed spec fn numbers(&self) -> Map<Seq<char>, u32> {
        assoc(self.name_keys(), self.counters@)
    }

    /// The number that `next` hands out next for `stream`.
    pub open spec fn number_of(&self, stream: Seq<char>) -> u32 {
        if self.numbers().contains_key(stream) {
            self.numbers()[stream]
        } else {
            0
        }
    }

    pub fn new() -> (r: Self)
        ensures
            r.wf(),
            r.numbers() == Map::<Seq<char>, u32>::empty(),
    {
        let r = SeqCounters { names: Vec::new(), counters: Vec::new() };
        assert(r.name_keys() =~= Seq::<Seq<char>>::empty());
        r
    }

    /// Returns the current number of `stream` and advances it, wrapping
    /// modulo 2^32.
    pub fn next(&mut self, stream: &str) -> (r: u32)
        requires
            old(self).wf(),
        ensures
            final(self).wf(),
            r == old(self).number_of(stream@),
            final(self).numbers() == old(self).numbers().insert(stream@, r.wrapping_add(1)),
    {
        let n = self.names.len();
        let mut i: usize = 0;
        let ghost start = *self;
        while i < n
            invariant
                *self == start,
                start == *old(self),
                self.wf(),
                n == self.names@.len(),
                i <= n,
                forall|j: int| 0 <= j < i ==> self.name_keys()[j] != stream@,
            decreases n - i,
        {
            if str_eq(self.names[i].as_str(), stream) {
                let ghost keys = self.name_keys();
                let ghost vals = self.counters@;
                assert(keys[i as int] == stream@);
                proof {
                    lemma_assoc_at(keys, vals, i as int);
                    lemma_assoc_update(keys, vals, i as int, vals[i as int].wrapping_add(1));
                }
                let ret = self.counters[i];
                self.counters[i] = ret.wrapping_add(1);
                assert(self.name_keys() == keys);
                assert(self.counters@ == vals.update(i as int, ret.wrapping_add(1)));
                return ret;
            }
            assert(self.name_keys()[i as int] == self.names@[i as int]@);
            i = i + 1;
        }
        let ghost keys = self.name_keys();
        let ghost vals = self.counters@;
        proof {
            lemma_assoc_absent(keys, vals, stream@);
            lemma_assoc_push(keys, vals, stream@, 1u32);
        }
        self.names.push(String::from_str(stream));
        self.counters.push(1);
        assert(self.name_keys() =~= keys.push(stream@));
        assert(0u32.wrapping_add(1) == 1u32);
        0
    }
}

/// In-memory model of the emulated radio.
pub struct RadioState {
    pub hw: HpsdrHw,
    pub mac: [u8; 6],
    pub firmware_version: u8,
    pub mercury_versions: [u8; 4],
    pub penny_version: u8,
    pub metis_version: u8,
    pub sample_rate: u32,
    pub nddc: u8,
    pub rx_frequencies: [u32; 12],
    pub tx_frequency: u32,
    pub tx_drive: u8,
    pub running: bool,
    pub ptt: bool,
    pub seq: SeqCounters,
}

impl RadioState {
    pub open spec fn wf(&self) -> bool {
        self.seq.wf()
    }

    pub fn new(hw: HpsdrHw, mac: [u8; 6]) -> (r: Self)
        ensures
            r.wf(),
            r.hw == hw,
            r.mac == mac,
            r.firmware_version == DEFAULT_VERSION,
            r.mercury_versions@ == seq![DEFAULT_VERSION; 4],
            r.penny_version == DEFAULT_VERSION,
            r.metis_version == DEFAULT_VERSION,
            r.sample_rate == 48000,
            r.nddc == hw.spec_max_ddcs(),
            r.rx_frequencies@ == seq![DEFAULT_FREQUENCY; 12],
            r.tx_frequency == DEFAULT_FREQUENCY,
            r.tx_drive == 0,
            !r.running,
            !r.ptt,
            r.seq.numbers() == Map::<Seq<char>, u32>::empty(),
    {
        let r = RadioState {
            hw,
            mac,
            firmware_version: DEFAULT_VERSION,
            mercury_versions: [DEFAULT_VERSION; 4],
            penny_version: DEFAULT_VERSION,
            metis_version: DEFAULT_VERSION,
            sample_rate: 48000,
            nddc: hw.max_ddcs(),
            rx_frequencies: [DEFAULT_FREQUENCY; 12],
            tx_frequency: DEFAULT_FREQUENCY,
            tx_drive: 0,
            running: false,
            ptt: false,
            seq: SeqCounters::new(),
        };
        assert(r.mercury_versions@ =~= seq![DEFAULT_VERSION; 4]);
        assert(r.rx_frequencies@ =~= seq![DEFAULT_FREQUENCY; 12]);
        r
    }

    /// Returns the current sequence number of `stream` and advances it,
    /// wrapping modulo 2^32; no other field changes.
    pub fn next_seq(&mut self, stream: &str) -> (r: u32)
        requires
            old(self).wf(),
        ensures
            final(self).wf(),
            r == old(self).seq.number_of(stream@),
            final(self).seq.numbers() == old(self).seq.numbers().insert(stream@, r.wrapping_add(1)),
            final(self).hw == old(self).hw,
            final(self).mac == old(self).mac,
            final(self).firmware_version == old(self).firmware_version,
            final(self).mercury_versions == old(self).mercury_versions,
            final(self).penny_version == old(self).penny_version,
            final(self).metis_version == old(self).metis_version,
            final(self).sample_rate == old(self).sample_rate,
            final(self).nddc == old(self).nddc,
            final(self).rx_frequencies == old(self).rx_frequencies,
            final(self).tx_frequency == old(self).tx_frequency,
            final(self).tx_drive == old(self).tx_drive,
            final(self).running == old(self).running,
            final(self).ptt == old(self).ptt,
    {
        self.seq.next(stream)
    }
}

impl HpsdrHw {
    /// The upper-case name under which the variant is shown.
    pub open spec fn spec_display_name(self) -> Seq<char> {
        match self {
            HpsdrHw::Atlas => "ATLAS"@,
            HpsdrHw::Hermes => "HERMES"@,
            HpsdrHw::HermesII => "HERMESII"@,
            HpsdrHw::Angelia => "ANGELIA"@,
            HpsdrHw::Orion => "ORION"@,
            HpsdrHw::OrionMkII => "ORIONMKII"@,
            HpsdrHw::HermesLite => "HERMESLITE"@,
            HpsdrHw::Saturn => "SATURN"@,
            HpsdrHw::SaturnMkII => "SATURNMKII"@,
        }
    }

    /// The upper-case name under which the variant is shown.
    pub fn display_name(self) -> (r: &'static str)
        ensures
            r@ == self.spec_display_name(),
    {
        match self {
            HpsdrHw::Atlas => "ATLAS",
            HpsdrHw::Hermes => "HERMES",
            HpsdrHw::HermesII => "HERMESII",
            HpsdrHw::Angelia => "ANGELIA",
            HpsdrHw::Orion => "ORION",
            HpsdrHw::OrionMkII => "ORIONMKII",
            HpsdrHw::HermesLite => "HERMESLITE",
            HpsdrHw::Saturn => "SATURN",
            HpsdrHw::SaturnMkII => "SATURNMKII",
        }
    }
}

/// The lower-case hexadecimal digit of `n` < 16.
pub open spec fn hex_char(n: u8) -> char {
    if n < 10 {
        ((48 + n) as u8) as char
    } else {
        ((87 + n) as u8) as char
    }
}

/// Two lower-case hexadecimal digits of `b`.
pub open spec fn hex_pair(b: u8) -> Seq<char> {
    seq![hex_char(b / 16), hex_char(b % 16)]
}

/// The bytes of `m` as hexadecimal pairs joined by ':'.
pub open spec fn mac_text(m: Seq<u8>) -> Seq<char>
    decreases m.len(),
{
    if m.len() == 0 {
        Seq::empty()
    } else if m.len() == 1 {
        hex_pair(m[0])
    } else {
        mac_text(m.drop_last()) + seq![':'] + hex_pair(m.last())
    }
}

fn hex_digit(n: u8) -> (r: &'static str)
    requires
        n < 16,
    ensures
        r@ == seq![hex_char(n)],
{
    proof {
        reveal_strlit("0");
        reveal_strlit("1");
        reveal_strlit("2");
        reveal_strlit("3");
        reveal_strlit("4");
        reveal_strlit("5");
        reveal_strlit("6");
        reveal_strlit("7");
        reveal_strlit("8");
        reveal_strlit("9");
        reveal_strlit("a");
        reveal_strlit("b");
        reveal_strlit("c");
        reveal_strlit("d");
        reveal_strlit("e");
        reveal_strlit("f");
    }
    let r = match n {
        0 => "0",
        1 => "1",
        2 => "2",
        3 => "3",
        4 => "4",
        5 => "5",
        6 => "6",
        7 => "7",
        8 => "8",
        9 => "9",
        10 => "a",
        11 => "b",
        12 => "c",
        13 => "d",
        14 => "e",
        _ => "f",
    };
    assert(r@ =~= seq![hex_char(n)]);
    r
}

/// Whether `c` is an ASCII hexadecimal digit.
pub open spec fn is_hex_digit(c: char) -> bool {
    ('0' <= c && c <= '9') || ('a' <= c && c <= 'f') || ('A' <= c && c <= 'F')
}

/// The value of the hexadecimal digit `c`.
pub open spec fn hex_value(c: char) -> u8 {
    if '0' <= c && c <= '9' {
        (c as u32 - 48) as u8
    } else if 'a' <= c && c <= 'f' {
        (c as u32 - 87) as u8
    } else {
        (c as u32 - 55) as u8
    }
}

/// The values of the hexadecimal digits in `s`, in order; other characters
/// are skipped.
pub open spec fn hex_digits(s: Seq<char>) -> Seq<u8>
    decreases s.len(),
{
    if s.len() == 0 {
        Seq::empty()
    } else if is_hex_digit(s.last()) {
        hex_digits(s.drop_last()).push(hex_value(s.last()))
    } else {
        hex_digits(s.drop_last())
    }
}

/// The six bytes that twelve hexadecimal digit values spell.
pub open spec fn mac_of_digits(d: Seq<u8>) -> Seq<u8> {
    Seq::new(6, |k: int| (d[2 * k] * 16 + d[2 * k + 1]) as u8)
}

/// Parses a MAC written as twelve hexadecimal digits with any separators.
pub fn parse_mac(s: &str) -> (r: Option<[u8; 6]>)
    ensures
        r.is_some() == (hex_digits(s@).len() == 12),
        r matches Some(m) ==> m@ == mac_of_digits(hex_digits(s@)),
{
    let n = s.unicode_len();
    let mut digits: Vec<u8> = Vec::new();
    let mut i: usize = 0;
    while i < n
        invariant
            n == s@.len(),
            i <= n,
            digits@ == hex_digits(s@.take(i as int)),
            forall|k: int| 0 <= k < digits@.len() ==> #[trigger] digits@[k] < 16,
        decreases n - i,
    {
        let c = s.get_char(i);
        assert(s@.take(i + 1).drop_last() =~= s@.take(i as int));
        if '0' <= c && c <= '9' {
            digits.push((c as u32 - 48) as u8);
        } else if 'a' <= c && c <= 'f' {
            digits.push((c as u32 - 87) as u8);
        } else if 'A' <= c && c <= 'F' {
            digits.push((c as u32 - 55) as u8);
        }
        i = i + 1;
    }
    assert(s@.take(n as int) =~= s@);
    if digits.len() != 12 {
        return None;
    }
    let m: [u8; 6] = [
        digits[0] * 16 + digits[1],
        digits[2] * 16 + digits[3],
        digits[4] * 16 + digits[5],
        digits[6] * 16 + digits[7],
        digits[8] * 16 + digits[9],
        digits[10] * 16 + digits[11],
    ];
    assert(m@ =~= mac_of_digits(digits@));
    Some(m)
}

pub assume_specification<T>[ rand::random::<T> ]() -> (r: T)
    where
        rand::distributions::Standard: rand::distributions::Distribution<T>,
;

/// `mac` with its first byte marked locally administered and unicast.
pub fn locally_administered(mac: [u8; 6]) -> (r: [u8; 6])
    ensures
        r[0] == (mac[0] | 2) & 0xFE,
        r[0] & 3 == 2,
        forall|k: int| 1 <= k < 6 ==> r@[k] == mac@[k],
{
    let mut m = mac;
    let a = m[0];
    m[0] = (a | 2) & 0xFE;
    let b = m[0];
    assert((b & 3) == 2) by (bit_vector)
        requires
            b == (a | 2) & 0xFE,
    ;
    m
}

impl RadioState {
    /// A random locally administered unicast MAC.
    pub fn random_mac() -> (r: [u8; 6])
        ensures
            r[0] & 3 == 2,
    {
        let raw = rand::random::<[u8; 6]>();
        locally_administered(raw)
    }

    /// The MAC as six lower-case hexadecimal pairs joined by ':'.
    pub fn mac_string(&self) -> (r: String)
        ensures
            r@ == mac_text(self.mac@),
    {
        let mut out = String::new();
        let mut i: usize = 0;
        while i < 6
            invariant
                i <= 6,
                self.mac@.len() == 6,
                out@ == mac_text(self.mac@.take(i as int)),
            decreases 6 - i,
        {
            let b = self.mac[i];
            if i > 0 {
                out.append(":");
            }
            proof {
                reveal_strlit(":");
            }
            out.append(hex_digit(b / 16));
            out.append(hex_digit(b % 16));
            assert(self.mac@.take(i + 1).drop_last() =~= self.mac@.take(i as int));
            assert(i == 0 ==> self.mac@.take(i + 1).len() == 1);
            i = i + 1;
            assert(out@ =~= mac_text(self.mac@.take(i as int)));
        }
        assert(self.mac@.take(6) =~= self.mac@);
        out
    }
}

/// `names` joined by `sep`.
pub open spec fn joined(names: Seq<Seq<char>>, sep: Seq<char>) -> Seq<char>
    decreases names.len(),
{
    if names.len() == 0 {
        Seq::empty()
    } else if names.len() == 1 {
        names[0]
    } else {
        joined(names.drop_last(), sep) + sep + names.last()
    }
}

/// The message for an unknown radio name `s`, listing the valid names.
pub open spec fn unknown_radio_text(s: Seq<char>) -> Seq<char> {
    "unknown radio '"@ + s + "'. Valid: "@ + joined(
        seq![
            "atlas"@,
            "hermes"@,
            "hermesii"@,
            "angelia"@,
            "orion"@,
            "orionmkii"@,
            "hermeslite"@,
            "saturn"@,
            "saturnmkii"@,
        ],
        ", "@,
    )
}

/// Reads a radio name given by the user, in any case.
pub fn parse_radio(s: &str) -> (r: Result<HpsdrHw, String>)
    ensures
        match r {
            Ok(hw) => HpsdrHw::named(lower_of(s@)) == Some(hw),
            Err(msg) => HpsdrHw::named(lower_of(s@)) is None && msg@ == unknown_radio_text(s@),
        },
{
    match HpsdrHw::from_name(s) {
        Some(hw) => Ok(hw),
        None => {
            let names = HpsdrHw::all_names();
            let ghost all = seq![
                "atlas"@,
                "hermes"@,
                "hermesii"@,
                "angelia"@,
                "orion"@,
                "orionmkii"@,
                "hermeslite"@,
                "saturn"@,
                "saturnmkii"@,
            ];
            let mut msg = String::from_str("unknown radio '");
            msg.append(s);
            msg.append("'. Valid: ");
            let ghost prefix = msg@;
            let mut i: usize = 0;
            while i < names.len()
                invariant
                    names@.len() == 9,
                    all.len() == 9,
                    forall|k: int| 0 <= k < 9 ==> (#[trigger] names@[k])@ == all[k],
                    i <= 9,
                    msg@ == prefix + joined(all.take(i as int), ", "@),
                decreases 9 - i,
            {
                if i > 0 {
                    msg.append(", ");
                }
                msg.append(names[i]);
                assert(all.take(i + 1).drop_last() =~= all.take(i as int));
                assert(i == 0 ==> all.take(i + 1).len() == 1);
                i = i + 1;
                assert(msg@ =~= prefix + joined(all.take(i as int), ", "@));
            }
            assert(all.take(9) =~= all);
            Err(msg)
        },
    }
}

} // verus!
