//! The configuration of clients.
//!
//! It is read from a file of TOML, with one section for the server and one for the client, and
//! one of each for testing:
//!
//! ```toml
//! [server]
//! hostname = "127.0.0.1"
//! port = "5600"
//!
//! [client]
//! commit_interval = 10
//!
//! [server-testing]
//! hostname = "127.0.0.1"
//! port = "5666"
//!
//! [client-testing]
//! commit_interval = 5
//! ```
//!
//! Values that are missing from the file fall back to the ones above.

use vstd::prelude::*;

use crate::text::{join, parse_natural, trim};
#[allow(unused_imports)]
use crate::text::{natural_value, texts, trimmed};
#[allow(unused_imports)]
use vstd::arithmetic::div_mod::lemma_div_denominator;
#[allow(unused_imports)]
use vstd::arithmetic::power2::{
    lemma2_to64, lemma2_to64_rest, lemma_pow2_pos, lemma_pow2_strictly_increases,
    lemma_pow2_unfold, pow2,
};

verus! {

/// A number of seconds in double precision, by its bits.
#[derive(Debug, Clone, Copy)]
pub struct Seconds {
    pub bits: u64,
}

/// The bits of infinity in double precision. Those of finite numbers without a sign are less.
pub const INFINITY_BITS: u64 = 0x7ff0_0000_0000_0000;

/// The bits of a negative zero in double precision: that of the sign alone.
pub const NEGATIVE_ZERO_BITS: u64 = 0x8000_0000_0000_0000;

/// How far the bits of a number in double precision are from those of its double. Below them
/// stand the digits of the number after the first.
pub const DOUBLING: u64 = 0x0010_0000_0000_0000;

/// The exponent of the numbers in double precision from which on all of them are whole.
pub const WHOLE_EXPONENT: u64 = 1075;

/// Whether the number is finite and not negative.
pub open spec fn finite_and_not_negative(seconds: Seconds) -> bool {
    seconds.bits < INFINITY_BITS || seconds.bits == NEGATIVE_ZERO_BITS
}

/// The bits of a number without those of its sign.
pub open spec fn magnitude(bits: u64) -> int {
    if bits >= NEGATIVE_ZERO_BITS {
        bits - NEGATIVE_ZERO_BITS
    } else {
        bits as int
    }
}

/// Whether two numbers in double precision are equal. Both zeros are, and what is not a number
/// is equal to nothing.
pub open spec fn same_number(a: Seconds, b: Seconds) -> bool {
    (a.bits == b.bits && magnitude(a.bits) <= INFINITY_BITS) || (magnitude(a.bits) == 0
        && magnitude(b.bits) == 0)
}

impl PartialEq for Seconds {
    fn eq(&self, other: &Seconds) -> (same: bool) {
        let a: u64 = if self.bits >= NEGATIVE_ZERO_BITS {
            self.bits - NEGATIVE_ZERO_BITS
        } else {
            self.bits
        };
        let b: u64 = if other.bits >= NEGATIVE_ZERO_BITS {
            other.bits - NEGATIVE_ZERO_BITS
        } else {
            other.bits
        };
        (self.bits == other.bits && a <= INFINITY_BITS) || (a == 0 && b == 0)
    }
}

impl vstd::std_specs::cmp::PartialEqSpecImpl for Seconds {
    open spec fn obeys_eq_spec() -> bool {
        true
    }

    open spec fn eq_spec(&self, other: &Seconds) -> bool {
        same_number(*self, *other)
    }
}

/// How many binary digits of a whole number are too many for double precision, which holds 53.
pub open spec fn excess_digits(n: nat) -> nat
    decreases n,
{
    if n < 2 * DOUBLING {
        0
    } else {
        1 + excess_digits(n / 2)
    }
}

/// How often a unit goes into a number, to the nearest whole; halfway between two, the even one.
pub open spec fn rounded_quotient(n: nat, unit: nat) -> nat {
    let quotient = n / unit;
    let twice = 2 * (n % unit);
    if twice > unit || (twice == unit && quotient % 2 == 1) {
        quotient + 1
    } else {
        quotient
    }
}

/// The bits of the number in double precision that is nearest to a whole number; halfway between
/// two, of the one with an even last digit.
pub open spec fn nearest_bits(n: nat) -> int
    decreases
            (if n < DOUBLING {
                DOUBLING - n
            } else {
                0
            }),
{
    if n == 0 {
        0
    } else if n < DOUBLING {
        nearest_bits(2 * n) - DOUBLING
    } else {
        let excess = excess_digits(n);
        (WHOLE_EXPONENT + excess) * DOUBLING + (rounded_quotient(n, pow2(excess)) - DOUBLING)
    }
}

proof fn lemma_nearest_bits_bounds(n: nat, doublings: nat)
    requires
        0 < n < DOUBLING,
        doublings <= 52,
        n * pow2(doublings) < 2 * DOUBLING,
        n * pow2(doublings) >= DOUBLING,
    ensures
        nearest_bits(n) == nearest_bits(n * pow2(doublings)) - doublings * DOUBLING,
    decreases doublings,
{
    lemma2_to64();
    if doublings == 0 {
        assert(n * pow2(0) == n);
    } else {
        lemma_pow2_unfold(doublings);
        let fewer = (doublings - 1) as nat;
        assert(n * pow2(doublings) == (2 * n) * pow2(fewer)) by (nonlinear_arith)
            requires
                pow2(doublings) == 2 * pow2(fewer),
        ;
        if 2 * n < DOUBLING {
            lemma_nearest_bits_bounds(2 * n, fewer);
        } else {
            assert(fewer == 0) by {
                if fewer > 0 {
                    lemma_pow2_unfold(fewer);
                    lemma_pow2_pos((fewer - 1) as nat);
                    assert((2 * n) * pow2(fewer) >= 2 * DOUBLING) by (nonlinear_arith)
                        requires
                            2 * n >= DOUBLING,
                            pow2(fewer) >= 2,
                    ;
                }
            }
            assert((2 * n) * pow2(0) == 2 * n);
        }
    }
}

proof fn lemma_excess_digits(n: nat)
    requires
        n >= DOUBLING,
    ensures
        DOUBLING <= n / pow2(excess_digits(n)) < 2 * DOUBLING,
        DOUBLING * pow2(excess_digits(n)) <= n,
    decreases n,
{
    lemma2_to64();
    if n >= 2 * DOUBLING {
        lemma_excess_digits(n / 2);
        let fewer = excess_digits(n / 2);
        lemma_pow2_unfold(fewer + 1);
        lemma_pow2_pos(fewer);
        lemma_div_denominator(n as int, 2, pow2(fewer) as int);
        assert(DOUBLING * pow2(fewer + 1) == 2 * (DOUBLING * pow2(fewer))) by (nonlinear_arith)
            requires
                pow2(fewer + 1) == 2 * pow2(fewer),
        ;
    } else {
        assert(n / 1 == n);
    }
}

proof fn lemma_nearest_bits_finite(n: nat, doublings: nat)
    requires
        0 < n <= i64::MAX,
        doublings <= 52,
        DOUBLING <= n * pow2(doublings),
    ensures
        (WHOLE_EXPONENT - doublings) * DOUBLING <= nearest_bits(n) < INFINITY_BITS,
    decreases doublings,
{
    lemma2_to64();
    if n < DOUBLING {
        assert(doublings > 0) by {
            if doublings == 0 {
                assert(n * pow2(0) == n);
            }
        }
        lemma_pow2_unfold(doublings);
        let fewer = (doublings - 1) as nat;
        assert(n * pow2(doublings) == (2 * n) * pow2(fewer)) by (nonlinear_arith)
            requires
                pow2(doublings) == 2 * pow2(fewer),
        ;
        lemma_nearest_bits_finite(2 * n, fewer);
    } else {
        let excess = excess_digits(n);
        lemma_excess_digits(n);
        assert(excess <= 10) by {
            if excess > 10 {
                if excess > 11 {
                    lemma_pow2_strictly_increases(11, excess);
                }
                assert(DOUBLING * pow2(excess) >= DOUBLING * 2048) by (nonlinear_arith)
                    requires
                        pow2(excess) >= 2048,
                ;
            }
        }
        assert((WHOLE_EXPONENT - doublings) * DOUBLING <= (WHOLE_EXPONENT + excess) * DOUBLING
            <= 1085 * DOUBLING) by (nonlinear_arith)
            requires
                doublings >= 0,
                0 <= excess <= 10,
                WHOLE_EXPONENT == 1075,
        ;
    }
}

/// A whole number of seconds is finite and not negative in double precision.
proof fn lemma_whole_seconds(n: nat)
    requires
        n <= i64::MAX,
    ensures
        0 <= nearest_bits(n) < INFINITY_BITS,
        finite_and_not_negative(whole_seconds(n)),
{
    lemma2_to64_rest();
    if n > 0 {
        assert(n * pow2(52) >= DOUBLING) by (nonlinear_arith)
            requires
                n >= 1,
                pow2(52) == DOUBLING,
        ;
        lemma_nearest_bits_finite(n, 52);
    }
}

impl Seconds {
    /// The number in double precision that is nearest to a whole number.
    pub fn whole(n: u64) -> (seconds: Seconds)
        requires
            n <= i64::MAX,
        ensures
            seconds.bits == nearest_bits(n as nat),
            seconds.bits < INFINITY_BITS,
    {
        proof {
            lemma2_to64();
        }
        if n == 0 {
            return Seconds { bits: 0 };
        }
        if n < DOUBLING {
            let mut digits: u64 = n;
            let mut exponent: u64 = WHOLE_EXPONENT;
            let ghost mut doublings: nat = 0;
            while digits < DOUBLING
                invariant
                    0 < n < DOUBLING,
                    digits == n * pow2(doublings),
                    n <= digits < 2 * DOUBLING,
                    exponent + doublings == WHOLE_EXPONENT,
                    doublings <= 52,
                    pow2(doublings) <= digits,
                decreases 2 * DOUBLING - digits,
            {
                proof {
                    lemma_pow2_unfold(doublings + 1);
                    lemma2_to64();
                    assert(n * pow2(doublings + 1) == 2 * (n * pow2(doublings)))
                        by (nonlinear_arith)
                        requires
                            pow2(doublings + 1) == 2 * pow2(doublings),
                    ;
                    lemma2_to64_rest();
                    assert(doublings < 52) by {
                        if doublings == 52 {
                            assert(pow2(52) == DOUBLING);
                        }
                    }
                    doublings = doublings + 1;
                }
                digits = digits * 2;
                exponent = exponent - 1;
            }
            proof {
                lemma_nearest_bits_bounds(n as nat, doublings);
                assert(excess_digits(digits as nat) == 0);
                assert(rounded_quotient(digits as nat, 1) == digits);
                assert(pow2(0) == 1) by {
                    lemma2_to64();
                }
                assert(nearest_bits(digits as nat) == WHOLE_EXPONENT * DOUBLING + (digits
                    - DOUBLING));
            }
            return Seconds { bits: exponent * DOUBLING + (digits - DOUBLING) };
        }
        let mut unit: u64 = 1;
        let mut quotient: u64 = n;
        let mut excess: u64 = 0;
        proof {
            assert(n as nat / 1 == n);
        }
        while quotient >= 2 * DOUBLING
            invariant
                n <= i64::MAX,
                excess <= 10,
                unit == pow2(excess as nat),
                1 <= unit <= 1024,
                quotient == n / unit,
                quotient * unit <= n,
                quotient >= DOUBLING,
                excess_digits(n as nat) == excess + excess_digits(quotient as nat),
            decreases quotient,
        {
            proof {
                lemma_pow2_unfold(excess as nat + 1);
                lemma2_to64();
                assert(n as int / (unit * 2) == (n as int / unit as int) / 2) by {
                    lemma_div_denominator(n as int, unit as int, 2);
                }
                assert(excess < 10) by {
                    if excess == 10 {
                        assert(unit == 1024);
                        assert(quotient * unit >= 2 * DOUBLING * 1024) by (nonlinear_arith)
                            requires
                                quotient >= 2 * DOUBLING,
                                unit == 1024,
                        ;
                    }
                }
                assert((quotient / 2) * (unit * 2) <= quotient * unit) by (nonlinear_arith)
                    requires
                        quotient >= 0,
                        unit >= 1,
                ;
                assert(unit <= 512) by {
                    if unit > 512 {
                        assert(quotient * unit > 2 * DOUBLING * 512) by (nonlinear_arith)
                            requires
                                quotient >= 2 * DOUBLING,
                                unit > 512,
                        ;
                    }
                }
            }
            unit = unit * 2;
            quotient = quotient / 2;
            excess = excess + 1;
        }
        let rest: u64 = n % unit;
        let digits: u64 = if 2 * rest > unit || (2 * rest == unit && quotient % 2 == 1) {
            quotient + 1
        } else {
            quotient
        };
        Seconds { bits: (WHOLE_EXPONENT + excess) * DOUBLING + (digits - DOUBLING) }
    }
}

/// The configuration of a client.
#[derive(Debug)]
pub struct ClientConfig {
    pub hostname: String,
    pub port: u16,
    /// How long a merged heartbeat may grow before it is sent. Finite, and not negative.
    pub commit_interval: Seconds,
}

/// What a [`ClientConfig`] stands for.
#[verifier::ext_equal]
pub struct ClientConfigView {
    pub hostname: Seq<char>,
    pub port: u16,
    pub commit_interval: Seconds,
}

impl View for ClientConfig {
    type V = ClientConfigView;

    open spec fn view(&self) -> ClientConfigView {
        ClientConfigView {
            hostname: self.hostname@,
            port: self.port,
            commit_interval: self.commit_interval,
        }
    }
}

impl PartialEq for ClientConfig {
    fn eq(&self, other: &ClientConfig) -> (same: bool) {
        self.hostname == other.hostname && self.port == other.port && self.commit_interval
            == other.commit_interval
    }
}

impl vstd::std_specs::cmp::PartialEqSpecImpl for ClientConfig {
    open spec fn obeys_eq_spec() -> bool {
        true
    }

    open spec fn eq_spec(&self, other: &ClientConfig) -> bool {
        &&& self@.hostname == other@.hostname
        &&& self@.port == other@.port
        &&& same_number(self@.commit_interval, other@.commit_interval)
    }
}

/// The whole number of seconds in double precision.
pub open spec fn whole_seconds(n: nat) -> Seconds {
    Seconds { bits: nearest_bits(n) as u64 }
}

/// The configuration for what the file does not set.
pub open spec fn default_config(testing: bool) -> ClientConfigView {
    ClientConfigView {
        hostname: "127.0.0.1"@,
        port: if testing {
            5666
        } else {
            5600
        },
        commit_interval: whole_seconds(
            if testing {
                5
            } else {
                10
            },
        ),
    }
}

impl ClientConfig {
    /// The configuration for what the file does not set.
    pub fn default_for(testing: bool) -> (config: ClientConfig)
        ensures
            config@ == default_config(testing),
            finite_and_not_negative(config.commit_interval),
    {
        ClientConfig {
            hostname: "127.0.0.1".to_string(),
            port: if testing {
                5666
            } else {
                5600
            },
            commit_interval: Seconds::whole(
                if testing {
                    5
                } else {
                    10
                },
            ),
        }
    }
}

/// A value in a section of a file of TOML.
#[derive(Debug)]
pub enum TomlValue {
    Text(String),
    Integer(i64),
    /// A number with a fraction, by its bits in double precision.
    Fraction(u64),
    /// A value of any other type.
    Other,
}

/// What stands under a name in a file of TOML.
#[derive(Debug)]
pub enum TomlSection {
    /// A section: names with their values.
    Table(Vec<(String, TomlValue)>),
    /// Something else.
    NotATable,
}

/// What a [`TomlValue`] stands for.
pub enum TomlValueView {
    Text(Seq<char>),
    Integer(i64),
    Fraction(u64),
    Other,
}

/// What a [`TomlSection`] stands for.
pub enum TomlSectionView {
    Table(Seq<(Seq<char>, TomlValueView)>),
    NotATable,
}

impl View for TomlValue {
    type V = TomlValueView;

    open spec fn view(&self) -> TomlValueView {
        match self {
            TomlValue::Text(text) => TomlValueView::Text(text@),
            TomlValue::Integer(n) => TomlValueView::Integer(*n),
            TomlValue::Fraction(bits) => TomlValueView::Fraction(*bits),
            TomlValue::Other => TomlValueView::Other,
        }
    }
}

/// What the values of a section stand for.
pub open spec fn value_views(values: Seq<(String, TomlValue)>) -> Seq<(Seq<char>, TomlValueView)> {
    values.map_values(|v: (String, TomlValue)| (v.0@, v.1@))
}

impl View for TomlSection {
    type V = TomlSectionView;

    open spec fn view(&self) -> TomlSectionView {
        match self {
            TomlSection::Table(values) => TomlSectionView::Table(value_views(values@)),
            TomlSection::NotATable => TomlSectionView::NotATable,
        }
    }
}

/// What the sections of a file stand for.
pub open spec fn section_views(sections: Seq<(String, TomlSection)>) -> Seq<
    (Seq<char>, TomlSectionView),
> {
    sections.map_values(|s: (String, TomlSection)| (s.0@, s.1@))
}

/// What a file stands for, or why it cannot be read.
pub open spec fn file_view(file: Result<Vec<(String, TomlSection)>, String>) -> Result<
    Seq<(Seq<char>, TomlSectionView)>,
    Seq<char>,
> {
    match file {
        Ok(sections) => Ok(section_views(sections@)),
        Err(reason) => Err(reason@),
    }
}

/// What a text holds if it is parsed as a `toml::Table`, or why it is none.
pub uninterp spec fn toml_table(raw: Seq<char>) -> Result<
    Seq<(Seq<char>, TomlSectionView)>,
    Seq<char>,
>;

/// Parses a text as a `toml::Table`. The result is what that gives, name by name: the values of
/// each table in it, by their types, and that anything else in it is none.
#[verifier::external_body]
fn read_table(raw: &str) -> (file: Result<Vec<(String, TomlSection)>, String>)
    ensures
        file_view(file) == toml_table(raw@),
{
    let table = raw.parse::<toml::Table>().map_err(|error| error.to_string())?;
    let value_of = |value| match value {
        toml::Value::String(text) => TomlValue::Text(text),
        toml::Value::Integer(n) => TomlValue::Integer(n),
        toml::Value::Float(n) => TomlValue::Fraction(n.to_bits()),
        _ => TomlValue::Other,
    };
    let section_of = |section| match section {
        toml::Value::Table(values) => TomlSection::Table(
            values.into_iter().map(|(key, value)| (key, value_of(value))).collect(),
        ),
        _ => TomlSection::NotATable,
    };
    Ok(table.into_iter().map(|(name, section)| (name, section_of(section))).collect())
}

/// What a file of TOML says of a key of a section.
#[derive(Debug)]
pub enum TomlEntry {
    /// There is no such section.
    NoSection,
    /// What has the name of the section is not a table.
    NotATable,
    /// The section has no such key.
    NoKey,
    Text(String),
    Integer(i64),
    /// A number with a fraction, by its bits in double precision.
    Fraction(u64),
    /// A value of any other type.
    Other,
}

/// What a [`TomlEntry`] stands for.
pub enum TomlEntryView {
    NoSection,
    NotATable,
    NoKey,
    Text(Seq<char>),
    Integer(i64),
    Fraction(u64),
    Other,
}

impl View for TomlEntry {
    type V = TomlEntryView;

    open spec fn view(&self) -> TomlEntryView {
        match self {
            TomlEntry::NoSection => TomlEntryView::NoSection,
            TomlEntry::NotATable => TomlEntryView::NotATable,
            TomlEntry::NoKey => TomlEntryView::NoKey,
            TomlEntry::Text(text) => TomlEntryView::Text(text@),
            TomlEntry::Integer(n) => TomlEntryView::Integer(*n),
            TomlEntry::Fraction(bits) => TomlEntryView::Fraction(*bits),
            TomlEntry::Other => TomlEntryView::Other,
        }
    }
}

/// What stands under a name, if anything does.
pub open spec fn named<T>(entries: Seq<(Seq<char>, T)>, name: Seq<char>) -> Option<T>
    decreases entries.len(),
{
    if entries.len() == 0 {
        None
    } else if entries.last().0 == name {
        Some(entries.last().1)
    } else {
        named(entries.drop_last(), name)
    }
}

/// What a file says of a key of a section.
pub open spec fn entry_of(
    file: Seq<(Seq<char>, TomlSectionView)>,
    section: Seq<char>,
    key: Seq<char>,
) -> TomlEntryView {
    match named(file, section) {
        None => TomlEntryView::NoSection,
        Some(TomlSectionView::NotATable) => TomlEntryView::NotATable,
        Some(TomlSectionView::Table(values)) => match named(values, key) {
            None => TomlEntryView::NoKey,
            Some(TomlValueView::Text(text)) => TomlEntryView::Text(text),
            Some(TomlValueView::Integer(n)) => TomlEntryView::Integer(n),
            Some(TomlValueView::Fraction(bits)) => TomlEntryView::Fraction(bits),
            Some(TomlValueView::Other) => TomlEntryView::Other,
        },
    }
}

fn find_value<'a>(values: &'a Vec<(String, TomlValue)>, key: &str) -> (found: Option<&'a TomlValue>)
    ensures
        match found {
            Some(value) => named(value_views(values@), key@) == Some(value@),
            None => named(value_views(values@), key@) is None,
        },
{
    let wanted = key.to_string();
    let ghost all = value_views(values@);
    let mut i: usize = values.len();
    assert(all.take(i as int) =~= all);
    while i > 0
        invariant
            i <= values.len(),
            wanted@ == key@,
            all == value_views(values@),
            named(all, key@) == named(all.take(i as int), key@),
        decreases i,
    {
        i -= 1;
        proof {
            assert(all.take(i + 1).drop_last() =~= all.take(i as int));
            assert(all.take(i + 1).last() == (values@[i as int].0@, values@[i as int].1@));
        }
        if values[i].0 == wanted {
            return Some(&values[i].1);
        }
    }
    None
}

fn find_section<'a>(file: &'a Vec<(String, TomlSection)>, name: &str) -> (found: Option<
    &'a TomlSection,
>)
    ensures
        match found {
            Some(section) => named(section_views(file@), name@) == Some(section@),
            None => named(section_views(file@), name@) is None,
        },
{
    let wanted = name.to_string();
    let ghost all = section_views(file@);
    let mut i: usize = file.len();
    assert(all.take(i as int) =~= all);
    while i > 0
        invariant
            i <= file.len(),
            wanted@ == name@,
            all == section_views(file@),
            named(all, name@) == named(all.take(i as int), name@),
        decreases i,
    {
        i -= 1;
        proof {
            assert(all.take(i + 1).drop_last() =~= all.take(i as int));
            assert(all.take(i + 1).last() == (file@[i as int].0@, file@[i as int].1@));
        }
        if file[i].0 == wanted {
            return Some(&file[i].1);
        }
    }
    None
}

/// What a file says of a key of a section.
fn look_up(file: &Vec<(String, TomlSection)>, section: &str, key: &str) -> (entry: TomlEntry)
    ensures
        entry@ == entry_of(section_views(file@), section@, key@),
{
    match find_section(file, section) {
        None => TomlEntry::NoSection,
        Some(TomlSection::NotATable) => TomlEntry::NotATable,
        Some(TomlSection::Table(values)) => match find_value(values, key) {
            None => TomlEntry::NoKey,
            Some(TomlValue::Text(text)) => TomlEntry::Text(text.clone()),
            Some(TomlValue::Integer(n)) => TomlEntry::Integer(*n),
            Some(TomlValue::Fraction(bits)) => TomlEntry::Fraction(*bits),
            Some(TomlValue::Other) => TomlEntry::Other,
        },
    }
}

/// The name of the section for the server.
pub open spec fn server_section(testing: bool) -> Seq<char> {
    if testing {
        "server-testing"@
    } else {
        "server"@
    }
}

/// The name of the section for the client.
pub open spec fn client_section(testing: bool) -> Seq<char> {
    if testing {
        "client-testing"@
    } else {
        "client"@
    }
}

/// What is wrong with a section.
pub open spec fn complaint(section: Seq<char>, what: Seq<char>) -> Seq<char> {
    "["@ + section + "]"@ + what
}

/// The name of the host, as the file gives it.
pub open spec fn hostname_of(entry: TomlEntryView, testing: bool) -> Result<Seq<char>, Seq<char>> {
    match entry {
        TomlEntryView::NotATable => Err(complaint(server_section(testing), " must be a table"@)),
        TomlEntryView::NoSection | TomlEntryView::NoKey => Ok(default_config(testing).hostname),
        TomlEntryView::Text(text) => Ok(text),
        _ => Err(complaint(server_section(testing), " hostname must be a string"@)),
    }
}

/// The port, as the file gives it: a number, or a text that holds one.
pub open spec fn port_of(entry: TomlEntryView, testing: bool) -> Result<int, Seq<char>> {
    let wrong = complaint(server_section(testing), " port must be a port number"@);
    match entry {
        TomlEntryView::NotATable => Err(complaint(server_section(testing), " must be a table"@)),
        TomlEntryView::NoSection | TomlEntryView::NoKey => Ok(default_config(testing).port as int),
        TomlEntryView::Text(text) => match natural_value(trimmed(text), 65535) {
            Some(port) => Ok(port as int),
            None => Err(wrong),
        },
        TomlEntryView::Integer(n) => if 0 <= n <= 65535 {
            Ok(n as int)
        } else {
            Err(wrong)
        },
        _ => Err(wrong),
    }
}

/// The commit interval, as the file gives it. It has to be finite and may not be negative.
pub open spec fn interval_of(entry: TomlEntryView, testing: bool) -> Result<Seconds, Seq<char>> {
    let negative = complaint(
        client_section(testing),
        " commit_interval must be a non-negative number of seconds"@,
    );
    match entry {
        TomlEntryView::NotATable => Err(complaint(client_section(testing), " must be a table"@)),
        TomlEntryView::NoSection | TomlEntryView::NoKey => Ok(
            default_config(testing).commit_interval,
        ),
        TomlEntryView::Integer(n) => if n >= 0 {
            Ok(whole_seconds(n as nat))
        } else {
            Err(negative)
        },
        TomlEntryView::Fraction(bits) => if finite_and_not_negative(Seconds { bits }) {
            Ok(Seconds { bits })
        } else {
            Err(negative)
        },
        _ => Err(complaint(client_section(testing), " commit_interval must be a number"@)),
    }
}

/// The configuration that the entries of a file make up, or what is wrong with the first of
/// them that is.
pub open spec fn config_of(
    hostname: TomlEntryView,
    port: TomlEntryView,
    interval: TomlEntryView,
    testing: bool,
) -> Result<ClientConfigView, Seq<char>> {
    match hostname_of(hostname, testing) {
        Err(reason) => Err(reason),
        Ok(hostname) => match port_of(port, testing) {
            Err(reason) => Err(reason),
            Ok(port) => match interval_of(interval, testing) {
                Err(reason) => Err(reason),
                Ok(commit_interval) => Ok(
                    ClientConfigView { hostname, port: port as u16, commit_interval },
                ),
            },
        },
    }
}

/// Whether the file does not set the entry.
pub open spec fn is_unset(entry: TomlEntryView) -> bool {
    entry is NoSection || entry is NoKey
}

/// What the file does not set keeps its default, whatever else it sets, and a file that sets
/// nothing gives the defaults. A configuration holds a commit interval that is finite and not
/// negative.
pub proof fn law_unset_values_keep_their_defaults(
    hostname: TomlEntryView,
    port: TomlEntryView,
    interval: TomlEntryView,
    testing: bool,
)
    ensures
        is_unset(hostname) && is_unset(port) && is_unset(interval) ==> config_of(
            hostname,
            port,
            interval,
            testing,
        ) == Ok::<ClientConfigView, Seq<char>>(default_config(testing)),
        config_of(hostname, port, interval, testing) matches Ok(config) ==> {
            &&& is_unset(hostname) ==> config.hostname == default_config(testing).hostname
            &&& is_unset(port) ==> config.port == default_config(testing).port
            &&& is_unset(interval) ==> config.commit_interval == default_config(
                testing,
            ).commit_interval
            &&& finite_and_not_negative(config.commit_interval)
        },
{
    lemma_whole_seconds(5);
    lemma_whole_seconds(10);
    if let TomlEntryView::Integer(n) = interval {
        if n >= 0 {
            lemma_whole_seconds(n as nat);
        }
    }
}

/// What a configuration, or the reason why there is none, stands for.
pub open spec fn config_view(config: Result<ClientConfig, String>) -> Result<
    ClientConfigView,
    Seq<char>,
> {
    match config {
        Ok(config) => Ok(config@),
        Err(reason) => Err(reason@),
    }
}

fn complain(section: &str, what: &str) -> (text: String)
    ensures
        text@ == complaint(section@, what@),
{
    let mut text = join("[", section);
    text.append("]");
    text.append(what);
    text
}

/// The configuration that the entries of a file make up. What they do not set keeps its
/// default.
pub fn config_from_entries(
    hostname: TomlEntry,
    port: TomlEntry,
    interval: TomlEntry,
    testing: bool,
) -> (r: Result<ClientConfig, String>)
    ensures
        config_view(r) == config_of(hostname@, port@, interval@, testing),
        r matches Ok(config) ==> finite_and_not_negative(config.commit_interval),
{
    let server: &str = if testing {
        "server-testing"
    } else {
        "server"
    };
    let client: &str = if testing {
        "client-testing"
    } else {
        "client"
    };
    let mut config = ClientConfig::default_for(testing);
    match hostname {
        TomlEntry::NotATable => {
            return Err(complain(server, " must be a table"));
        },
        TomlEntry::NoSection | TomlEntry::NoKey => {},
        TomlEntry::Text(text) => {
            config.hostname = text;
        },
        _ => {
            return Err(complain(server, " hostname must be a string"));
        },
    }
    match port {
        TomlEntry::NotATable => {
            return Err(complain(server, " must be a table"));
        },
        TomlEntry::NoSection | TomlEntry::NoKey => {},
        TomlEntry::Text(text) => {
            let number = trim(text.as_str());
            match parse_natural(number.as_str(), 65535) {
                Some(n) => {
                    config.port = n as u16;
                },
                None => {
                    return Err(complain(server, " port must be a port number"));
                },
            }
        },
        TomlEntry::Integer(n) => {
            if 0 <= n && n <= 65535 {
                config.port = n as u16;
            } else {
                return Err(complain(server, " port must be a port number"));
            }
        },
        _ => {
            return Err(complain(server, " port must be a port number"));
        },
    }
    match interval {
        TomlEntry::NotATable => {
            return Err(complain(client, " must be a table"));
        },
        TomlEntry::NoSection | TomlEntry::NoKey => {},
        TomlEntry::Integer(n) => {
            // Zero is allowed: every merged heartbeat is sent right away then.
            if n < 0 {
                return Err(
                    complain(client, " commit_interval must be a non-negative number of seconds"),
                );
            }
            config.commit_interval = Seconds::whole(n as u64);
        },
        TomlEntry::Fraction(bits) => {
            if bits >= INFINITY_BITS && bits != NEGATIVE_ZERO_BITS {
                return Err(
                    complain(client, " commit_interval must be a non-negative number of seconds"),
                );
            }
            config.commit_interval = Seconds { bits };
        },
        _ => {
            return Err(complain(client, " commit_interval must be a number"));
        },
    }
    Ok(config)
}

/// The configuration in a file, for testing or not, or what is wrong with it.
pub open spec fn file_config(
    file: Result<Seq<(Seq<char>, TomlSectionView)>, Seq<char>>,
    testing: bool,
) -> Result<ClientConfigView, Seq<char>> {
    match file {
        Err(reason) => Err(reason),
        Ok(file) => config_of(
            entry_of(file, server_section(testing), "hostname"@),
            entry_of(file, server_section(testing), "port"@),
            entry_of(file, client_section(testing), "commit_interval"@),
            testing,
        ),
    }
}

/// The configuration in a text, for testing or not.
pub open spec fn parsed_config(raw: Seq<char>, testing: bool) -> Result<ClientConfigView, Seq<char>> {
    file_config(toml_table(raw), testing)
}

/// The configuration in a file, for testing or not. What the file does not set keeps its default.
pub fn config_from_file(file: Result<Vec<(String, TomlSection)>, String>, testing: bool) -> (r:
    Result<ClientConfig, String>)
    ensures
        config_view(r) == file_config(file_view(file), testing),
        r matches Ok(config) ==> finite_and_not_negative(config.commit_interval),
{
    let file = match file {
        Ok(file) => file,
        Err(reason) => {
            return Err(reason);
        },
    };
    let server: &str = if testing {
        "server-testing"
    } else {
        "server"
    };
    let client: &str = if testing {
        "client-testing"
    } else {
        "client"
    };
    let hostname = look_up(&file, server, "hostname");
    let port = look_up(&file, server, "port");
    let interval = look_up(&file, client, "commit_interval");
    config_from_entries(hostname, port, interval, testing)
}

/// Reads the configuration in a text, for testing or not. What the text does not set keeps its
/// default.
pub fn parse_config(raw: &str, testing: bool) -> (r: Result<ClientConfig, String>)
    ensures
        config_view(r) == parsed_config(raw@, testing),
        r matches Ok(config) ==> finite_and_not_negative(config.commit_interval),
{
    config_from_file(read_table(raw), testing)
}

/// The configuration in a text, or the default if there is no text or it cannot be read, so
/// that a broken configuration never keeps a watcher from starting.
pub fn load_config(raw: Option<&str>, testing: bool) -> (config: ClientConfig)
    ensures
        config@ == match raw {
            None => default_config(testing),
            Some(raw) => match parsed_config(raw@, testing) {
                Ok(config) => config,
                Err(_) => default_config(testing),
            },
        },
        finite_and_not_negative(config.commit_interval),
{
    match raw {
        None => ClientConfig::default_for(testing),
        Some(raw) => match parse_config(raw, testing) {
            Ok(config) => config,
            Err(_) => ClientConfig::default_for(testing),
        },
    }
}

/// The configuration file: the names that lead to it from the directory for configurations. On
/// Windows that is the one for the local data of applications.
pub fn config_path(windows: bool) -> (path: Vec<String>)
    ensures
        texts(path@) == (if windows {
            seq!["activitywatch"@, "activitywatch"@]
        } else {
            seq!["activitywatch"@]
        }) + seq!["aw-client"@, "aw-client.toml"@],
{
    let mut path: Vec<String> = Vec::new();
    path.push("activitywatch".to_string());
    if windows {
        path.push("activitywatch".to_string());
    }
    path.push("aw-client".to_string());
    path.push("aw-client.toml".to_string());
    proof {
        assert(texts(path@) =~= (if windows {
            seq!["activitywatch"@, "activitywatch"@]
        } else {
            seq!["activitywatch"@]
        }) + seq!["aw-client"@, "aw-client.toml"@]);
    }
    path
}

/// What the file sets is taken: a text for the host as it stands, a number from 0 to 65535 for the
/// port, or a text that holds one, and for the commit interval a number that is not negative. With
/// anything else there is no configuration.
pub proof fn law_set_values_are_taken(
    hostname: TomlEntryView,
    port: TomlEntryView,
    interval: TomlEntryView,
    testing: bool,
)
    ensures
        match config_of(hostname, port, interval, testing) {
            Ok(config) => {
                &&& !is_unset(hostname) ==> hostname == TomlEntryView::Text(config.hostname)
                &&& is_unset(port) || port == TomlEntryView::Integer(config.port as i64) || (
                port matches TomlEntryView::Text(text) && natural_value(trimmed(text), 65535) == Some(
                    config.port as nat,
                ))
                &&& is_unset(interval) || interval == TomlEntryView::Fraction(
                    config.commit_interval.bits,
                ) || (interval matches TomlEntryView::Integer(n) && n >= 0
                    && config.commit_interval.bits == nearest_bits(n as nat))
            },
            Err(_) => {
                ||| !(is_unset(hostname) || hostname is Text)
                ||| match port {
                    TomlEntryView::Integer(n) => n < 0 || n > 65535,
                    TomlEntryView::Text(text) => natural_value(trimmed(text), 65535) is None,
                    _ => !is_unset(port),
                }
                ||| match interval {
                    TomlEntryView::Integer(n) => n < 0,
                    TomlEntryView::Fraction(bits) => !finite_and_not_negative(Seconds { bits }),
                    _ => !is_unset(interval),
                }
            },
        },
{
    if let TomlEntryView::Integer(n) = interval {
        if n >= 0 {
            lemma_whole_seconds(n as nat);
        }
    }
    if let TomlEntryView::Text(text) = port {
        lemma_natural_value_bound(trimmed(text), 65535);
    }
}

proof fn lemma_natural_value_bound(text: Seq<char>, max: nat)
    ensures
        natural_value(text, max) matches Some(value) ==> value <= max,
{
}

/// Whether the entry at `i` is the last one with this name.
pub open spec fn is_last_named<T>(entries: Seq<(Seq<char>, T)>, name: Seq<char>, i: int) -> bool {
    &&& 0 <= i < entries.len()
    &&& entries[i].0 == name
    &&& forall|j: int| i < j < entries.len() ==> (#[trigger] entries[j]).0 != name
}

/// What stands under a name is what the last entry with that name holds, and there is nothing
/// without such an entry.
pub proof fn law_entry_is_found_by_its_name<T>(entries: Seq<(Seq<char>, T)>, name: Seq<char>)
    ensures
        match named(entries, name) {
            Some(value) => exists|i: int| #[trigger]
                is_last_named(entries, name, i) && entries[i].1 == value,
            None => forall|i: int| 0 <= i < entries.len() ==> (#[trigger] entries[i]).0 != name,
        },
    decreases entries.len(),
{
    if entries.len() > 0 {
        let head = entries.drop_last();
        let n = entries.len() - 1;
        law_entry_is_found_by_its_name(head, name);
        if entries.last().0 == name {
            assert(is_last_named(entries, name, n));
        } else {
            match named(head, name) {
                Some(value) => {
                    let i = choose|i: int| #[trigger]
                        is_last_named(head, name, i) && head[i].1 == value;
                    assert(entries[i] == head[i]);
                    assert forall|j: int| i < j < entries.len() implies (#[trigger] entries[j]).0
                        != name by {
                        if j < n {
                            assert(head[j].0 != name);
                        }
                    }
                    assert(is_last_named(entries, name, i));
                },
                None => {
                    assert forall|i: int| 0 <= i < entries.len() implies (#[trigger] entries[i]).0
                        != name by {
                        if i < n {
                            assert(head[i].0 != name);
                        }
                    }
                },
            }
        }
    }
}

/// A whole number that has no more binary digits than double precision holds is exact: the digits
/// of its bits, shifted by their exponent, are the number. So a setting of so many seconds is that
/// many seconds.
pub proof fn law_whole_number_is_exact(n: nat) -> (shift: nat)
    requires
        0 < n < 2 * DOUBLING,
    ensures
        shift <= 52,
        nearest_bits(n) / DOUBLING as int == WHOLE_EXPONENT - shift,
        DOUBLING + nearest_bits(n) % DOUBLING as int == n * pow2(shift),
    decreases
            (if n < DOUBLING {
                DOUBLING - n
            } else {
                0
            }),
{
    lemma2_to64();
    lemma2_to64_rest();
    if n >= DOUBLING {
        assert(excess_digits(n) == 0);
        assert(rounded_quotient(n, 1) == n);
        assert(nearest_bits(n) == WHOLE_EXPONENT * DOUBLING + (n - DOUBLING));
        lemma_split(WHOLE_EXPONENT as int, n - DOUBLING);
        assert(n * pow2(0) == n) by (nonlinear_arith)
            requires
                pow2(0) == 1,
        ;
        0
    } else {
        let before = law_whole_number_is_exact(2 * n);
        let shift = before + 1;
        vstd::arithmetic::power2::lemma_pow2_unfold(shift);
        assert(n * pow2(shift) == (2 * n) * pow2(before)) by (nonlinear_arith)
            requires
                pow2(shift) == 2 * pow2(before),
        ;
        let bits = nearest_bits(2 * n);
        assert(nearest_bits(n) == bits - DOUBLING);
        lemma_split(bits / DOUBLING as int - 1, bits % DOUBLING as int);
        assert(bits - DOUBLING == (bits / DOUBLING as int - 1) * DOUBLING + bits % DOUBLING as int);
        assert(shift <= 52) by {
            if shift > 52 {
                assert(pow2(shift) == 2 * pow2(52));
                assert(n * pow2(shift) >= 2 * DOUBLING) by (nonlinear_arith)
                    requires
                        n >= 1,
                        pow2(shift) == 2 * DOUBLING,
                ;
            }
        }
        shift
    }
}

proof fn lemma_split(high: int, low: int)
    requires
        0 <= low < DOUBLING,
    ensures
        (high * DOUBLING + low) / DOUBLING as int == high,
        (high * DOUBLING + low) % DOUBLING as int == low,
{
    vstd::arithmetic::div_mod::lemma_fundamental_div_mod_converse(
        high * DOUBLING + low,
        DOUBLING as int,
        high,
        low,
    );
}

/// The host and the port stand in the section of the server, the commit interval in that of the
/// client. A test has sections of its own.
pub proof fn law_settings_stand_in_their_sections(
    file: Seq<(Seq<char>, TomlSectionView)>,
    testing: bool,
    server: Seq<(Seq<char>, TomlValueView)>,
    client: Seq<(Seq<char>, TomlValueView)>,
    hostname: Seq<char>,
    port: u16,
    seconds: u32,
)
    requires
        named(
            file,
            if testing {
                "server-testing"@
            } else {
                "server"@
            },
        ) == Some(TomlSectionView::Table(server)),
        named(
            file,
            if testing {
                "client-testing"@
            } else {
                "client"@
            },
        ) == Some(TomlSectionView::Table(client)),
        named(server, "hostname"@) == Some(TomlValueView::Text(hostname)),
        named(server, "port"@) == Some(TomlValueView::Integer(port as i64)),
        named(client, "commit_interval"@) == Some(TomlValueView::Integer(seconds as i64)),
    ensures
        file_config(Ok(file), testing) == Ok::<ClientConfigView, Seq<char>>(
            (ClientConfigView { hostname, port, commit_interval: whole_seconds(seconds as nat) }),
        ),
{
}

/// Without the sections everything keeps its default: the host itself, on the port of the server
/// for use or for tests.
pub proof fn law_unset_values_keep_their_default(
    file: Seq<(Seq<char>, TomlSectionView)>,
    testing: bool,
)
    requires
        named(
            file,
            if testing {
                "server-testing"@
            } else {
                "server"@
            },
        ) is None,
        named(
            file,
            if testing {
                "client-testing"@
            } else {
                "client"@
            },
        ) is None,
    ensures
        file_config(Ok(file), testing) matches Ok(config) && config.hostname == "127.0.0.1"@
            && config.port == (if testing {
            5666int
        } else {
            5600
        }) && config.commit_interval == whole_seconds(
            if testing {
                5
            } else {
                10
            },
        ),
{
}

} // verus!
