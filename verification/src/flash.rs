//! Decisions behind flashing the two keyboard halves: the local `.env`
//! registration of each half's bootloader serial, the `ioreg` and `diskutil`
//! output that ties a mounted bootloader volume to its USB serial, and the
//! choice of which volume receives which firmware.
//!
//! Reading and writing files and running the system tools stay with the
//! caller; everything here is a function of the text and values handed in.
use std::collections::HashMap;
use vstd::prelude::*;
use crate::registration::{env_value_clean, lemma_registration_read_back, with_serial};
use crate::text::{
    all_hex, chars_eq, contains_seq, copy_range, find, find_chars, first_word, first_word_chars,
    hex_value, is_hex_digit, is_ws, join_lines, join_with_newlines, leading_word, lemma_find,
    lemma_find_first, lemma_matches_char, lines, matches_at, parse_hex_u32, parse_hex_u32_exec,
    rfind_char, rsplit_once_char, rsplit_once_char_exec, split_lines, split_once, split_once_chars,
    string_of, to_chars, trim, trim_chars, trim_leading_newlines, trim_leading_newlines_exec,
    trim_start,
};

verus! {

pub const LEFT_SERIAL_KEY: &'static str = "DAO_LEFT_BOOTLOADER_SERIAL";

pub const RIGHT_SERIAL_KEY: &'static str = "DAO_RIGHT_BOOTLOADER_SERIAL";

pub const BOOT_VOLUME_PREFIX: &'static str = "NRF52BOOT";

/// One physical half of the split keyboard.
#[derive(Clone, Copy, Debug, PartialEq, Eq, Hash, Structural)]
pub enum Half {
    Left,
    Right,
}

pub open spec fn half_label(half: Half) -> Seq<char> {
    match half {
        Half::Left => "left"@,
        Half::Right => "right"@,
    }
}

pub open spec fn half_env_key(half: Half) -> Seq<char> {
    match half {
        Half::Left => LEFT_SERIAL_KEY@,
        Half::Right => RIGHT_SERIAL_KEY@,
    }
}

pub open spec fn spec_other_half(half: Half) -> Half {
    match half {
        Half::Left => Half::Right,
        Half::Right => Half::Left,
    }
}

impl Half {
    /// The half's name in messages and firmware paths.
    pub fn label(self) -> (r: &'static str)
        ensures
            r@ == half_label(self),
    {
        match self {
            Half::Left => "left",
            Half::Right => "right",
        }
    }

    /// The `.env` key that records the half's bootloader serial.
    pub fn env_key(self) -> (r: &'static str)
        ensures
            r@ == half_env_key(self),
    {
        match self {
            Half::Left => LEFT_SERIAL_KEY,
            Half::Right => RIGHT_SERIAL_KEY,
        }
    }
}

/// The half that is not `half`.
pub fn other_half(half: Half) -> (r: Half)
    ensures
        r == spec_other_half(half),
{
    match half {
        Half::Left => Half::Right,
        Half::Right => Half::Left,
    }
}

/// A USB device as `ioreg` lists it.
#[derive(Clone, Debug, PartialEq, Eq)]
pub struct UsbDevice {
    pub location: u32,
    pub product: String,
    pub serial: String,
}

impl View for UsbDevice {
    type V = (u32, Seq<char>, Seq<char>);

    open spec fn view(&self) -> (u32, Seq<char>, Seq<char>) {
        (self.location, self.product@, self.serial@)
    }
}

/// A mounted bootloader volume and the USB serial of the device behind it.
#[derive(Clone, Debug, PartialEq, Eq)]
pub struct BootloaderVolume {
    pub mount: String,
    pub serial: String,
}

/// One firmware copy: which half, onto which volume, from which image.
#[derive(Debug, PartialEq, Eq)]
pub struct FlashPlan {
    pub half: Half,
    pub serial: String,
    pub mount: String,
    pub firmware: String,
}

/// Why a flashing decision could not be made.
#[derive(Debug)]
pub enum FlashError {
    /// A `.env` line (numbered from 1) that is neither blank, a comment, nor `KEY=VALUE`.
    InvalidEnvLine(usize),
    /// Both halves are registered with one serial.
    SameSerialForBothHalves,
    /// A value to record is empty or holds a newline, carriage return or `=`.
    InvalidEnvValue,
    /// The key to record appears on more than one `.env` line.
    DuplicateEnvKey,
    /// No mounted volume has the registered serial of this half.
    RegisteredHalfMissing(Half),
    /// More than one mounted volume has the registered serial of this half.
    DuplicateRegisteredHalf(Half),
    /// No mounted volume is free to be remembered as this half.
    NoUnregisteredBootloader(Half),
    /// More than one mounted volume could be remembered as this half.
    AmbiguousUnregisteredBootloaders(Half),
    /// A mounted bootloader whose serial belongs to neither half.
    UnknownBootloader(BootloaderVolume),
    /// Two mounted bootloaders belong to this half.
    DuplicateHalf(Half),
    /// The firmware image of this half has not been built.
    MissingFirmware(Half),
    /// A device-tree path without `@`.
    UnexpectedDeviceTreePath,
    /// A device-tree path whose text after the last `@` is not a hexadecimal `u32`.
    UnexpectedUsbLocation,
    /// A volume named like a bootloader whose `INFO_UF2.TXT` names another board.
    UnexpectedUf2Identity,
    /// Disk information without a `DeviceTreePath`.
    NoDeviceTreePath,
    /// No USB device sits at this location.
    UnknownUsbLocation(u32),
    /// The USB device behind a volume is this other product.
    UnexpectedProduct(String),
}

// ---------------------------------------------------------------------------
// The local registration file
// ---------------------------------------------------------------------------

/// The serials recorded for each half.
#[derive(Debug, PartialEq, Eq)]
pub struct FlashConfig {
    pub left_serial: Option<String>,
    pub right_serial: Option<String>,
}

pub open spec fn opt_view(o: Option<String>) -> Option<Seq<char>> {
    match o {
        Some(s) => Some(s@),
        None => None,
    }
}

impl View for FlashConfig {
    type V = (Option<Seq<char>>, Option<Seq<char>>);

    open spec fn view(&self) -> (Option<Seq<char>>, Option<Seq<char>>) {
        (opt_view(self.left_serial), opt_view(self.right_serial))
    }
}

pub open spec fn serial_of(config: (Option<Seq<char>>, Option<Seq<char>>), half: Half) -> Option<
    Seq<char>,
> {
    match half {
        Half::Left => config.0,
        Half::Right => config.1,
    }
}

pub open spec fn half_of_serial(config: (Option<Seq<char>>, Option<Seq<char>>), serial: Seq<char>) -> Option<Half> {
    if config.0 == Some(serial) {
        Some(Half::Left)
    } else if config.1 == Some(serial) {
        Some(Half::Right)
    } else {
        None
    }
}

/// A `.env` line that carries no entry: blank or a `#` comment.
pub open spec fn env_line_skipped(line: Seq<char>) -> bool {
    trim(line).len() == 0 || trim(line)[0] == '#'
}

/// A value without one pair of matching surrounding quotes, double or single.
pub open spec fn unquoted(v: Seq<char>) -> Seq<char> {
    if v.len() >= 2 && v[0] == '"' && v.last() == '"' {
        v.subrange(1, v.len() - 1)
    } else if v.len() >= 2 && v[0] == '\'' && v.last() == '\'' {
        v.subrange(1, v.len() - 1)
    } else {
        v
    }
}

/// The entry on a `.env` line that is not skipped, if it holds a `=`.
pub open spec fn env_line_entry(line: Seq<char>) -> Option<(Seq<char>, Seq<char>)> {
    match split_once(trim(line), seq!['=']) {
        Some((k, v)) => Some((trim(k), unquoted(trim(v)))),
        None => None,
    }
}

/// The entries of `ls`, whose first line has number `first + 1`, or the
/// number of the first line that is neither skipped nor an entry.
pub open spec fn env_entries_from(ls: Seq<Seq<char>>, first: nat) -> Result<
    Seq<(Seq<char>, Seq<char>)>,
    nat,
>
    decreases ls.len(),
{
    if ls.len() == 0 {
        Ok(Seq::empty())
    } else if env_line_skipped(ls[0]) {
        env_entries_from(ls.drop_first(), first + 1)
    } else {
        match env_line_entry(ls[0]) {
            None => Err(first + 1),
            Some(e) => match env_entries_from(ls.drop_first(), first + 1) {
                Ok(es) => Ok(seq![e] + es),
                Err(n) => Err(n),
            },
        }
    }
}

/// The entries of a `.env` text, in line order.
pub open spec fn env_entries(contents: Seq<char>) -> Result<Seq<(Seq<char>, Seq<char>)>, nat> {
    env_entries_from(lines(contents), 0)
}

pub open spec fn entries_view(v: Seq<(String, String)>) -> Seq<(Seq<char>, Seq<char>)> {
    v.map_values(|e: (String, String)| (e.0@, e.1@))
}

/// The value of the last entry for `key`, as a map filled in line order holds it.
pub open spec fn env_lookup(es: Seq<(Seq<char>, Seq<char>)>, key: Seq<char>) -> Option<Seq<char>>
    decreases es.len(),
{
    if es.len() == 0 {
        None
    } else if es.last().0 == key {
        Some(es.last().1)
    } else {
        env_lookup(es.drop_last(), key)
    }
}

/// Of several entries for one key the last one counts, and a key with no
/// entry has no value.
pub proof fn lemma_env_lookup_last(es: Seq<(Seq<char>, Seq<char>)>, key: Seq<char>)
    ensures
        match env_lookup(es, key) {
            Some(v) => exists|i: int|
                0 <= i < es.len() && es[i] == (key, v) && forall|j: int|
                    i < j < es.len() ==> (#[trigger] es[j]).0 != key,
            None => forall|i: int| 0 <= i < es.len() ==> (#[trigger] es[i]).0 != key,
        },
    decreases es.len(),
{
    if es.len() > 0 {
        let n = es.len() - 1;
        if es.last().0 == key {
            assert(es[n] == (key, es.last().1));
        } else {
            let d = es.drop_last();
            lemma_env_lookup_last(d, key);
            match env_lookup(d, key) {
                Some(v) => {
                    let i = choose|i: int|
                        0 <= i < d.len() && d[i] == (key, v) && forall|j: int|
                            i < j < d.len() ==> (#[trigger] d[j]).0 != key;
                    assert(es[i] == d[i]);
                    assert forall|j: int| i < j < es.len() implies (#[trigger] es[j]).0 != key by {
                        if j < n {
                            assert(es[j] == d[j]);
                        }
                    }
                },
                None => {
                    assert forall|i: int| 0 <= i < es.len() implies (#[trigger] es[i]).0 != key by {
                        if i < n {
                            assert(es[i] == d[i]);
                        }
                    }
                },
            }
        }
    }
}

pub open spec fn spec_non_empty(v: Option<Seq<char>>) -> Option<Seq<char>> {
    match v {
        Some(s) => if s.len() > 0 {
            Some(s)
        } else {
            None
        },
        None => None,
    }
}

/// The registration that a `.env` text records.
pub open spec fn config_of_env(contents: Seq<char>) -> Result<
    (Option<Seq<char>>, Option<Seq<char>>),
    FlashError,
> {
    match env_entries(contents) {
        Err(n) => Err(FlashError::InvalidEnvLine(n as usize)),
        Ok(es) => {
            let left = spec_non_empty(env_lookup(es, LEFT_SERIAL_KEY@));
            let right = spec_non_empty(env_lookup(es, RIGHT_SERIAL_KEY@));
            if left is Some && left == right {
                Err(FlashError::SameSerialForBothHalves)
            } else {
                Ok((left, right))
            }
        },
    }
}

/// A registration read from `.env` records only non-empty serials, and
/// never one serial for both halves, so the half found for a recorded
/// serial is the half it was recorded for.
pub proof fn lemma_recorded_serial_round_trip(contents: Seq<char>, half: Half)
    requires
        config_of_env(contents) is Ok,
    ensures
        ({
            let config = config_of_env(contents)->Ok_0;
            serial_of(config, half) matches Some(s) ==> s.len() > 0 && half_of_serial(config, s)
                == Some(half)
        }),
{
}

proof fn lemma_env_entries_step(ls: Seq<Seq<char>>, first: nat)
    requires
        ls.len() > 0,
    ensures
        env_entries_from(ls, first) == (if env_line_skipped(ls[0]) {
            env_entries_from(ls.drop_first(), first + 1)
        } else {
            match env_line_entry(ls[0]) {
                None => Err(first + 1),
                Some(e) => match env_entries_from(ls.drop_first(), first + 1) {
                    Ok(es) => Ok(seq![e] + es),
                    Err(n) => Err(n),
                },
            }
        }),
{
}

/// A value wrapped in a pair of double or single quotes loses exactly that
/// pair, and a value that does not start with a quote is kept as it is.
pub proof fn lemma_unquoted(v: Seq<char>)
    ensures
        unquoted(seq!['"'] + v + seq!['"']) == v,
        unquoted(seq!['\''] + v + seq!['\'']) == v,
        v.len() == 0 || (v[0] != '"' && v[0] != '\'') ==> unquoted(v) == v,
{
    let d = seq!['"'] + v + seq!['"'];
    let q = seq!['\''] + v + seq!['\''];
    assert(d.subrange(1, d.len() - 1) =~= v);
    assert(q.subrange(1, q.len() - 1) =~= v);
    assert(d.last() == '"');
    assert(q.last() == '\'');
}

/// `value` with one pair of matching surrounding quotes removed.
pub fn unquote(value: &[char]) -> (r: Vec<char>)
    ensures
        r@ == unquoted(value@),
{
    let n = value.len();
    if n >= 2 && ((value[0] == '"' && value[n - 1] == '"') || (value[0] == '\''
        && value[n - 1] == '\'')) {
        copy_range(value, 1, n - 1)
    } else {
        copy_range(value, 0, n)
    }
}

/// `value` when it is present and not empty.
pub fn non_empty(value: Option<&String>) -> (r: Option<String>)
    ensures
        opt_view(r) == spec_non_empty(match value {
            Some(s) => Some(s@),
            None => None,
        }),
{
    match value {
        Some(s) => {
            if s.as_str().is_empty() {
                None
            } else {
                Some(s.clone())
            }
        },
        None => None,
    }
}

/// The `KEY=VALUE` entries of a `.env` text in line order: keys and values
/// trimmed, one pair of surrounding quotes removed from each value, blank
/// lines and `#` comments skipped.
pub fn parse_env(contents: &str) -> (r: Result<Vec<(String, String)>, FlashError>)
    ensures
        match r {
            Ok(v) => env_entries(contents@) == Ok::<_, nat>(entries_view(v@)),
            Err(e) => env_entries(contents@) matches Err(n) && e == FlashError::InvalidEnvLine(
                n as usize,
            ),
        },
{
    let chars = to_chars(contents);
    let ls = split_lines(chars.as_slice());
    let ghost all = ls@.map_values(|l: Vec<char>| l@);
    let mut values: Vec<(String, String)> = Vec::new();
    let mut index: usize = 0;
    assert(all.skip(0) =~= all);
    while index < ls.len()
        invariant
            all == ls@.map_values(|l: Vec<char>| l@),
            all == lines(contents@),
            index <= ls.len(),
            env_entries(contents@) == (match env_entries_from(all.skip(index as int), index as nat) {
                Ok(es) => Ok(entries_view(values@) + es),
                Err(n) => Err(n),
            }),
        decreases ls.len() - index,
    {
        let ghost rest = all.skip(index as int);
        proof {
            lemma_env_entries_step(rest, index as nat);
            assert(rest.drop_first() =~= all.skip(index + 1));
            assert(rest[0] == ls@[index as int]@);
        }
        let line = trim_chars(ls[index].as_slice());
        if line.len() == 0 || line[0] == '#' {
            index = index + 1;
        } else {
            let eq = vec!['='];
            assert(eq@ =~= seq!['=']);
            match split_once_chars(line.as_slice(), eq.as_slice()) {
                None => {
                    return Err(FlashError::InvalidEnvLine(index + 1));
                },
                Some((key, value)) => {
                    let key = trim_chars(key.as_slice());
                    let value = trim_chars(value.as_slice());
                    let value = unquote(value.as_slice());
                    let ghost before = entries_view(values@);
                    values.push((string_of(key.as_slice()), string_of(value.as_slice())));
                    assert(entries_view(values@) =~= before.push((key@, value@)));
                    proof {
                        match env_entries_from(all.skip(index + 1), (index + 1) as nat) {
                            Ok(es) => {
                                assert(before.push((key@, value@)) + es =~= before + (seq![
                                    (key@, value@),
                                ] + es));
                            },
                            Err(n) => {},
                        }
                    }
                    index = index + 1;
                },
            }
        }
    }
    assert(all.skip(index as int) =~= Seq::<Seq<char>>::empty());
    assert(entries_view(values@) + Seq::<(Seq<char>, Seq<char>)>::empty() =~= entries_view(values@));
    Ok(values)
}

/// The value of the last entry for `key`, if any.
fn lookup_env<'a>(values: &'a Vec<(String, String)>, key: &str) -> (r: Option<&'a String>)
    ensures
        match r {
            Some(s) => env_lookup(entries_view(values@), key@) == Some(s@),
            None => env_lookup(entries_view(values@), key@) is None,
        },
{
    let wanted = String::from_str(key);
    let mut k: usize = values.len();
    assert(entries_view(values@).take(k as int) =~= entries_view(values@));
    while k > 0
        invariant
            k <= values.len(),
            wanted@ == key@,
            env_lookup(entries_view(values@), key@) == env_lookup(
                entries_view(values@).take(k as int),
                key@,
            ),
        decreases k,
    {
        let ghost t = entries_view(values@).take(k as int);
        assert(t.drop_last() =~= entries_view(values@).take(k - 1));
        assert(t.last() == (values@[k - 1].0@, values@[k - 1].1@));
        if values[k - 1].0 == wanted {
            return Some(&values[k - 1].1);
        }
        k = k - 1;
    }
    None
}

impl FlashConfig {
    /// The registration recorded in a `.env` text.
    pub fn from_env(contents: &str) -> (r: Result<FlashConfig, FlashError>)
        ensures
            match r {
                Ok(c) => config_of_env(contents@) matches Ok(v) && c@ == v,
                Err(e) => config_of_env(contents@) matches Err(f) && e == f,
            },
    {
        let values = match parse_env(contents) {
            Ok(v) => v,
            Err(e) => {
                return Err(e);
            },
        };
        let left = non_empty(lookup_env(&values, LEFT_SERIAL_KEY));
        let right = non_empty(lookup_env(&values, RIGHT_SERIAL_KEY));
        match (&left, &right) {
            (Some(l), Some(r)) => {
                if *l == *r {
                    return Err(FlashError::SameSerialForBothHalves);
                }
            },
            _ => {},
        }
        Ok(FlashConfig { left_serial: left, right_serial: right })
    }

    /// The half registered with `serial`, the left one first.
    pub fn half_for_serial(&self, serial: &str) -> (r: Option<Half>)
        ensures
            r == half_of_serial(self@, serial@),
    {
        let wanted = String::from_str(serial);
        match &self.left_serial {
            Some(s) => {
                if *s == wanted {
                    return Some(Half::Left);
                }
            },
            None => {},
        }
        match &self.right_serial {
            Some(s) => {
                if *s == wanted {
                    return Some(Half::Right);
                }
            },
            None => {},
        }
        None
    }

    /// The serial registered for `half`.
    pub fn serial_for_half(&self, half: Half) -> (r: Option<&str>)
        ensures
            match r {
                Some(s) => serial_of(self@, half) == Some(s@),
                None => serial_of(self@, half) is None,
            },
    {
        let recorded = match half {
            Half::Left => &self.left_serial,
            Half::Right => &self.right_serial,
        };
        match recorded {
            Some(s) => Some(s.as_str()),
            None => None,
        }
    }
}

impl Default for FlashConfig {
    fn default() -> (r: FlashConfig)
        ensures
            r@ == (None::<Seq<char>>, None::<Seq<char>>),
    {
        FlashConfig { left_serial: None, right_serial: None }
    }
}


/// A value that `.env` can record on one line.
pub open spec fn env_value_ok(v: Seq<char>) -> bool {
    &&& v.len() > 0
    &&& forall|i: int| 0 <= i < v.len() ==> #[trigger] v[i] != '\n' && v[i] != '\r' && v[i] != '='
}

/// A line that assigns `key`: its text before the first `=`, trimmed, is `key`.
pub open spec fn line_has_key(line: Seq<char>, key: Seq<char>) -> bool {
    match split_once(line, seq!['=']) {
        Some((candidate, _)) => trim(candidate) == key,
        None => false,
    }
}

pub open spec fn env_assignment(key: Seq<char>, value: Seq<char>) -> Seq<char> {
    key + seq!['='] + value
}

/// Every line that assigns `key` replaced by `key=value`.
pub open spec fn lines_with_value(ls: Seq<Seq<char>>, key: Seq<char>, value: Seq<char>) -> Seq<
    Seq<char>,
> {
    ls.map_values(
        |l: Seq<char>|
            if line_has_key(l, key) {
                env_assignment(key, value)
            } else {
                l
            },
    )
}

pub open spec fn some_line_has_key(ls: Seq<Seq<char>>, key: Seq<char>) -> bool {
    exists|i: int| 0 <= i < ls.len() && line_has_key(#[trigger] ls[i], key)
}

pub open spec fn two_lines_have_key(ls: Seq<Seq<char>>, key: Seq<char>) -> bool {
    exists|i: int, j: int|
        0 <= i < j < ls.len() && line_has_key(#[trigger] ls[i], key) && line_has_key(
            #[trigger] ls[j],
            key,
        )
}

/// A `.env` text with `key` set to `value`: the line that assigns `key` is
/// replaced, or `key=value` is appended when none does; leading empty lines
/// are dropped and the text ends with a newline.
pub open spec fn env_with_value(contents: Seq<char>, key: Seq<char>, value: Seq<char>) -> Result<
    Seq<char>,
    FlashError,
> {
    let ls = lines(contents);
    if !env_value_ok(value) {
        Err(FlashError::InvalidEnvValue)
    } else if two_lines_have_key(ls, key) {
        Err(FlashError::DuplicateEnvKey)
    } else {
        let replaced = lines_with_value(ls, key, value);
        let out = if some_line_has_key(ls, key) {
            replaced
        } else {
            replaced.push(env_assignment(key, value))
        };
        Ok(trim_leading_newlines(join_lines(out)) + seq!['\n'])
    }
}

/// Whether `line` assigns `key`.
fn line_assigns(line: &[char], key: &[char]) -> (r: bool)
    ensures
        r == line_has_key(line@, key@),
{
    let eq = vec!['='];
    assert(eq@ =~= seq!['=']);
    match split_once_chars(line, eq.as_slice()) {
        Some((candidate, _)) => {
            let candidate = trim_chars(candidate.as_slice());
            chars_eq(candidate.as_slice(), key)
        },
        None => false,
    }
}

/// The `.env` text with `key` set to `value`.
pub fn upsert_env(contents: &str, key: &str, value: &str) -> (r: Result<String, FlashError>)
    ensures
        match r {
            Ok(s) => env_with_value(contents@, key@, value@) == Ok::<_, FlashError>(s@),
            Err(e) => env_with_value(contents@, key@, value@) matches Err(f) && e == f,
        },
{
    let value_chars = to_chars(value);
    if value_chars.len() == 0 {
        return Err(FlashError::InvalidEnvValue);
    }
    let mut v: usize = 0;
    while v < value_chars.len()
        invariant
            v <= value_chars.len(),
            value_chars@ == value@,
            forall|i: int|
                0 <= i < v ==> #[trigger] value_chars@[i] != '\n' && value_chars@[i] != '\r'
                    && value_chars@[i] != '=',
        decreases value_chars.len() - v,
    {
        let c = value_chars[v];
        if c == '\n' || c == '\r' || c == '=' {
            return Err(FlashError::InvalidEnvValue);
        }
        v = v + 1;
    }
    let key_chars = to_chars(key);
    let mut entry = copy_range(key_chars.as_slice(), 0, key_chars.len());
    entry.push('=');
    let mut j: usize = 0;
    while j < value_chars.len()
        invariant
            j <= value_chars.len(),
            value_chars@ == value@,
            entry@ == key@ + seq!['='] + value@.take(j as int),
        decreases value_chars.len() - j,
    {
        entry.push(value_chars[j]);
        j = j + 1;
        assert(entry@ =~= key@ + seq!['='] + value@.take(j as int));
    }
    assert(value@.take(value@.len() as int) =~= value@);
    assert(env_value_ok(value@));
    assert(key_chars@.subrange(0, key_chars@.len() as int) =~= key@);
    let chars = to_chars(contents);
    let ls = split_lines(chars.as_slice());
    let ghost all = ls@.map_values(|l: Vec<char>| l@);
    let mut out: Vec<Vec<char>> = Vec::new();
    let mut found = false;
    let mut i: usize = 0;
    while i < ls.len()
        invariant
            all == ls@.map_values(|l: Vec<char>| l@),
            all == lines(contents@),
            entry@ == env_assignment(key@, value@),
            env_value_ok(value@),
            key_chars@ == key@,
            i <= ls.len(),
            out@.map_values(|l: Vec<char>| l@) == lines_with_value(all.take(i as int), key@, value@),
            found == some_line_has_key(all.take(i as int), key@),
            !two_lines_have_key(all.take(i as int), key@),
        decreases ls.len() - i,
    {
        let ghost before = out@.map_values(|l: Vec<char>| l@);
        let ghost pre = all.take(i as int);
        let ghost next = all.take(i + 1);
        assert(next =~= pre.push(all[i as int]));
        assert(all[i as int] == ls@[i as int]@);
        let line = &ls[i];
        if line_assigns(line.as_slice(), key_chars.as_slice()) {
            if found {
                proof {
                    let k = choose|k: int| 0 <= k < pre.len() && line_has_key(#[trigger] pre[k], key@);
                    assert(next[k] == pre[k]);
                    assert(two_lines_have_key(all, key@)) by {
                        assert(all[k] == pre[k]);
                    }
                }
                return Err(FlashError::DuplicateEnvKey);
            }
            out.push(copy_range(entry.as_slice(), 0, entry.len()));
            found = true;
            assert(next[i as int] == all[i as int]);
        } else {
            out.push(copy_range(line.as_slice(), 0, line.len()));
        }
        proof {
            let lw = lines_with_value(next, key@, value@);
            let lp = lines_with_value(pre, key@, value@);
            assert forall|k: int| 0 <= k < i implies #[trigger] lw[k] == lp[k] by {
                assert(next[k] == pre[k]);
            }
            assert(lw[i as int] == (if line_has_key(next[i as int], key@) {
                env_assignment(key@, value@)
            } else {
                next[i as int]
            }));
            let om = out@.map_values(|l: Vec<char>| l@);
            assert(before.len() == i);
            assert(next.len() == i + 1);
            assert(out@.len() == i + 1);
            assert(om.len() == lw.len());
            assert(om[i as int] == out@[i as int]@);
            assert(om[i as int] == lw[i as int]);
            assert forall|k: int| 0 <= k < i implies #[trigger] om[k] == lw[k] by {
                assert(om[k] == before[k]);
            }
            assert(om =~= lw);
        }
        assert(found == some_line_has_key(next, key@)) by {
            if found && !some_line_has_key(pre, key@) {
                assert(line_has_key(next[i as int], key@));
            }
            if some_line_has_key(next, key@) && !line_has_key(next[i as int], key@) {
                let k = choose|k: int| 0 <= k < next.len() && line_has_key(#[trigger] next[k], key@);
                assert(pre[k] == next[k]);
            }
        }
        assert(!two_lines_have_key(next, key@)) by {
            if two_lines_have_key(next, key@) {
                let (a, b) = choose|a: int, b: int|
                    0 <= a < b < next.len() && line_has_key(#[trigger] next[a], key@)
                        && line_has_key(#[trigger] next[b], key@);
                if b < i {
                    assert(pre[a] == next[a] && pre[b] == next[b]);
                } else {
                    assert(pre[a] == next[a]);
                }
            }
        }
        i = i + 1;
    }
    assert(all.take(ls.len() as int) =~= all);
    if !found {
        let ghost before = out@.map_values(|l: Vec<char>| l@);
        out.push(entry);
        assert(out@.map_values(|l: Vec<char>| l@) =~= before.push(env_assignment(key@, value@)));
    }
    let ghost outv = if some_line_has_key(all, key@) {
        lines_with_value(all, key@, value@)
    } else {
        lines_with_value(all, key@, value@).push(env_assignment(key@, value@))
    };
    assert(out@.map_values(|l: Vec<char>| l@) == outv);
    let joined = join_with_newlines(&out);
    let mut trimmed = trim_leading_newlines_exec(joined.as_slice());
    trimmed.push('\n');
    assert(trimmed@ == trim_leading_newlines(join_lines(outv)) + seq!['\n']);
    assert(!two_lines_have_key(lines(contents@), key@));
    let r = string_of(trimmed.as_slice());
    assert(env_with_value(contents@, key@, value@) == Ok::<_, FlashError>(r@));
    Ok(r)
}

// ---------------------------------------------------------------------------
// `ioreg` and `diskutil` output
// ---------------------------------------------------------------------------

/// The marker that opens a quoted `ioreg` property: `"key" = "`.
pub open spec fn property_marker(key: Seq<char>) -> Seq<char> {
    seq!['"'] + key + "\" = \""@
}

/// The value of the quoted property `key` on an `ioreg` line.
pub open spec fn quoted_value(line: Seq<char>, key: Seq<char>) -> Option<Seq<char>> {
    match split_once(line, property_marker(key)) {
        Some((_, rest)) => match split_once(rest, seq!['"']) {
            Some((v, _)) => Some(v),
            None => None,
        },
        None => None,
    }
}

/// The product name and hexadecimal location on an `ioreg` line that opens
/// an `IOUSBHostDevice` entry: `+-o PRODUCT@LOCATION  <class IOUSBHostDevice, ...>`.
pub open spec fn ioreg_header(line: Seq<char>) -> Option<(Seq<char>, u32)> {
    match find(line, "+-o "@) {
        None => None,
        Some(i) => {
            let header = line.skip(i + "+-o "@.len());
            if !contains_seq(header, "<class IOUSBHostDevice"@) {
                None
            } else {
                match split_once(header, seq!['@']) {
                    None => None,
                    Some((product, rest)) => match first_word(rest) {
                        None => None,
                        Some(word) => match parse_hex_u32(word) {
                            None => None,
                            Some(location) => Some((product, location)),
                        },
                    },
                }
            }
        },
    }
}

/// The device being read: location, product and, once seen, serial.
pub type PendingDevice = Option<(u32, String, Option<String>)>;

pub open spec fn pending_view(p: PendingDevice) -> Option<(u32, Seq<char>, Option<Seq<char>>)> {
    match p {
        Some((location, product, serial)) => Some((location, product@, opt_view(serial))),
        None => None,
    }
}

/// A device that is complete once its serial has been seen.
pub open spec fn completed(p: Option<(u32, Seq<char>, Option<Seq<char>>)>) -> Option<
    (u32, Seq<char>, Seq<char>),
> {
    match p {
        Some((location, product, Some(serial))) => Some((location, product, serial)),
        _ => None,
    }
}

pub open spec fn opt_seq<A>(o: Option<A>) -> Seq<A> {
    match o {
        Some(a) => seq![a],
        None => Seq::empty(),
    }
}

/// How one `ioreg` line changes the devices found and the device being read.
pub open spec fn ioreg_step(
    state: (Seq<(u32, Seq<char>, Seq<char>)>, Option<(u32, Seq<char>, Option<Seq<char>>)>),
    line: Seq<char>,
) -> (Seq<(u32, Seq<char>, Seq<char>)>, Option<(u32, Seq<char>, Option<Seq<char>>)>) {
    match ioreg_header(line) {
        Some((product, location)) => (
            state.0 + opt_seq(completed(state.1)),
            Some((location, product, None)),
        ),
        None => match quoted_value(line, "USB Serial Number"@) {
            Some(serial) => match state.1 {
                Some((location, product, _)) => (state.0, Some((location, product, Some(serial)))),
                None => state,
            },
            None => state,
        },
    }
}

pub open spec fn ioreg_fold(
    ls: Seq<Seq<char>>,
    state: (Seq<(u32, Seq<char>, Seq<char>)>, Option<(u32, Seq<char>, Option<Seq<char>>)>),
) -> (Seq<(u32, Seq<char>, Seq<char>)>, Option<(u32, Seq<char>, Option<Seq<char>>)>)
    decreases ls.len(),
{
    if ls.len() == 0 {
        state
    } else {
        ioreg_fold(ls.drop_first(), ioreg_step(state, ls[0]))
    }
}

/// The USB devices of an `ioreg` listing, in order: each entry opened by a
/// device line and given a serial by a later `"USB Serial Number"` line
/// before the next device line; the last such serial counts.
pub open spec fn ioreg_devices(contents: Seq<char>) -> Seq<(u32, Seq<char>, Seq<char>)> {
    let end = ioreg_fold(lines(contents), (Seq::empty(), None));
    end.0 + opt_seq(completed(end.1))
}

/// The value of a property is the text between its `"KEY" = "` marker and
/// the next `"`, wherever the marker stands in the line.
pub proof fn lemma_quoted_value_after_marker(
    before: Seq<char>,
    key: Seq<char>,
    value: Seq<char>,
    rest: Seq<char>,
)
    requires
        forall|i: int|
            0 <= i < before.len() ==> !matches_at(
                before + property_marker(key) + (value + seq!['"'] + rest),
                property_marker(key),
                i,
            ),
        forall|k: int| 0 <= k < value.len() ==> value[k] != '"',
    ensures
        quoted_value(before + property_marker(key) + (value + seq!['"'] + rest), key) == Some(value),
{
    let m = property_marker(key);
    let tail = value + seq!['"'] + rest;
    let line = before + m + tail;
    assert(line.subrange(before.len() as int, (before.len() + m.len()) as int) =~= m);
    lemma_split_at(line, m, before.len() as int);
    assert(line.skip((before.len() + m.len()) as int) =~= tail);
    assert(tail.subrange(value.len() as int, value.len() + 1 as int) =~= seq!['"']);
    assert forall|j: int| 0 <= j < value.len() implies !matches_at(tail, seq!['"'], j) by {
        lemma_matches_char(tail, '"', j);
        assert(tail[j] == value[j]);
    }
    lemma_split_at(tail, seq!['"'], value.len() as int);
    assert(tail.take(value.len() as int) =~= value);
}

/// The quoted property `key` on an `ioreg` line.
pub fn quoted_property(line: &[char], key: &str) -> (r: Option<String>)
    ensures
        match r {
            Some(v) => quoted_value(line@, key@) == Some(v@),
            None => quoted_value(line@, key@) is None,
        },
{
    let mut marker: Vec<char> = vec!['"'];
    let key_chars = to_chars(key);
    let tail = to_chars("\" = \"");
    let mut k: usize = 0;
    while k < key_chars.len()
        invariant
            k <= key_chars.len(),
            marker@ == seq!['"'] + key_chars@.take(k as int),
        decreases key_chars.len() - k,
    {
        marker.push(key_chars[k]);
        k = k + 1;
        assert(marker@ =~= seq!['"'] + key_chars@.take(k as int));
    }
    assert(key_chars@.take(key_chars.len() as int) =~= key@);
    let mut t: usize = 0;
    let ghost mid = marker@;
    while t < tail.len()
        invariant
            t <= tail.len(),
            marker@ == mid + tail@.take(t as int),
        decreases tail.len() - t,
    {
        marker.push(tail[t]);
        t = t + 1;
        assert(marker@ =~= mid + tail@.take(t as int));
    }
    assert(tail@.take(tail.len() as int) =~= tail@);
    assert(marker@ =~= property_marker(key@));
    match split_once_chars(line, marker.as_slice()) {
        Some((_, rest)) => {
            let quote = vec!['"'];
            assert(quote@ =~= seq!['"']);
            match split_once_chars(rest.as_slice(), quote.as_slice()) {
                Some((v, _)) => Some(string_of(v.as_slice())),
                None => None,
            }
        },
        None => None,
    }
}

/// The first word of `w`, a space and anything after it, is `w` when `w`
/// holds no whitespace.
proof fn lemma_leading_word_before_space(w: Seq<char>, t: Seq<char>)
    requires
        forall|k: int| 0 <= k < w.len() ==> !is_ws(#[trigger] w[k]),
    ensures
        leading_word(w + seq![' '] + t) == w,
    decreases w.len(),
{
    let s = w + seq![' '] + t;
    if w.len() == 0 {
        assert(s[0] == ' ');
    } else {
        assert(s[0] == w[0]);
        assert(s.drop_first() =~= w.drop_first() + seq![' '] + t);
        assert forall|k: int| 0 <= k < w.drop_first().len() implies !is_ws(
            #[trigger] w.drop_first()[k],
        ) by {
            assert(w.drop_first()[k] == w[k + 1]);
        }
        lemma_leading_word_before_space(w.drop_first(), t);
        assert(seq![w[0]] + w.drop_first() =~= w);
    }
}

/// An `ioreg` device line gives the product before the first `@` of the
/// text after its `+-o ` marker, and the hexadecimal location that follows
/// it, when the line names the `IOUSBHostDevice` class.
pub proof fn lemma_ioreg_header_fields(
    indent: Seq<char>,
    product: Seq<char>,
    location: Seq<char>,
    tail: Seq<char>,
)
    requires
        forall|i: int|
            0 <= i < indent.len() ==> !matches_at(
                indent + "+-o "@ + (product + seq!['@'] + location + seq![' '] + tail),
                "+-o "@,
                i,
            ),
        forall|k: int| 0 <= k < product.len() ==> product[k] != '@',
        location.len() > 0,
        all_hex(location),
        hex_value(location) <= u32::MAX,
        contains_seq(tail, "<class IOUSBHostDevice"@),
    ensures
        ioreg_header(indent + "+-o "@ + (product + seq!['@'] + location + seq![' '] + tail)) == Some(
            (product, hex_value(location) as u32),
        ),
{
    let marker = "+-o "@;
    let rest = location + seq![' '] + tail;
    let header = product + seq!['@'] + location + seq![' '] + tail;
    let line = indent + marker + header;
    assert(line.subrange(indent.len() as int, (indent.len() + marker.len()) as int) =~= marker);
    lemma_split_at(line, marker, indent.len() as int);
    lemma_find(line, marker);
    assert(line.skip((indent.len() + marker.len()) as int) =~= header);
    let cls = "<class IOUSBHostDevice"@;
    let w = choose|w: int| matches_at(tail, cls, w);
    let off = product.len() + 1 + location.len() + 1;
    assert(header.subrange(off + w, off + w + cls.len()) =~= tail.subrange(w, w + cls.len()));
    assert(matches_at(header, cls, off + w));
    assert(header.subrange(product.len() as int, product.len() + 1 as int) =~= seq!['@']);
    assert forall|j: int| 0 <= j < product.len() implies !matches_at(header, seq!['@'], j) by {
        lemma_matches_char(header, '@', j);
        assert(header[j] == product[j]);
    }
    lemma_split_at(header, seq!['@'], product.len() as int);
    assert(header.take(product.len() as int) =~= product);
    assert(header.skip(product.len() + 1 as int) =~= rest);
    assert forall|k: int| 0 <= k < location.len() implies !is_ws(#[trigger] location[k]) by {
        assert(is_hex_digit(location[k]));
    }
    assert(rest[0] == location[0]);
    assert(trim_start(rest) == rest);
    lemma_leading_word_before_space(location, tail);
    assert(is_hex_digit(location[0]));
}

/// The product name and location of the device that an `ioreg` line opens.
pub fn parse_ioreg_header(line: &[char]) -> (r: Option<(String, u32)>)
    ensures
        match r {
            Some((product, location)) => ioreg_header(line@) == Some((product@, location)),
            None => ioreg_header(line@) is None,
        },
{
    let marker = to_chars("+-o ");
    let start = match find_chars(line, marker.as_slice()) {
        Some(i) => i,
        None => {
            return None;
        },
    };
    proof {
        lemma_find(line@, marker@);
    }
    assert(start + marker.len() <= line.len());
    let header = copy_range(line, start + marker.len(), line.len());
    assert(header@ =~= line@.skip(start + marker@.len()));
    let class = to_chars("<class IOUSBHostDevice");
    let found_class = find_chars(header.as_slice(), class.as_slice());
    proof {
        lemma_find(header@, class@);
    }
    if found_class.is_none() {
        return None;
    }
    let at = vec!['@'];
    assert(at@ =~= seq!['@']);
    let (product, rest) = match split_once_chars(header.as_slice(), at.as_slice()) {
        Some(p) => p,
        None => {
            return None;
        },
    };
    let word = match first_word_chars(rest.as_slice()) {
        Some(w) => w,
        None => {
            return None;
        },
    };
    match parse_hex_u32_exec(word.as_slice()) {
        Some(location) => Some((string_of(product.as_slice()), location)),
        None => None,
    }
}

/// The device being read, once its serial has been seen.
pub fn complete_usb_device(current: PendingDevice) -> (r: Option<UsbDevice>)
    ensures
        match r {
            Some(d) => completed(pending_view(current)) == Some(d@),
            None => completed(pending_view(current)) is None,
        },
{
    match current {
        Some((location, product, Some(serial))) => Some(UsbDevice { location, product, serial }),
        _ => None,
    }
}

pub open spec fn devices_view(v: Seq<UsbDevice>) -> Seq<(u32, Seq<char>, Seq<char>)> {
    v.map_values(|d: UsbDevice| d@)
}

/// The USB devices of an `ioreg -l` listing, in order.
pub fn parse_ioreg(contents: &str) -> (r: Vec<UsbDevice>)
    ensures
        devices_view(r@) == ioreg_devices(contents@),
{
    let chars = to_chars(contents);
    let ls = split_lines(chars.as_slice());
    let ghost all = ls@.map_values(|l: Vec<char>| l@);
    let mut devices: Vec<UsbDevice> = Vec::new();
    let mut current: PendingDevice = None;
    let mut i: usize = 0;
    assert(all.skip(0) =~= all);
    assert(devices_view(devices@) =~= Seq::<(u32, Seq<char>, Seq<char>)>::empty());
    while i < ls.len()
        invariant
            all == ls@.map_values(|l: Vec<char>| l@),
            all == lines(contents@),
            i <= ls.len(),
            ioreg_fold(all, (Seq::empty(), None)) == ioreg_fold(
                all.skip(i as int),
                (devices_view(devices@), pending_view(current)),
            ),
        decreases ls.len() - i,
    {
        let ghost state = (devices_view(devices@), pending_view(current));
        proof {
            assert(all.skip(i as int).drop_first() =~= all.skip(i + 1));
            assert(all.skip(i as int)[0] == ls@[i as int]@);
        }
        let line = ls[i].as_slice();
        match parse_ioreg_header(line) {
            Some((product, location)) => {
                let previous = current;
                current = Some((location, product, None));
                match complete_usb_device(previous) {
                    Some(device) => {
                        devices.push(device);
                    },
                    None => {},
                }
                assert(devices_view(devices@) =~= state.0 + opt_seq(completed(state.1)));
            },
            None => {
                let serial_key = "USB Serial Number";
                match quoted_property(line, serial_key) {
                    Some(serial) => {
                        current = match current {
                            Some((location, product, _)) => Some((location, product, Some(serial))),
                            None => None,
                        };
                    },
                    None => {},
                }
            },
        }
        assert((devices_view(devices@), pending_view(current)) == ioreg_step(state, all[i as int]));
        i = i + 1;
    }
    assert(all.skip(i as int) =~= Seq::<Seq<char>>::empty());
    let ghost before = devices_view(devices@);
    match complete_usb_device(current) {
        Some(device) => {
            devices.push(device);
        },
        None => {},
    }
    assert(devices_view(devices@) =~= before + opt_seq(completed(pending_view(current))));
    devices
}

/// `pat` occurs in `s` at `k` and nowhere before, so `s` splits there.
proof fn lemma_split_at(s: Seq<char>, pat: Seq<char>, k: int)
    requires
        0 <= k,
        k + pat.len() <= s.len(),
        s.subrange(k, k + pat.len()) == pat,
        forall|j: int| 0 <= j < k ==> !matches_at(s, pat, j),
    ensures
        split_once(s, pat) == Some((s.take(k), s.skip(k + pat.len()))),
{
    lemma_find_first(s, pat, k);
}

/// The plist value of `key` is the text between the first `<string>` and
/// the first `</string>` after the key's first `<key>key</key>` element:
/// whatever strings come before the key, and whatever follows the value.
pub proof fn lemma_plist_value_after_key(
    before: Seq<char>,
    key: Seq<char>,
    between: Seq<char>,
    value: Seq<char>,
    rest: Seq<char>,
)
    requires
        ({
            let marker = "<key>"@ + key + "</key>"@;
            let after_key = between + "<string>"@ + value + "</string>"@ + rest;
            forall|i: int|
                0 <= i < before.len() ==> !matches_at(before + marker + after_key, marker, i)
        }),
        forall|j: int|
            0 <= j < between.len() ==> !matches_at(
                between + "<string>"@ + value + "</string>"@ + rest,
                "<string>"@,
                j,
            ),
        forall|k: int|
            0 <= k < value.len() ==> !matches_at(value + "</string>"@ + rest, "</string>"@, k),
    ensures
        plist_value(
            before + ("<key>"@ + key + "</key>"@) + (between + "<string>"@ + value + "</string>"@
                + rest),
            key,
        ) == Some(value),
{
    let marker = "<key>"@ + key + "</key>"@;
    let open = "<string>"@;
    let close = "</string>"@;
    let tail = value + close + rest;
    let after_key = between + open + value + close + rest;
    let contents = before + marker + after_key;
    assert(contents.subrange(before.len() as int, (before.len() + marker.len()) as int) =~= marker);
    lemma_split_at(contents, marker, before.len() as int);
    assert(contents.skip((before.len() + marker.len()) as int) =~= after_key);
    assert(after_key.subrange(between.len() as int, (between.len() + open.len()) as int) =~= open);
    lemma_split_at(after_key, open, between.len() as int);
    assert(after_key.skip((between.len() + open.len()) as int) =~= tail);
    assert(tail.subrange(value.len() as int, (value.len() + close.len()) as int) =~= close);
    lemma_split_at(tail, close, value.len() as int);
    assert(tail.take(value.len() as int) =~= value);
}

/// The `<string>` value that follows `<key>KEY</key>` in a property list.
pub open spec fn plist_value(contents: Seq<char>, key: Seq<char>) -> Option<Seq<char>> {
    match split_once(contents, "<key>"@ + key + "</key>"@) {
        None => None,
        Some((_, after_key)) => match split_once(after_key, "<string>"@) {
            None => None,
            Some((_, after_open)) => match split_once(after_open, "</string>"@) {
                None => None,
                Some((v, _)) => Some(v),
            },
        },
    }
}

/// The `<string>` value that follows `<key>KEY</key>` in a property list.
pub fn plist_string(contents: &str, key: &str) -> (r: Option<String>)
    ensures
        match r {
            Some(v) => plist_value(contents@, key@) == Some(v@),
            None => plist_value(contents@, key@) is None,
        },
{
    let chars = to_chars(contents);
    let mut marker = to_chars("<key>");
    let key_chars = to_chars(key);
    let close = to_chars("</key>");
    let ghost m0 = marker@;
    let mut k: usize = 0;
    while k < key_chars.len()
        invariant
            k <= key_chars.len(),
            marker@ == m0 + key_chars@.take(k as int),
        decreases key_chars.len() - k,
    {
        marker.push(key_chars[k]);
        k = k + 1;
        assert(marker@ =~= m0 + key_chars@.take(k as int));
    }
    assert(key_chars@.take(key_chars.len() as int) =~= key_chars@);
    let ghost m1 = marker@;
    let mut c: usize = 0;
    while c < close.len()
        invariant
            c <= close.len(),
            marker@ == m1 + close@.take(c as int),
        decreases close.len() - c,
    {
        marker.push(close[c]);
        c = c + 1;
        assert(marker@ =~= m1 + close@.take(c as int));
    }
    assert(close@.take(close.len() as int) =~= close@);
    assert(marker@ =~= "<key>"@ + key@ + "</key>"@);
    let open = to_chars("<string>");
    let end = to_chars("</string>");
    match split_once_chars(chars.as_slice(), marker.as_slice()) {
        None => None,
        Some((_, after_key)) => match split_once_chars(after_key.as_slice(), open.as_slice()) {
            None => None,
            Some((_, after_open)) => match split_once_chars(after_open.as_slice(), end.as_slice()) {
                None => None,
                Some((v, _)) => Some(string_of(v.as_slice())),
            },
        },
    }
}

/// The USB location at the end of a device-tree path: the hexadecimal text after its last `@`.
pub open spec fn device_tree_location(path: Seq<char>) -> Result<u32, FlashError> {
    match rsplit_once_char(path, '@') {
        None => Err(FlashError::UnexpectedDeviceTreePath),
        Some((_, suffix)) => match parse_hex_u32(suffix) {
            Some(location) => Ok(location),
            None => Err(FlashError::UnexpectedUsbLocation),
        },
    }
}

/// The last `c` of `s + [c] + t`, when `t` holds no `c`, is the one after `s`.
proof fn lemma_rfind_before_tail(s: Seq<char>, c: char, t: Seq<char>)
    requires
        forall|k: int| 0 <= k < t.len() ==> t[k] != c,
    ensures
        rfind_char(s + seq![c] + t, c) == Some(s.len() as int),
    decreases t.len(),
{
    let w = s + seq![c] + t;
    if t.len() == 0 {
        assert(w =~= s.push(c));
    } else {
        assert(w.last() == t.last());
        assert(w.drop_last() =~= s + seq![c] + t.drop_last());
        lemma_rfind_before_tail(s, c, t.drop_last());
    }
}

/// The USB location of a device-tree path is the hexadecimal number after
/// its last `@`, and a path without `@` is refused.
pub proof fn lemma_device_tree_location(prefix: Seq<char>, digits: Seq<char>)
    ensures
        digits.len() > 0 && all_hex(digits) && hex_value(digits) <= u32::MAX ==> device_tree_location(
            prefix + seq!['@'] + digits,
        ) == Ok::<u32, FlashError>(hex_value(digits) as u32),
        (forall|k: int| 0 <= k < prefix.len() ==> prefix[k] != '@') ==> device_tree_location(prefix)
            == Err::<u32, FlashError>(FlashError::UnexpectedDeviceTreePath),
{
    if digits.len() > 0 && all_hex(digits) && hex_value(digits) <= u32::MAX {
        assert forall|k: int| 0 <= k < digits.len() implies digits[k] != '@' by {
            assert(is_hex_digit(digits[k]));
        }
        lemma_rfind_before_tail(prefix, '@', digits);
        let w = prefix + seq!['@'] + digits;
        assert(w.skip(prefix.len() + 1 as int) =~= digits);
        assert(is_hex_digit(digits[0]));
    }
    if forall|k: int| 0 <= k < prefix.len() ==> prefix[k] != '@' {
        lemma_rfind_none(prefix, '@');
    }
}

/// A sequence without `c` has no last `c`.
proof fn lemma_rfind_none(s: Seq<char>, c: char)
    requires
        forall|k: int| 0 <= k < s.len() ==> s[k] != c,
    ensures
        rfind_char(s, c) is None,
    decreases s.len(),
{
    if s.len() > 0 {
        assert(s.last() == s[s.len() - 1]);
        lemma_rfind_none(s.drop_last(), c);
    }
}

/// The USB location at the end of a device-tree path.
pub fn location_from_device_tree_path(path: &str) -> (r: Result<u32, FlashError>)
    ensures
        match r {
            Ok(location) => device_tree_location(path@) == Ok::<u32, FlashError>(location),
            Err(e) => device_tree_location(path@) matches Err(f) && e == f,
        },
{
    let chars = to_chars(path);
    match rsplit_once_char_exec(chars.as_slice(), '@') {
        None => Err(FlashError::UnexpectedDeviceTreePath),
        Some((_, suffix)) => match parse_hex_u32_exec(suffix.as_slice()) {
            Some(location) => Ok(location),
            None => Err(FlashError::UnexpectedUsbLocation),
        },
    }
}

// ---------------------------------------------------------------------------
// Choosing volumes
// ---------------------------------------------------------------------------

/// A volume that can be flashed as `half`: the one with the half's
/// registered serial or, while the half is unregistered, any volume whose
/// serial is not the other half's.
pub open spec fn selectable(
    config: (Option<Seq<char>>, Option<Seq<char>>),
    half: Half,
    volume: BootloaderVolume,
) -> bool {
    match serial_of(config, half) {
        Some(serial) => volume.serial@ == serial,
        None => match serial_of(config, spec_other_half(half)) {
            Some(other) => volume.serial@ != other,
            None => true,
        },
    }
}

pub open spec fn no_selectable(
    config: (Option<Seq<char>>, Option<Seq<char>>),
    half: Half,
    volumes: Seq<BootloaderVolume>,
) -> bool {
    forall|i: int| 0 <= i < volumes.len() ==> !selectable(config, half, #[trigger] volumes[i])
}

pub open spec fn two_selectable(
    config: (Option<Seq<char>>, Option<Seq<char>>),
    half: Half,
    volumes: Seq<BootloaderVolume>,
) -> bool {
    exists|i: int, j: int|
        0 <= i < j < volumes.len() && selectable(config, half, #[trigger] volumes[i]) && selectable(
            config,
            half,
            #[trigger] volumes[j],
        )
}

/// The only selectable volume is the one at index `i`.
pub open spec fn only_selectable(
    config: (Option<Seq<char>>, Option<Seq<char>>),
    half: Half,
    volumes: Seq<BootloaderVolume>,
    i: int,
) -> bool {
    &&& 0 <= i < volumes.len()
    &&& selectable(config, half, volumes[i])
    &&& forall|j: int|
        0 <= j < volumes.len() && selectable(config, half, #[trigger] volumes[j]) ==> j == i
}

pub open spec fn none_selectable_error(config: (Option<Seq<char>>, Option<Seq<char>>), half: Half) -> FlashError {
    if serial_of(config, half) is Some {
        FlashError::RegisteredHalfMissing(half)
    } else {
        FlashError::NoUnregisteredBootloader(half)
    }
}

pub open spec fn many_selectable_error(config: (Option<Seq<char>>, Option<Seq<char>>), half: Half) -> FlashError {
    if serial_of(config, half) is Some {
        FlashError::DuplicateRegisteredHalf(half)
    } else {
        FlashError::AmbiguousUnregisteredBootloaders(half)
    }
}

/// Which mounted volumes can be chosen for `half`: those with its serial
/// when it is registered, and otherwise every volume that is not the other
/// half's. So on a first registration with nothing recorded, a lone mounted
/// volume is chosen, and a registered half chooses the one volume that
/// carries its serial.
pub proof fn lemma_selection_rule(
    config: (Option<Seq<char>>, Option<Seq<char>>),
    half: Half,
    volumes: Seq<BootloaderVolume>,
)
    ensures
        forall|i: int|
            0 <= i < volumes.len() ==> (selectable(config, half, #[trigger] volumes[i]) <==> match serial_of(
                config,
                half,
            ) {
                Some(s) => volumes[i].serial@ == s,
                None => serial_of(config, spec_other_half(half)) != Some(volumes[i].serial@),
            }),
        config.0 is None && config.1 is None && volumes.len() == 1 ==> only_selectable(
            config,
            half,
            volumes,
            0,
        ),
        forall|i: int|
            0 <= i < volumes.len() && serial_of(config, half) == Some((#[trigger] volumes[i]).serial@)
                && (forall|j: int|
                0 <= j < volumes.len() && j != i ==> volumes[j].serial@ != volumes[i].serial@)
                ==> only_selectable(config, half, volumes, i),
{
    assert forall|i: int|
        0 <= i < volumes.len() && serial_of(config, half) == Some((#[trigger] volumes[i]).serial@)
            && (forall|j: int| 0 <= j < volumes.len() && j != i ==> volumes[j].serial@ != volumes[i].serial@)
            implies only_selectable(config, half, volumes, i) by {
        assert forall|j: int|
            0 <= j < volumes.len() && selectable(config, half, #[trigger] volumes[j]) implies j == i by {
            if j != i {
                assert(volumes[j].serial@ == volumes[i].serial@);
            }
        }
    }
}

fn is_selectable(config: &FlashConfig, half: Half, volume: &BootloaderVolume) -> (r: bool)
    ensures
        r == selectable(config@, half, *volume),
{
    match config.serial_for_half(half) {
        Some(serial) => volume.serial == String::from_str(serial),
        None => match config.serial_for_half(other_half(half)) {
            Some(other) => volume.serial != String::from_str(other),
            None => true,
        },
    }
}

/// The one mounted volume to flash as `half`.
pub fn select_half_volume(config: &FlashConfig, half: Half, volumes: Vec<BootloaderVolume>) -> (r:
    Result<BootloaderVolume, FlashError>)
    ensures
        r is Ok <==> exists|i: int| only_selectable(config@, half, volumes@, i),
        match r {
            Ok(v) => exists|i: int| only_selectable(config@, half, volumes@, i) && v == volumes@[i],
            Err(e) => {
                &&& no_selectable(config@, half, volumes@) ==> e == none_selectable_error(config@, half)
                &&& two_selectable(config@, half, volumes@) ==> e == many_selectable_error(config@, half)
            },
        },
{
    let ghost vols = volumes@;
    let mut pool = volumes;
    let mut first: Option<usize> = None;
    let mut i: usize = 0;
    while i < pool.len()
        invariant
            pool@ == vols,
            vols == volumes@,
            i <= pool.len(),
            match first {
                Some(f) => f < i && selectable(config@, half, vols[f as int]) && forall|j: int|
                    0 <= j < i && selectable(config@, half, #[trigger] vols[j]) ==> j == f,
                None => forall|j: int| 0 <= j < i ==> !selectable(config@, half, #[trigger] vols[j]),
            },
        decreases pool.len() - i,
    {
        if is_selectable(config, half, &pool[i]) {
            match first {
                Some(f) => {
                    assert(selectable(config@, half, vols[f as int]));
                    assert(selectable(config@, half, vols[i as int]));
                    assert(two_selectable(config@, half, vols));
                    proof {
                        if no_selectable(config@, half, vols) {
                            assert(!selectable(config@, half, vols[f as int]));
                        }
                        if exists|k: int| only_selectable(config@, half, vols, k) {
                            let k = choose|k: int| only_selectable(config@, half, vols, k);
                            assert(f == k && i == k);
                        }
                    }
                    let e = if config.serial_for_half(half).is_some() {
                        FlashError::DuplicateRegisteredHalf(half)
                    } else {
                        FlashError::AmbiguousUnregisteredBootloaders(half)
                    };
                    return Err(e);
                },
                None => {
                    first = Some(i);
                },
            }
        }
        i = i + 1;
    }
    match first {
        None => {
            proof {
                if two_selectable(config@, half, vols) {
                    let (a, b) = choose|a: int, b: int|
                        0 <= a < b < vols.len() && selectable(config@, half, #[trigger] vols[a])
                            && selectable(config@, half, #[trigger] vols[b]);
                }
                if exists|k: int| only_selectable(config@, half, vols, k) {
                    let k = choose|k: int| only_selectable(config@, half, vols, k);
                    assert(selectable(config@, half, vols[k]));
                }
            }
            let e = if config.serial_for_half(half).is_some() {
                FlashError::RegisteredHalfMissing(half)
            } else {
                FlashError::NoUnregisteredBootloader(half)
            };
            Err(e)
        },
        Some(f) => {
            assert(only_selectable(config@, half, vols, f as int));
            Ok(pool.remove(f))
        },
    }
}

/// The half that a volume belongs to by its serial.
pub open spec fn volume_half(config: (Option<Seq<char>>, Option<Seq<char>>), volume: BootloaderVolume) -> Option<Half> {
    half_of_serial(config, volume.serial@)
}

pub open spec fn firmware_for(half: Half, left: Option<String>, right: Option<String>) -> Option<String> {
    match half {
        Half::Left => left,
        Half::Right => right,
    }
}

/// What is wrong with the volume at index `i`, given nothing is wrong
/// before it: its serial is unknown, its half was already seen, or its
/// half's firmware is missing.
pub open spec fn plan_problem(
    config: (Option<Seq<char>>, Option<Seq<char>>),
    volumes: Seq<BootloaderVolume>,
    left: Option<String>,
    right: Option<String>,
    i: int,
) -> Option<FlashError> {
    match volume_half(config, volumes[i]) {
        None => Some(FlashError::UnknownBootloader(volumes[i])),
        Some(h) => if exists|j: int| 0 <= j < i && volume_half(config, #[trigger] volumes[j]) == Some(h) {
            Some(FlashError::DuplicateHalf(h))
        } else if firmware_for(h, left, right) is None {
            Some(FlashError::MissingFirmware(h))
        } else {
            None
        },
    }
}

pub open spec fn plan_ok(
    config: (Option<Seq<char>>, Option<Seq<char>>),
    volumes: Seq<BootloaderVolume>,
    left: Option<String>,
    right: Option<String>,
) -> bool {
    forall|i: int| 0 <= i < volumes.len() ==> #[trigger] plan_problem(config, volumes, left, right, i) is None
}

/// The plan for the volume at index `i`.
pub open spec fn plan_for(
    config: (Option<Seq<char>>, Option<Seq<char>>),
    volumes: Seq<BootloaderVolume>,
    left: Option<String>,
    right: Option<String>,
    i: int,
) -> FlashPlan {
    let half = match volume_half(config, volumes[i]) {
        Some(h) => h,
        None => Half::Left,
    };
    FlashPlan {
        half,
        serial: volumes[i].serial,
        mount: volumes[i].mount,
        firmware: match firmware_for(half, left, right) {
            Some(f) => f,
            None => volumes[i].mount,
        },
    }
}

/// The plans of all volumes in order, then stably sorted with the left half first.
#[verifier::opaque]
pub open spec fn sorted_plans(
    config: (Option<Seq<char>>, Option<Seq<char>>),
    volumes: Seq<BootloaderVolume>,
    left: Option<String>,
    right: Option<String>,
) -> Seq<FlashPlan> {
    let plans = Seq::new(volumes.len(), |i: int| plan_for(config, volumes, left, right, i));
    plans.filter(|p: FlashPlan| p.half == Half::Left) + plans.filter(
        |p: FlashPlan| p.half == Half::Right,
    )
}

/// One plan per mounted volume, the left half first: every volume must
/// belong to a registered half, no half may appear twice, and the firmware
/// of each half present must be built (`left` and `right` are the built
/// images, `None` when missing).
pub fn plan_flashes(
    config: &FlashConfig,
    volumes: Vec<BootloaderVolume>,
    left: Option<String>,
    right: Option<String>,
) -> (r: Result<Vec<FlashPlan>, FlashError>)
    ensures
        r is Ok <==> plan_ok(config@, volumes@, left, right),
        match r {
            Ok(plans) => plans@ == sorted_plans(config@, volumes@, left, right),
            Err(e) => exists|i: int|
                0 <= i < volumes@.len() && plan_problem(config@, volumes@, left, right, i) == Some(e)
                    && forall|j: int|
                    0 <= j < i ==> #[trigger] plan_problem(config@, volumes@, left, right, j) is None,
        },
{
    let ghost vols = volumes@;
    let ghost cfg = config@;
    let ghost lf = left;
    let ghost rf = right;
    let mut remaining = volumes;
    let mut left_image = left;
    let mut right_image = right;
    let mut seen_left = false;
    let mut seen_right = false;
    let mut plans: Vec<FlashPlan> = Vec::new();
    let n = remaining.len();
    let mut i: usize = 0;
    assert(vols.skip(0) =~= vols);
    while i < n
        invariant
            n == vols.len(),
            cfg == config@,
            vols == volumes@,
            lf == left,
            rf == right,
            i <= n,
            remaining@ == vols.skip(i as int),
            forall|j: int| 0 <= j < i ==> #[trigger] plan_problem(cfg, vols, lf, rf, j) is None,
            seen_left == exists|j: int| 0 <= j < i && volume_half(cfg, #[trigger] vols[j]) == Some(Half::Left),
            seen_right == exists|j: int| 0 <= j < i && volume_half(cfg, #[trigger] vols[j]) == Some(Half::Right),
            left_image == (if seen_left { None } else { lf }),
            right_image == (if seen_right { None } else { rf }),
            plans@ == Seq::new(i as nat, |k: int| plan_for(cfg, vols, lf, rf, k)),
        decreases n - i,
    {
        let volume = remaining.remove(0);
        assert(volume == vols[i as int]);
        assert(remaining@ =~= vols.skip(i + 1));
        let half = match config.half_for_serial(volume.serial.as_str()) {
            Some(h) => h,
            None => {
                assert(plan_problem(cfg, vols, lf, rf, i as int) == Some(FlashError::UnknownBootloader(volume)));
                return Err(FlashError::UnknownBootloader(volume));
            },
        };
        let seen = match half {
            Half::Left => seen_left,
            Half::Right => seen_right,
        };
        if seen {
            assert(plan_problem(cfg, vols, lf, rf, i as int) == Some(FlashError::DuplicateHalf(half)));
            return Err(FlashError::DuplicateHalf(half));
        }
        let firmware = match half {
            Half::Left => left_image.take(),
            Half::Right => right_image.take(),
        };
        let firmware = match firmware {
            Some(f) => f,
            None => {
                assert(plan_problem(cfg, vols, lf, rf, i as int) == Some(FlashError::MissingFirmware(half)));
                return Err(FlashError::MissingFirmware(half));
            },
        };
        match half {
            Half::Left => {
                seen_left = true;
            },
            Half::Right => {
                seen_right = true;
            },
        }
        let ghost before = plans@;
        plans.push(FlashPlan { half, serial: volume.serial, mount: volume.mount, firmware });
        assert(plan_problem(cfg, vols, lf, rf, i as int) is None);
        assert(plans@ =~= Seq::new((i + 1) as nat, |k: int| plan_for(cfg, vols, lf, rf, k)));
        i = i + 1;
    }
    let ghost all = Seq::new(n as nat, |k: int| plan_for(cfg, vols, lf, rf, k));
    assert(plans@ == all);
    proof {
        lemma_plans_sorted(cfg, vols, lf, rf);
    }
    if plans.len() == 2 && plans[0].half == Half::Right {
        let second = plans.pop().unwrap();
        let first = plans.pop().unwrap();
        plans.push(second);
        plans.push(first);
        assert(plans@ =~= seq![all[1], all[0]]);
    }
    Ok(plans)
}

/// With nothing wrong, at most two volumes are planned, with different halves,
/// and sorting puts a right-half first plan after the left one.
proof fn lemma_plans_sorted(
    config: (Option<Seq<char>>, Option<Seq<char>>),
    volumes: Seq<BootloaderVolume>,
    left: Option<String>,
    right: Option<String>,
)
    requires
        plan_ok(config, volumes, left, right),
    ensures
        volumes.len() <= 2,
        ({
            let all = Seq::new(volumes.len(), |k: int| plan_for(config, volumes, left, right, k));
            &&& volumes.len() == 2 ==> all[0].half != all[1].half
            &&& sorted_plans(config, volumes, left, right) == if volumes.len() == 2 && all[0].half
                == Half::Right {
                seq![all[1], all[0]]
            } else {
                all
            }
        }),
{
    reveal(sorted_plans);
    let all = Seq::new(volumes.len(), |k: int| plan_for(config, volumes, left, right, k));
    if volumes.len() >= 2 {
        assert(plan_problem(config, volumes, left, right, 1) is None);
        assert(volume_half(config, volumes[1]) != volume_half(config, volumes[0]));
    }
    if volumes.len() >= 3 {
        assert(plan_problem(config, volumes, left, right, 0) is None);
        assert(plan_problem(config, volumes, left, right, 2) is None);
        assert(volume_half(config, volumes[2]) != volume_half(config, volumes[0]));
        assert(volume_half(config, volumes[2]) != volume_half(config, volumes[1]));
        assert(false);
    }
    let pl = |p: FlashPlan| p.half == Half::Left;
    let pr = |p: FlashPlan| p.half == Half::Right;
    reveal_with_fuel(Seq::filter, 3);
    if volumes.len() == 0 {
        assert(all.filter(pl) =~= Seq::<FlashPlan>::empty());
        assert(all.filter(pr) =~= Seq::<FlashPlan>::empty());
        assert(all =~= Seq::<FlashPlan>::empty());
    } else if volumes.len() == 1 {
        assert(all.drop_last() =~= Seq::<FlashPlan>::empty());
        if all[0].half == Half::Left {
            assert(all.filter(pl) =~= all);
            assert(all.filter(pr) =~= Seq::<FlashPlan>::empty());
        } else {
            assert(all.filter(pr) =~= all);
            assert(all.filter(pl) =~= Seq::<FlashPlan>::empty());
        }
        assert(sorted_plans(config, volumes, left, right) =~= all);
    } else {
        assert(plan_problem(config, volumes, left, right, 0) is None);
        assert(plan_problem(config, volumes, left, right, 1) is None);
        assert(all.drop_last() =~= seq![all[0]]);
        assert(all.drop_last().drop_last() =~= Seq::<FlashPlan>::empty());
        if all[0].half == Half::Left {
            assert(all.filter(pl) =~= seq![all[0]]);
            assert(all.filter(pr) =~= seq![all[1]]);
            assert(sorted_plans(config, volumes, left, right) =~= all);
        } else {
            assert(all.filter(pl) =~= seq![all[1]]);
            assert(all.filter(pr) =~= seq![all[0]]);
            assert(sorted_plans(config, volumes, left, right) =~= seq![all[1], all[0]]);
        }
    }
}

/// A volume with nothing wrong is planned for the half its serial is
/// registered to, with that half's firmware.
proof fn lemma_plan_entry(
    config: (Option<Seq<char>>, Option<Seq<char>>),
    volumes: Seq<BootloaderVolume>,
    left: Option<String>,
    right: Option<String>,
    k: int,
)
    requires
        0 <= k < volumes.len(),
        plan_problem(config, volumes, left, right, k) is None,
    ensures
        ({
            let p = plan_for(config, volumes, left, right, k);
            &&& half_of_serial(config, p.serial@) == Some(p.half)
            &&& firmware_for(p.half, left, right) == Some(p.firmware)
            &&& p.mount == volumes[k].mount
            &&& p.serial == volumes[k].serial
        }),
{
}

/// A plan that goes through flashes every mounted volume, each half at most
/// once and the left half first, and writes to each volume the firmware
/// built for the half that its serial is registered to.
pub proof fn lemma_plan_flashes_each_half_once(
    config: (Option<Seq<char>>, Option<Seq<char>>),
    volumes: Seq<BootloaderVolume>,
    left: Option<String>,
    right: Option<String>,
)
    requires
        plan_ok(config, volumes, left, right),
    ensures
        ({
            let p = sorted_plans(config, volumes, left, right);
            &&& p.len() == volumes.len() <= 2
            &&& forall|i: int, j: int|
                0 <= i < j < p.len() ==> (#[trigger] p[i]).half == Half::Left && (#[trigger] p[j]).half
                    == Half::Right
            &&& forall|i: int|
                0 <= i < p.len() ==> half_of_serial(config, (#[trigger] p[i]).serial@) == Some(p[i].half)
                    && firmware_for(p[i].half, left, right) == Some(p[i].firmware)
            &&& forall|k: int|
                0 <= k < volumes.len() ==> exists|i: int|
                    0 <= i < p.len() && (#[trigger] p[i]).mount == (#[trigger] volumes[k]).mount
                        && p[i].serial == volumes[k].serial
        }),
{
    lemma_plans_sorted(config, volumes, left, right);
    let all = Seq::new(volumes.len(), |k: int| plan_for(config, volumes, left, right, k));
    let p = sorted_plans(config, volumes, left, right);
    if volumes.len() == 1 {
        lemma_plan_entry(config, volumes, left, right, 0);
        assert(p[0] == all[0]);
    } else if volumes.len() == 2 {
        lemma_plan_entry(config, volumes, left, right, 0);
        lemma_plan_entry(config, volumes, left, right, 1);
        if all[0].half == Half::Right {
            assert(p[0] == all[1] && p[1] == all[0]);
        } else {
            assert(p[0] == all[0] && p[1] == all[1]);
        }
    }
    assert forall|k: int| 0 <= k < volumes.len() implies exists|i: int|
        0 <= i < p.len() && (#[trigger] p[i]).mount == (#[trigger] volumes[k]).mount && p[i].serial
            == volumes[k].serial by {
        if k == 0 {
            if p[0].mount == volumes[0].mount && p[0].serial == volumes[0].serial {
            } else {
                assert(p[1].mount == volumes[0].mount);
            }
        } else {
            if p[1].mount == volumes[1].mount && p[1].serial == volumes[1].serial {
            } else {
                assert(p[0].mount == volumes[1].mount);
            }
        }
    }
}

// ---------------------------------------------------------------------------
// Mounted bootloaders
// ---------------------------------------------------------------------------

/// Devices keyed by location; of two devices at one location the later counts.
pub open spec fn device_table(ds: Seq<(u32, Seq<char>, Seq<char>)>) -> Map<u32, (u32, Seq<char>, Seq<char>)>
    decreases ds.len(),
{
    if ds.len() == 0 {
        Map::empty()
    } else {
        device_table(ds.drop_last()).insert(ds.last().0, ds.last())
    }
}

/// A location maps to the last device listed at it, and a location where no
/// device is listed is not in the table.
pub proof fn lemma_device_table_last(ds: Seq<(u32, Seq<char>, Seq<char>)>, location: u32)
    ensures
        device_table(ds).contains_key(location) <==> exists|i: int|
            0 <= i < ds.len() && (#[trigger] ds[i]).0 == location,
        device_table(ds).contains_key(location) ==> exists|i: int|
            0 <= i < ds.len() && ds[i] == device_table(ds)[location] && ds[i].0 == location
                && forall|j: int| i < j < ds.len() ==> (#[trigger] ds[j]).0 != location,
    decreases ds.len(),
{
    if ds.len() > 0 {
        let n = ds.len() - 1;
        let d = ds.drop_last();
        lemma_device_table_last(d, location);
        if ds.last().0 == location {
            assert(ds[n].0 == location);
        } else {
            if device_table(ds).contains_key(location) {
                let i = choose|i: int|
                    0 <= i < d.len() && d[i] == device_table(d)[location] && d[i].0 == location
                        && forall|j: int| i < j < d.len() ==> (#[trigger] d[j]).0 != location;
                assert(ds[i] == d[i]);
                assert forall|j: int| i < j < ds.len() implies (#[trigger] ds[j]).0 != location by {
                    if j < n {
                        assert(ds[j] == d[j]);
                    }
                }
            }
            if exists|i: int| 0 <= i < ds.len() && (#[trigger] ds[i]).0 == location {
                let i = choose|i: int| 0 <= i < ds.len() && (#[trigger] ds[i]).0 == location;
                assert(i < n);
                assert(d[i] == ds[i]);
            }
            if exists|i: int| 0 <= i < d.len() && (#[trigger] d[i]).0 == location {
                let i = choose|i: int| 0 <= i < d.len() && (#[trigger] d[i]).0 == location;
                assert(ds[i] == d[i]);
            }
        }
    }
}

/// The USB devices of an `ioreg -l` listing, keyed by location.
pub fn usb_devices(ioreg_output: &str) -> (r: HashMap<u32, UsbDevice>)
    ensures
        r@.map_values(|d: UsbDevice| d@) == device_table(ioreg_devices(ioreg_output@)),
{
    broadcast use vstd::std_specs::hash::group_hash_axioms;

    let devices = parse_ioreg(ioreg_output);
    let ghost all = devices_view(devices@);
    let mut rest = devices;
    let mut table: HashMap<u32, UsbDevice> = HashMap::new();
    let n = rest.len();
    let mut i: usize = 0;
    assert(all.take(0) =~= Seq::<(u32, Seq<char>, Seq<char>)>::empty());
    assert(table@.map_values(|d: UsbDevice| d@) =~= device_table(all.take(0)));
    while i < n
        invariant
            n == all.len(),
            i <= n,
            all == ioreg_devices(ioreg_output@),
            devices_view(rest@) == all.skip(i as int),
            table@.map_values(|d: UsbDevice| d@) == device_table(all.take(i as int)),
        decreases n - i,
    {
        assert(devices_view(rest@).len() == rest@.len());
        assert(devices_view(rest@)[0] == all[i as int]);
        let ghost before = rest@;
        let device = rest.remove(0);
        assert(rest@ =~= before.skip(1));
        assert(devices_view(rest@) =~= all.skip(i + 1)) by {
            assert forall|k: int| 0 <= k < rest@.len() implies #[trigger] devices_view(rest@)[k]
                == all.skip(i + 1)[k] by {
                assert(rest@[k] == before[k + 1]);
                assert(devices_view(before)[k + 1] == all.skip(i as int)[k + 1]);
            }
        }
        let ghost old_table = table@;
        assert(all.take(i + 1).drop_last() =~= all.take(i as int));
        assert(all.take(i + 1).last() == device@);
        table.insert(device.location, device);
        assert(table@.map_values(|d: UsbDevice| d@) =~= device_table(all.take(i + 1)));
        i = i + 1;
    }
    assert(all.take(n as int) =~= all);
    table
}

/// Whether a volume name marks a Dao bootloader (`NRF52BOOT`, `NRF52BOOT 1`, ...).
pub fn is_boot_volume_name(name: &str) -> (r: bool)
    ensures
        r == (name@.len() >= BOOT_VOLUME_PREFIX@.len() && name@.take(
            BOOT_VOLUME_PREFIX@.len() as int,
        ) == BOOT_VOLUME_PREFIX@),
{
    let chars = to_chars(name);
    let prefix = to_chars(BOOT_VOLUME_PREFIX);
    if chars.len() < prefix.len() {
        return false;
    }
    let head = copy_range(chars.as_slice(), 0, prefix.len());
    assert(head@ =~= name@.take(prefix@.len() as int));
    chars_eq(head.as_slice(), prefix.as_slice())
}

/// An `INFO_UF2.TXT` that names the nRF52840 DK board the Dao halves use.
pub open spec fn dao_uf2_identity(info: Seq<char>) -> bool {
    contains_seq(info, "Model: Nordic nRF52840 DK"@) && contains_seq(
        info,
        "Board-ID: nRF52840-pca10056-v1"@,
    )
}

/// Whether an `INFO_UF2.TXT` names the board the Dao halves use.
pub fn is_dao_bootloader_info(info: &str) -> (r: bool)
    ensures
        r == dao_uf2_identity(info@),
{
    let chars = to_chars(info);
    let model = to_chars("Model: Nordic nRF52840 DK");
    let board = to_chars("Board-ID: nRF52840-pca10056-v1");
    proof {
        lemma_find(info@, model@);
        lemma_find(info@, board@);
    }
    find_chars(chars.as_slice(), model.as_slice()).is_some() && find_chars(
        chars.as_slice(),
        board.as_slice(),
    ).is_some()
}

/// Accepts a volume whose `INFO_UF2.TXT` names the Dao board, and refuses
/// any other volume that is named like a Dao bootloader.
pub fn check_bootloader_identity(info: &str) -> (r: Result<(), FlashError>)
    ensures
        r is Ok <==> dao_uf2_identity(info@),
        r is Err ==> r == Err::<(), FlashError>(FlashError::UnexpectedUf2Identity),
{
    if is_dao_bootloader_info(info) {
        Ok(())
    } else {
        Err(FlashError::UnexpectedUf2Identity)
    }
}

/// The bootloader volume mounted at `mount`: its disk's device-tree path
/// gives a USB location, and the device there must be a `PCA10056`.
pub open spec fn volume_of_disk(
    mount: String,
    disk_info: Seq<char>,
    devices: Map<u32, UsbDevice>,
) -> Result<BootloaderVolume, FlashError> {
    match plist_value(disk_info, "DeviceTreePath"@) {
        None => Err(FlashError::NoDeviceTreePath),
        Some(path) => match device_tree_location(path) {
            Err(e) => Err(e),
            Ok(location) => if !devices.contains_key(location) {
                Err(FlashError::UnknownUsbLocation(location))
            } else if devices[location].product@ != "PCA10056"@ {
                Err(FlashError::UnexpectedProduct(devices[location].product))
            } else {
                Ok(BootloaderVolume { mount, serial: devices[location].serial })
            },
        },
    }
}

/// The bootloader volume mounted at `mount`, from its `diskutil info -plist` output.
pub fn volume_for_disk(mount: String, disk_info: &str, devices: &HashMap<u32, UsbDevice>) -> (r:
    Result<BootloaderVolume, FlashError>)
    ensures
        r == volume_of_disk(mount, disk_info@, devices@),
{
    broadcast use vstd::std_specs::hash::group_hash_axioms;

    let path = match plist_string(disk_info, "DeviceTreePath") {
        Some(p) => p,
        None => {
            return Err(FlashError::NoDeviceTreePath);
        },
    };
    let location = match location_from_device_tree_path(path.as_str()) {
        Ok(l) => l,
        Err(e) => {
            return Err(e);
        },
    };
    let device = match devices.get(&location) {
        Some(d) => d,
        None => {
            return Err(FlashError::UnknownUsbLocation(location));
        },
    };
    let expected = String::from_str("PCA10056");
    if device.product != expected {
        return Err(FlashError::UnexpectedProduct(device.product.clone()));
    }
    Ok(BootloaderVolume { mount, serial: device.serial.clone() })
}

/// The outcome of choosing the volume for an explicitly named half.
pub struct HalfRegistration {
    /// The registration to plan with.
    pub config: FlashConfig,
    /// The volume to flash.
    pub volume: BootloaderVolume,
    /// The new `.env` text when the half was not registered before.
    pub updated_env: Option<String>,
}

/// The volume that is the only one selectable as `half`.
pub open spec fn chosen_volume(
    config: (Option<Seq<char>>, Option<Seq<char>>),
    half: Half,
    volumes: Seq<BootloaderVolume>,
) -> BootloaderVolume {
    volumes[choose|i: int| only_selectable(config, half, volumes, i)]
}

/// Chooses the volume for `half` and, when the half is not registered yet,
/// records the volume's serial in the `.env` text and reads it back.
pub fn register_half(existing: &str, half: Half, volumes: Vec<BootloaderVolume>) -> (r: Result<
    HalfRegistration,
    FlashError,
>)
    ensures
        match config_of_env(existing@) {
            Err(f) => r matches Err(e) && e == f,
            Ok(config) => if !(exists|i: int| only_selectable(config, half, volumes@, i)) {
                &&& r is Err
                &&& r matches Err(e) ==> (no_selectable(config, half, volumes@) ==> e
                    == none_selectable_error(config, half)) && (two_selectable(
                    config,
                    half,
                    volumes@,
                ) ==> e == many_selectable_error(config, half))
            } else {
                let volume = chosen_volume(config, half, volumes@);
                if serial_of(config, half) is Some {
                    r matches Ok(reg) && reg.volume == volume && reg.updated_env is None
                        && reg.config@ == config
                } else {
                    match env_with_value(existing@, half_env_key(half), volume.serial@) {
                        Err(f) => r matches Err(e) && e == f,
                        Ok(text) => {
                            &&& match config_of_env(text) {
                                Err(f) => r matches Err(e) && e == f,
                                Ok(read) => r matches Ok(reg) && reg.volume == volume
                                    && reg.config@ == read && opt_view(reg.updated_env) == Some(
                                    text,
                                ),
                            }
                            &&& env_value_clean(volume.serial@) ==> config_of_env(text) == Ok::<
                                _,
                                FlashError,
                            >(with_serial(config, half, volume.serial@))
                        },
                    }
                }
            },
        },
{
    let config = match FlashConfig::from_env(existing) {
        Ok(c) => c,
        Err(e) => {
            return Err(e);
        },
    };
    let ghost vols = volumes@;
    let volume = match select_half_volume(&config, half, volumes) {
        Ok(v) => v,
        Err(e) => {
            return Err(e);
        },
    };
    let ghost i = choose|i: int| only_selectable(config@, half, vols, i) && volume == vols[i];
    proof {
        let k = choose|k: int| only_selectable(config@, half, vols, k);
        assert(k == i);
    }
    if config.serial_for_half(half).is_some() {
        return Ok(HalfRegistration { config, volume, updated_env: None });
    }
    let updated = match upsert_env(existing, half.env_key(), volume.serial.as_str()) {
        Ok(u) => u,
        Err(e) => {
            return Err(e);
        },
    };
    proof {
        if env_value_clean(volume.serial@) {
            assert(selectable(config@, half, volume));
            lemma_registration_read_back(existing@, half, volume.serial@);
        }
    }
    let read = match FlashConfig::from_env(updated.as_str()) {
        Ok(c) => c,
        Err(e) => {
            return Err(e);
        },
    };
    Ok(HalfRegistration { config: read, volume, updated_env: Some(updated) })
}

} // verus!
