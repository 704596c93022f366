//! The experiment configuration: lines of the form `key: value`, and the
//! parameters that the two parties read from them.

use vstd::hash_map::StringHashMap;
use vstd::prelude::*;

verus! {

/// The index of the first `": "` in `s` that starts at or after `from`.
pub open spec fn find_separator(s: Seq<char>, from: nat) -> Option<nat>
    decreases s.len() - from,
{
    if from + 1 >= s.len() {
        None
    } else if s[from as int] == ':' && s[from + 1int] == ' ' {
        Some(from)
    } else {
        find_separator(s, from + 1)
    }
}

/// The key and value of a configuration line: the text before the first
/// `": "`, and the text between it and the next `": "` (or the end of the
/// line). `None` when the line holds no `": "`.
pub open spec fn config_line(s: Seq<char>) -> Option<(Seq<char>, Seq<char>)> {
    match find_separator(s, 0) {
        None => None,
        Some(i) => {
            let end = match find_separator(s, i + 2) {
                None => s.len() as int,
                Some(j) => j as int,
            };
            Some((s.subrange(0, i as int), s.subrange(i + 2int, end)))
        },
    }
}

/// Whether every non-empty line is a `key: value` line.
pub open spec fn well_formed_lines(lines: Seq<Seq<char>>) -> bool {
    forall|i: int| 0 <= i < lines.len() && lines[i].len() > 0 ==> (#[trigger] config_line(
        lines[i],
    )) is Some
}

/// The parameters that `lines` set, a later line overriding an earlier one
/// with the same key; empty lines are skipped.
pub open spec fn config_map(lines: Seq<Seq<char>>) -> Map<Seq<char>, Seq<char>>
    decreases lines.len(),
{
    if lines.len() == 0 {
        Map::empty()
    } else {
        let earlier = config_map(lines.drop_last());
        match config_line(lines.last()) {
            Some((k, v)) => earlier.insert(k, v),
            None => earlier,
        }
    }
}

/// Whether `c` is one of the ASCII digits.
pub open spec fn is_digit(c: char) -> bool {
    '0' <= c && c <= '9'
}

/// The number that the decimal digits `s` write.
pub open spec fn digits_value(s: Seq<char>) -> nat
    decreases s.len(),
{
    if s.len() == 0 {
        0
    } else {
        digits_value(s.drop_last()) * 10 + ((s.last() as int) - ('0' as int)) as nat
    }
}

/// The digits of an unsigned number in `s`: `s` without one leading `+`.
pub open spec fn unsigned_digits(s: Seq<char>) -> Seq<char> {
    if s.len() > 0 && s[0] == '+' {
        s.drop_first()
    } else {
        s
    }
}

/// What `str::parse::<usize>` gives on `s`: an optional `+`, then at least one
/// ASCII digit and nothing else, of a value that fits a `usize`.
pub open spec fn parsed_usize(s: Seq<char>) -> Option<usize> {
    let d = unsigned_digits(s);
    if d.len() > 0 && (forall|i: int| 0 <= i < d.len() ==> is_digit(#[trigger] d[i]))
        && digits_value(d) <= usize::MAX {
        Some(digits_value(d) as usize)
    } else {
        None
    }
}

proof fn lemma_digits_value_prefix(s: Seq<char>, k: int)
    requires
        0 <= k <= s.len(),
        forall|i: int| 0 <= i < s.len() ==> is_digit(#[trigger] s[i]),
    ensures
        digits_value(s.take(k)) <= digits_value(s),
    decreases s.len() - k,
{
    if k == s.len() {
        assert(s.take(k) =~= s);
    } else {
        lemma_digits_value_prefix(s, k + 1);
        assert(s.take(k + 1).drop_last() =~= s.take(k));
        assert(is_digit(s[k]));
    }
}

/// The number that `s` writes in decimal, as `str::parse::<usize>` reads it.
pub fn parse_usize(s: &str) -> (n: Option<usize>)
    ensures
        n == parsed_usize(s@),
{
    let len = s.unicode_len();
    let mut start: usize = 0;
    if len > 0 && s.get_char(0) == '+' {
        start = 1;
    }
    let ghost d = unsigned_digits(s@);
    assert(d =~= s@.subrange(start as int, len as int));
    if start == len {
        return None;
    }
    let mut acc: usize = 0;
    let mut i: usize = start;
    while i < len
        invariant
            start <= i <= len,
            len == s@.len(),
            d =~= s@.subrange(start as int, len as int),
            d == unsigned_digits(s@),
            forall|k: int| 0 <= k < i - start ==> is_digit(#[trigger] d[k]),
            acc == digits_value(d.take(i - start)),
        decreases len - i,
    {
        let c = s.get_char(i);
        if !('0' <= c && c <= '9') {
            assert(!is_digit(d[i - start]));
            return None;
        }
        let digit: usize = ((c as u32) - ('0' as u32)) as usize;
        assert(d.take(i - start + 1).drop_last() =~= d.take(i - start));
        match acc.checked_mul(10) {
            Some(m) => match m.checked_add(digit) {
                Some(v) => {
                    acc = v;
                },
                None => {
                    proof {
                        if forall|k: int| 0 <= k < d.len() ==> is_digit(#[trigger] d[k]) {
                            lemma_digits_value_prefix(d, i - start + 1);
                        }
                    }
                    return None;
                },
            },
            None => {
                proof {
                    if forall|k: int| 0 <= k < d.len() ==> is_digit(#[trigger] d[k]) {
                        lemma_digits_value_prefix(d, i - start + 1);
                    }
                }
                return None;
            },
        }
        i = i + 1;
    }
    assert(d.take(len - start) =~= d);
    Some(acc)
}

} // verus!

verus! {

/// The first `": "` in `s` at or after `from`.
fn find_separator_from(s: &str, len: usize, from: usize) -> (r: Option<usize>)
    requires
        len == s@.len(),
        from <= len,
    ensures
        r is Some <==> find_separator(s@, from as nat) is Some,
        r matches Some(j) ==> find_separator(s@, from as nat) == Some(j as nat) && from <= j && j
            + 1 < len,
{
    let mut i: usize = from;
    while i < len && len - i > 1
        invariant
            from <= i <= len,
            len == s@.len(),
            find_separator(s@, from as nat) == find_separator(s@, i as nat),
        decreases len - i,
    {
        if s.get_char(i) == ':' && s.get_char(i + 1) == ' ' {
            return Some(i);
        }
        i = i + 1;
    }
    None
}

/// The key and value of a `key: value` line; `None` when the line holds no
/// `": "`.
pub fn split_config_line(line: &str) -> (r: Option<(String, String)>)
    ensures
        match r {
            None => config_line(line@) is None,
            Some((k, v)) => config_line(line@) == Some((k@, v@)),
        },
{
    let len = line.unicode_len();
    match find_separator_from(line, len, 0) {
        None => None,
        Some(i) => {
            let end = match find_separator_from(line, len, i + 2) {
                None => len,
                Some(j) => j,
            };
            let key = line.substring_char(0, i).to_owned();
            let value = line.substring_char(i + 2, end).to_owned();
            Some((key, value))
        },
    }
}

/// The experiment parameters: a map from keys to values.
pub struct Config {
    map: StringHashMap<String>,
}

impl View for Config {
    type V = Map<Seq<char>, Seq<char>>;

    closed spec fn view(&self) -> Map<Seq<char>, Seq<char>> {
        self.map@.map_values(|v: String| v@)
    }
}

impl Config {
    /// The configuration that sets nothing.
    pub fn new() -> (c: Config)
        ensures
            c@ == Map::<Seq<char>, Seq<char>>::empty(),
    {
        let c = Config { map: StringHashMap::new() };
        assert(c@ =~= Map::<Seq<char>, Seq<char>>::empty());
        c
    }

    /// Sets `key` to `value`, replacing an earlier value of `key`.
    pub fn insert(&mut self, key: String, value: String)
        ensures
            final(self)@ == old(self)@.insert(key@, value@),
    {
        self.map.insert(key, value);
        assert(self@ =~= old(self)@.insert(key@, value@));
    }

    /// The value of `key`, if it is set.
    pub fn get(&self, key: &str) -> (v: Option<&String>)
        ensures
            match v {
                None => !self@.contains_key(key@),
                Some(s) => self@.contains_key(key@) && s@ == self@[key@],
            },
    {
        self.map.get(key)
    }
}

/// The views of `lines`.
pub open spec fn line_views(lines: Seq<String>) -> Seq<Seq<char>> {
    lines.map_values(|l: String| l@)
}

/// The parameters that the lines of a configuration file set: each non-empty
/// line is `key: value`, and a later line overrides an earlier one.
pub fn parse_config_lines(lines: &Vec<String>) -> (c: Config)
    requires
        well_formed_lines(line_views(lines@)),
    ensures
        c@ == config_map(line_views(lines@)),
{
    let mut c = Config::new();
    let mut i: usize = 0;
    while i < lines.len()
        invariant
            i <= lines.len(),
            well_formed_lines(line_views(lines@)),
            c@ == config_map(line_views(lines@).take(i as int)),
        decreases lines.len() - i,
    {
        proof {
            assert(line_views(lines@).take(i + 1).drop_last() =~= line_views(lines@).take(i as int));
            assert(line_views(lines@)[i as int] == lines@[i as int]@);
        }
        let line = lines[i].as_str();
        if line.unicode_len() > 0 {
            match split_config_line(line) {
                Some((k, v)) => {
                    c.insert(k, v);
                },
                None => {
                    assert(config_line(line_views(lines@)[i as int]) is Some);
                },
            }
        } else {
            assert(config_line(line@) is None);
        }
        i = i + 1;
    }
    assert(line_views(lines@).take(lines.len() as int) =~= line_views(lines@));
    c
}

/// The server's address and the two parties' set sizes.
pub fn get_config_experiments(parameters: &Config) -> (r: (String, usize, usize))
    requires
        parameters@.contains_key("address"@),
        parameters@.contains_key("client_set_size"@),
        parameters@.contains_key("server_set_size"@),
        parsed_usize(parameters@["client_set_size"@]) is Some,
        parsed_usize(parameters@["server_set_size"@]) is Some,
    ensures
        r.0@ == parameters@["address"@],
        Some(r.1) == parsed_usize(parameters@["client_set_size"@]),
        Some(r.2) == parsed_usize(parameters@["server_set_size"@]),
{
    let address = parameters.get("address").unwrap().clone();
    let client_set_size = parse_usize(parameters.get("client_set_size").unwrap().as_str()).unwrap();
    let server_set_size = parse_usize(parameters.get("server_set_size").unwrap().as_str()).unwrap();
    (address, client_set_size, server_set_size)
}

} // verus!

verus! {

/// Whether `s` holds `": "` at position `i`.
pub open spec fn separator_at(s: Seq<char>, i: int) -> bool {
    0 <= i && i + 1 < s.len() && s[i] == ':' && s[i + 1] == ' '
}

/// Whether `s` holds no `": "`.
pub open spec fn has_no_separator(s: Seq<char>) -> bool {
    forall|i: int| !#[trigger] separator_at(s, i)
}

/// The line that sets `key` to `value`: the key, `": "`, the value.
pub open spec fn setting_line(key: Seq<char>, value: Seq<char>) -> Seq<char> {
    key + seq![':', ' '] + value
}

/// The ASCII digit of `d`, for `d` below ten.
pub open spec fn digit_char(d: nat) -> char {
    (('0' as int) + d) as char
}

/// The decimal text of `n` as `to_string` writes an unsigned number: its
/// digits, with no sign and no leading zero.
pub open spec fn decimal(n: nat) -> Seq<char>
    decreases n,
{
    if n < 10 {
        seq![digit_char(n)]
    } else {
        decimal(n / 10).push(digit_char(n % 10))
    }
}

proof fn lemma_find_separator_first(s: Seq<char>, from: nat, j: nat)
    requires
        from <= j,
        separator_at(s, j as int),
        forall|i: int| from <= i < j ==> !#[trigger] separator_at(s, i),
    ensures
        find_separator(s, from) == Some(j),
    decreases j - from,
{
    if from < j {
        assert(!separator_at(s, from as int));
        lemma_find_separator_first(s, from + 1, j);
    }
}

proof fn lemma_find_separator_none(s: Seq<char>, from: nat)
    requires
        forall|i: int| from <= i ==> !#[trigger] separator_at(s, i),
    ensures
        find_separator(s, from) is None,
    decreases s.len() - from,
{
    if from + 1 < s.len() {
        assert(!separator_at(s, from as int));
        lemma_find_separator_none(s, from + 1);
    }
}

/// A line made of a key and a value that hold no `": "` reads back as that
/// key and that value.
pub proof fn lemma_setting_line(key: Seq<char>, value: Seq<char>)
    requires
        has_no_separator(key),
        has_no_separator(value),
    ensures
        config_line(setting_line(key, value)) == Some((key, value)),
{
    let line = setting_line(key, value);
    let k = key.len();
    assert(separator_at(line, k as int));
    assert forall|i: int| 0 <= i < k implies !#[trigger] separator_at(line, i) by {
        if i + 1 < k {
            assert(!separator_at(key, i));
        }
    }
    lemma_find_separator_first(line, 0, k);
    assert forall|i: int| k + 2 <= i implies !#[trigger] separator_at(line, i) by {
        assert(!separator_at(value, i - k - 2));
    }
    lemma_find_separator_none(line, k + 2);
    assert(line.subrange(0, k as int) =~= key);
    assert(line.subrange(k + 2int, line.len() as int) =~= value);
}

/// The decimal text of `n` is the canonical one: at least one digit, only
/// digits, read back as `n`, and no leading zero (a text that starts with
/// `0` is the text of zero).
pub proof fn lemma_decimal(n: nat)
    ensures
        decimal(n).len() > 0,
        forall|i: int| 0 <= i < decimal(n).len() ==> is_digit(#[trigger] decimal(n)[i]),
        digits_value(decimal(n)) == n,
        decimal(n)[0] == '0' ==> n == 0,
        has_no_separator(decimal(n)),
    decreases n,
{
    assert((digit_char(n % 10) as int) == ('0' as int) + n % 10);
    if n < 10 {
        let d = decimal(n);
        assert(d.drop_last() =~= Seq::<char>::empty());
        assert(digits_value(d) == digits_value(d.drop_last()) * 10 + ((d.last() as int) - ('0' as int)) as nat);
    } else {
        lemma_decimal(n / 10);
        let d = decimal(n);
        assert(d.drop_last() =~= decimal(n / 10));
        assert(d.last() == digit_char(n % 10));
        assert(n == (n / 10) * 10 + n % 10);
        assert(d[0] == decimal(n / 10)[0]);
        assert forall|i: int| 0 <= i < d.len() implies is_digit(#[trigger] d[i]) by {
            if i < d.len() - 1 {
                assert(d[i] == decimal(n / 10)[i]);
            }
        }
        assert forall|i: int| !#[trigger] separator_at(d, i) by {
            if 0 <= i && i + 1 < d.len() {
                assert(is_digit(d[i]));
            }
        }
    }
}

/// `str::parse::<usize>` reads back the decimal text of every `usize`.
pub proof fn lemma_parse_decimal(n: usize)
    ensures
        parsed_usize(decimal(n as nat)) == Some(n),
{
    lemma_decimal(n as nat);
    let d = decimal(n as nat);
    assert(is_digit(d[0]));
    assert(unsigned_digits(d) == d);
}

/// The three configuration lines that give the server's address and the two
/// set sizes, written in decimal, set exactly those parameters, and
/// `get_config_experiments` reads them back: the address, then `n` and `m`.
pub proof fn lemma_experiment_config(address: Seq<char>, n: usize, m: usize)
    requires
        has_no_separator(address),
    ensures
        ({
            let lines = seq![
                setting_line("address"@, address),
                setting_line("client_set_size"@, decimal(n as nat)),
                setting_line("server_set_size"@, decimal(m as nat)),
            ];
            &&& well_formed_lines(lines)
            &&& config_map(lines) == map![
                "address"@ => address,
                "client_set_size"@ => decimal(n as nat),
                "server_set_size"@ => decimal(m as nat),
            ]
            &&& parsed_usize(config_map(lines)["client_set_size"@]) == Some(n)
            &&& parsed_usize(config_map(lines)["server_set_size"@]) == Some(m)
        }),
{
    reveal_strlit("address");
    reveal_strlit("client_set_size");
    reveal_strlit("server_set_size");
    let k1 = "address"@;
    let k2 = "client_set_size"@;
    let k3 = "server_set_size"@;
    assert(has_no_separator(k1));
    assert(has_no_separator(k2));
    assert(has_no_separator(k3));
    lemma_decimal(n as nat);
    lemma_decimal(m as nat);
    lemma_setting_line(k1, address);
    lemma_setting_line(k2, decimal(n as nat));
    lemma_setting_line(k3, decimal(m as nat));
    lemma_parse_decimal(n);
    lemma_parse_decimal(m);
    let lines = seq![
        setting_line(k1, address),
        setting_line(k2, decimal(n as nat)),
        setting_line(k3, decimal(m as nat)),
    ];
    let l2 = seq![setting_line(k1, address), setting_line(k2, decimal(n as nat))];
    let l1 = seq![setting_line(k1, address)];
    assert(lines.drop_last() =~= l2);
    assert(l2.drop_last() =~= l1);
    assert(l1.drop_last() =~= Seq::<Seq<char>>::empty());
    assert(config_map(Seq::<Seq<char>>::empty()) == Map::<Seq<char>, Seq<char>>::empty());
    assert(config_map(l1) == Map::<Seq<char>, Seq<char>>::empty().insert(k1, address));
    assert(config_map(l2) == config_map(l1).insert(k2, decimal(n as nat)));
    assert(config_map(lines) == config_map(l2).insert(k3, decimal(m as nat)));
    assert(k1 != k2 && k1 != k3 && k2 != k3) by {
        assert(k1.len() != k2.len());
        assert(k1.len() != k3.len());
        assert(k2[0] != k3[0]);
    }
    assert(config_map(lines) =~= map![k1 => address, k2 => decimal(n as nat), k3 => decimal(m as nat)]);
}

} // verus!
