//! The account record and its field-tagged text encoding, a JSON object of
//! the form `{"id":42,"balance_cents":-7,"name":"John \"JD\" Doe"}`. The name
//! uses JSON's string escapes.
use vstd::prelude::*;
use crate::text::{
    chars_of, decimal, lemma_read_decimal, parse_u64, push_decimal, read_u64, string_of,
};

verus! {

/// An account as the origin returns it; the amount is in minor units.
#[derive(Debug)]
pub struct Account {
    pub id: u64,
    pub balance_cents: i64,
    pub name: String,
}

/// Why a stored value could not be read back as an account.
#[derive(Debug, Clone, Copy, PartialEq, Eq, Structural)]
pub enum DecodeError {
    Malformed,
}

pub open spec fn id_tag() -> Seq<char> {
    seq!['{', '"', 'i', 'd', '"', ':']
}

pub open spec fn balance_tag() -> Seq<char> {
    seq![',', '"', 'b', 'a', 'l', 'a', 'n', 'c', 'e', '_', 'c', 'e', 'n', 't', 's', '"', ':']
}

pub open spec fn name_tag() -> Seq<char> {
    seq![',', '"', 'n', 'a', 'm', 'e', '"', ':', '"']
}

pub open spec fn closing() -> Seq<char> {
    seq!['"', '}']
}

pub open spec fn signed_decimal(b: int) -> Seq<char> {
    if b < 0 {
        seq!['-'] + decimal((-b) as nat)
    } else {
        decimal(b as nat)
    }
}

/// The letter that follows the backslash in JSON's two-character escapes.
pub open spec fn short_escape(c: char) -> Option<char> {
    if c == '"' {
        Some('"')
    } else if c == '\\' {
        Some('\\')
    } else if c == '\n' {
        Some('n')
    } else if c == '\r' {
        Some('r')
    } else if c == '\t' {
        Some('t')
    } else if c == '\x08' {
        Some('b')
    } else if c == '\x0c' {
        Some('f')
    } else {
        None
    }
}

pub open spec fn hex_digit(d: int) -> char {
    if d < 10 {
        (d + 48) as char
    } else {
        (d + 87) as char
    }
}

pub open spec fn hex_value(c: char) -> Option<int> {
    if '0' <= c && c <= '9' {
        Some(c as int - 48)
    } else if 'a' <= c && c <= 'f' {
        Some(c as int - 87)
    } else if 'A' <= c && c <= 'F' {
        Some(c as int - 55)
    } else {
        None
    }
}

/// How one character of a name is written: a two-character escape where
/// JSON has one, `\u00XX` (lower-case hex) for the other control
/// characters, and the character itself otherwise.
pub open spec fn escape_char(c: char) -> Seq<char> {
    match short_escape(c) {
        Some(e) => seq!['\\', e],
        None => if (c as int) < 0x20 {
            seq!['\\', 'u', '0', '0', hex_digit((c as int) / 16), hex_digit((c as int) % 16)]
        } else {
            seq![c]
        },
    }
}

/// The character that an escape starting with the backslash at `i` stands
/// for, and the index just past the escape: `\"`, `\\`, `\/`, `\n`, `\r`,
/// `\t`, `\b`, `\f`, and `\u00XX` with hex digits of either case.
pub open spec fn escaped_at(s: Seq<char>, i: int) -> Option<(char, int)> {
    if !(0 <= i && i + 1 < s.len()) {
        None
    } else {
        let e = s[i + 1];
        if e == '"' || e == '\\' || e == '/' {
            Some((e, i + 2))
        } else if e == 'n' {
            Some(('\n', i + 2))
        } else if e == 'r' {
            Some(('\r', i + 2))
        } else if e == 't' {
            Some(('\t', i + 2))
        } else if e == 'b' {
            Some(('\x08', i + 2))
        } else if e == 'f' {
            Some(('\x0c', i + 2))
        } else if e == 'u' && i + 5 < s.len() && s[i + 2] == '0' && s[i + 3] == '0' && hex_value(
            s[i + 4],
        ) is Some && hex_value(s[i + 5]) is Some {
            Some(
                (
                    ((hex_value(s[i + 4]).unwrap() * 16 + hex_value(s[i + 5]).unwrap()) as u8) as char,
                    i + 6,
                ),
            )
        } else {
            None
        }
    }
}

/// A name inside quotes, each character written as `escape_char` says.
pub open spec fn escape(s: Seq<char>) -> Seq<char>
    decreases s.len(),
{
    if s.len() == 0 {
        Seq::empty()
    } else {
        escape_char(s[0]) + escape(s.drop_first())
    }
}

/// The text that stands in the store for an account.
pub open spec fn encoding(id: u64, balance: i64, name: Seq<char>) -> Seq<char> {
    id_tag() + decimal(id as nat) + balance_tag() + signed_decimal(balance as int) + name_tag()
        + escape(name) + closing()
}

pub open spec fn has_at(s: Seq<char>, i: int, lit: Seq<char>) -> bool {
    0 <= i && i + lit.len() <= s.len() && s.subrange(i, i + lit.len()) == lit
}

/// Reading a signed number at `i`: an optional minus sign, then digits.
pub open spec fn read_i64(s: Seq<char>, i: int) -> Option<(i64, int)> {
    if 0 <= i < s.len() && s[i] == '-' {
        match read_u64(s, i + 1) {
            Some((v, e)) => if v <= 0x8000_0000_0000_0000 {
                Some(((-(v as int)) as i64, e))
            } else {
                None
            },
            None => None,
        }
    } else {
        match read_u64(s, i) {
            Some((v, e)) => if v <= i64::MAX {
                Some((v as i64, e))
            } else {
                None
            },
            None => None,
        }
    }
}

/// Reading a quoted name from `i` on, up to the first unescaped `"`: the name
/// and the index of that quote. A backslash starts an escape as `escaped_at`
/// reads it; any other escape makes the name unreadable.
pub open spec fn unescape_from(s: Seq<char>, i: int) -> Option<(Seq<char>, int)>
    decreases s.len() - i,
{
    if i < 0 || i >= s.len() {
        None
    } else if s[i] == '"' {
        Some((Seq::empty(), i))
    } else if s[i] == '\\' {
        match escaped_at(s, i) {
            Some((c, n)) => if i < n {
                match unescape_from(s, n) {
                    Some((r, e)) => Some((seq![c] + r, e)),
                    None => None,
                }
            } else {
                None
            },
            None => None,
        }
    } else {
        match unescape_from(s, i + 1) {
            Some((r, e)) => Some((seq![s[i]] + r, e)),
            None => None,
        }
    }
}

/// What a stored text decodes to: identifier, amount and name, or nothing
/// when the text is not a well-formed encoding.
pub open spec fn decoded(s: Seq<char>) -> Option<(u64, i64, Seq<char>)> {
    if !has_at(s, 0, id_tag()) {
        None
    } else {
        match read_u64(s, id_tag().len() as int) {
            None => None,
            Some((id, e1)) => if !has_at(s, e1, balance_tag()) {
                None
            } else {
                match read_i64(s, e1 + balance_tag().len()) {
                    None => None,
                    Some((b, e2)) => if !has_at(s, e2, name_tag()) {
                        None
                    } else {
                        match unescape_from(s, e2 + name_tag().len()) {
                            None => None,
                            Some((n, e3)) => if s.len() == e3 + 2 && s[e3 + 1] == '}' {
                                Some((id, b, n))
                            } else {
                                None
                            },
                        }
                    },
                }
            },
        }
    }
}

fn push_all(out: &mut Vec<char>, lit: &Vec<char>)
    ensures
        final(out)@ == old(out)@ + lit@,
{
    let mut i: usize = 0;
    while i < lit.len()
        invariant
            i <= lit@.len(),
            out@ == old(out)@ + lit@.subrange(0, i as int),
        decreases lit@.len() - i,
    {
        out.push(lit[i]);
        i = i + 1;
        assert(out@ =~= old(out)@ + lit@.subrange(0, i as int));
    }
    assert(lit@.subrange(0, i as int) =~= lit@);
}

proof fn lemma_escape_push(s: Seq<char>, c: char)
    ensures
        escape(s.push(c)) == escape(s) + escape_char(c),
    decreases s.len(),
{
    if s.len() == 0 {
        assert(s.push(c).drop_first() =~= Seq::<char>::empty());
        assert(escape(s.push(c).drop_first()) == Seq::<char>::empty());
        assert(s.push(c)[0] == c);
        assert(escape(s.push(c)) =~= escape(s) + escape_char(c));
    } else {
        assert(s.push(c).drop_first() =~= s.drop_first().push(c));
        lemma_escape_push(s.drop_first(), c);
        assert(s.push(c)[0] == s[0]);
        assert(escape(s.push(c)) == escape_char(s[0]) + escape(s.drop_first().push(c)));
        assert(escape(s) == escape_char(s[0]) + escape(s.drop_first()));
        assert(escape(s.push(c)) =~= escape(s) + escape_char(c));
    }
}

fn hex_char(d: u32) -> (r: char)
    requires
        d < 16,
    ensures
        r == hex_digit(d as int),
{
    if d < 10 {
        ((d as u8) + 48u8) as char
    } else {
        ((d as u8) + 87u8) as char
    }
}

fn push_escaped_char(out: &mut Vec<char>, c: char)
    ensures
        final(out)@ == old(out)@ + escape_char(c),
{
    let e: Option<char> = if c == '"' {
        Some('"')
    } else if c == '\\' {
        Some('\\')
    } else if c == '\n' {
        Some('n')
    } else if c == '\r' {
        Some('r')
    } else if c == '\t' {
        Some('t')
    } else if c == '\x08' {
        Some('b')
    } else if c == '\x0c' {
        Some('f')
    } else {
        None
    };
    assert(e == short_escape(c));
    match e {
        Some(l) => {
            out.push('\\');
            out.push(l);
        },
        None => {
            let code = c as u32;
            if code < 0x20 {
                out.push('\\');
                out.push('u');
                out.push('0');
                out.push('0');
                out.push(hex_char(code / 16));
                out.push(hex_char(code % 16));
            } else {
                out.push(c);
            }
        },
    }
    assert(final(out)@ =~= old(out)@ + escape_char(c));
}

fn push_escaped(out: &mut Vec<char>, name: &Vec<char>)
    ensures
        final(out)@ == old(out)@ + escape(name@),
{
    let mut i: usize = 0;
    while i < name.len()
        invariant
            i <= name@.len(),
            out@ == old(out)@ + escape(name@.subrange(0, i as int)),
        decreases name@.len() - i,
    {
        let c = name[i];
        let ghost before = out@;
        push_escaped_char(out, c);
        proof {
            assert(name@.subrange(0, i + 1) =~= name@.subrange(0, i as int).push(c));
            lemma_escape_push(name@.subrange(0, i as int), c);
        }
        i = i + 1;
        assert(out@ =~= old(out)@ + escape(name@.subrange(0, i as int)));
    }
    assert(name@.subrange(0, i as int) =~= name@);
}

impl Account {
    /// The text stored for this account.
    pub fn encode(&self) -> (r: String)
        ensures
            r@ == encoding(self.id, self.balance_cents, self.name@),
    {
        let mut out: Vec<char> = Vec::new();
        push_all(&mut out, &vec!['{', '"', 'i', 'd', '"', ':']);
        push_decimal(&mut out, self.id);
        push_all(
            &mut out,
            &vec![',', '"', 'b', 'a', 'l', 'a', 'n', 'c', 'e', '_', 'c', 'e', 'n', 't', 's', '"', ':'],
        );
        if self.balance_cents < 0 {
            out.push('-');
            let magnitude: u64 = if self.balance_cents == i64::MIN {
                0x8000_0000_0000_0000u64
            } else {
                (-self.balance_cents) as u64
            };
            push_decimal(&mut out, magnitude);
        } else {
            push_decimal(&mut out, self.balance_cents as u64);
        }
        push_all(&mut out, &vec![',', '"', 'n', 'a', 'm', 'e', '"', ':', '"']);
        let name = chars_of(self.name.as_str());
        push_escaped(&mut out, &name);
        push_all(&mut out, &vec!['"', '}']);
        assert(out@ =~= encoding(self.id, self.balance_cents, self.name@));
        string_of(&out)
    }
}

fn has_lit(s: &Vec<char>, i: usize, lit: &Vec<char>) -> (r: bool)
    ensures
        r == has_at(s@, i as int, lit@),
{
    if i > s.len() || lit.len() > s.len() - i {
        return false;
    }
    let mut k: usize = 0;
    while k < lit.len()
        invariant
            i + lit@.len() <= s@.len(),
            s@.len() <= usize::MAX,
            k <= lit@.len(),
            forall|m: int| 0 <= m < k ==> s@[i + m] == lit@[m],
        decreases lit@.len() - k,
    {
        if s[i + k] != lit[k] {
            assert(s@.subrange(i as int, i + lit@.len())[k as int] != lit@[k as int]);
            return false;
        }
        k = k + 1;
    }
    assert(s@.subrange(i as int, i + lit@.len()) =~= lit@);
    true
}

fn parse_i64(s: &Vec<char>, i: usize) -> (r: Option<(i64, usize)>)
    requires
        i <= s@.len(),
    ensures
        match r {
            Some((v, e)) => read_i64(s@, i as int) == Some((v, e as int)),
            None => read_i64(s@, i as int) is None,
        },
{
    if i < s.len() && s[i] == '-' {
        match parse_u64(s, i + 1) {
            Some((v, e)) => {
                if v <= 0x8000_0000_0000_0000u64 {
                    let n: i64 = if v == 0x8000_0000_0000_0000u64 {
                        i64::MIN
                    } else {
                        -(v as i64)
                    };
                    Some((n, e))
                } else {
                    None
                }
            },
            None => None,
        }
    } else {
        match parse_u64(s, i) {
            Some((v, e)) => {
                if v <= i64::MAX as u64 {
                    Some((v as i64, e))
                } else {
                    None
                }
            },
            None => None,
        }
    }
}

pub open spec fn prepend(
    out: Seq<char>,
    rest: Option<(Seq<char>, int)>,
) -> Option<(Seq<char>, int)> {
    match rest {
        Some((r, e)) => Some((out + r, e)),
        None => None,
    }
}

fn hex_of(c: char) -> (r: Option<u32>)
    ensures
        match hex_value(c) {
            Some(v) => r == Some(v as u32),
            None => r is None,
        },
{
    if '0' <= c && c <= '9' {
        Some(c as u32 - 48)
    } else if 'a' <= c && c <= 'f' {
        Some(c as u32 - 87)
    } else if 'A' <= c && c <= 'F' {
        Some(c as u32 - 55)
    } else {
        None
    }
}

fn read_escape(s: &Vec<char>, i: usize) -> (r: Option<(char, usize)>)
    ensures
        match r {
            Some((c, n)) => escaped_at(s@, i as int) == Some((c, n as int)) && i < n <= s@.len(),
            None => escaped_at(s@, i as int) is None,
        },
{
    if i >= s.len() || s.len() - i < 2 {
        return None;
    }
    let e = s[i + 1];
    if e == '"' || e == '\\' || e == '/' {
        Some((e, i + 2))
    } else if e == 'n' {
        Some(('\n', i + 2))
    } else if e == 'r' {
        Some(('\r', i + 2))
    } else if e == 't' {
        Some(('\t', i + 2))
    } else if e == 'b' {
        Some(('\x08', i + 2))
    } else if e == 'f' {
        Some(('\x0c', i + 2))
    } else if e == 'u' && s.len() - i > 5 && s[i + 2] == '0' && s[i + 3] == '0' {
        match (hex_of(s[i + 4]), hex_of(s[i + 5])) {
            (Some(hi), Some(lo)) => Some((((hi * 16 + lo) as u8) as char, i + 6)),
            _ => None,
        }
    } else {
        None
    }
}

fn parse_unescaped(s: &Vec<char>, i: usize) -> (r: Option<(Vec<char>, usize)>)
    ensures
        match r {
            Some((v, e)) => unescape_from(s@, i as int) == Some((v@, e as int)),
            None => unescape_from(s@, i as int) is None,
        },
{
    let mut out: Vec<char> = Vec::new();
    let mut j: usize = i;
    while j < s.len()
        invariant
            unescape_from(s@, i as int) == prepend(out@, unescape_from(s@, j as int)),
        decreases s@.len() - j,
    {
        let c = s[j];
        if c == '"' {
            assert(out@ + Seq::<char>::empty() =~= out@);
            return Some((out, j));
        } else if c == '\\' {
            match read_escape(s, j) {
                Some((d, n)) => {
                    let ghost before = out@;
                    out.push(d);
                    proof {
                        match unescape_from(s@, n as int) {
                            Some((r, e)) => {
                                assert(before + (seq![d] + r) =~= out@ + r);
                            },
                            None => {},
                        }
                    }
                    j = n;
                },
                None => {
                    return None;
                },
            }
        } else {
            let ghost before = out@;
            out.push(c);
            proof {
                match unescape_from(s@, j + 1) {
                    Some((r, e)) => {
                        assert(before + (seq![c] + r) =~= out@ + r);
                    },
                    None => {},
                }
            }
            j = j + 1;
        }
    }
    None
}

/// Reads an account back from its stored text.
pub fn decode(text: &str) -> (r: Result<Account, DecodeError>)
    ensures
        match decoded(text@) {
            Some((id, balance, name)) => r matches Ok(a) && a.id == id && a.balance_cents
                == balance && a.name@ == name,
            None => r is Err,
        },
{
    let s = chars_of(text);
    if !has_lit(&s, 0, &vec!['{', '"', 'i', 'd', '"', ':']) {
        return Err(DecodeError::Malformed);
    }
    let (id, e1) = match parse_u64(&s, 6) {
        Some(p) => p,
        None => {
            return Err(DecodeError::Malformed);
        },
    };
    let balance_lit = vec![',', '"', 'b', 'a', 'l', 'a', 'n', 'c', 'e', '_', 'c', 'e', 'n', 't', 's', '"', ':'];
    if !has_lit(&s, e1, &balance_lit) {
        return Err(DecodeError::Malformed);
    }
    let (balance, e2) = match parse_i64(&s, e1 + 17) {
        Some(p) => p,
        None => {
            return Err(DecodeError::Malformed);
        },
    };
    if !has_lit(&s, e2, &vec![',', '"', 'n', 'a', 'm', 'e', '"', ':', '"']) {
        return Err(DecodeError::Malformed);
    }
    let (name, e3) = match parse_unescaped(&s, e2 + 9) {
        Some(p) => p,
        None => {
            return Err(DecodeError::Malformed);
        },
    };
    if e3 < s.len() && s.len() - e3 == 2 && s[e3 + 1] == '}' {
        Ok(Account { id, balance_cents: balance, name: string_of(&name) })
    } else {
        Err(DecodeError::Malformed)
    }
}

proof fn lemma_hex_digit(d: int)
    requires
        0 <= d < 16,
    ensures
        hex_value(hex_digit(d)) == Some(d),
{
}

/// The escape of one character, read back at `i`, gives that character and
/// ends just past the escape.
proof fn lemma_escape_char_reads_back(s: Seq<char>, i: int, c: char)
    requires
        0 <= i,
        i + escape_char(c).len() < s.len(),
        forall|k: int| 0 <= k < escape_char(c).len() ==> s[i + k] == #[trigger] escape_char(c)[k],
    ensures
        escape_char(c).len() == 1 ==> s[i] == c && c != '"' && c != '\\',
        escape_char(c).len() > 1 ==> s[i] == '\\' && escaped_at(s, i) == Some(
            (c, i + escape_char(c).len()),
        ),
{
    let ec = escape_char(c);
    assert(s[i] == ec[0]);
    if short_escape(c) is Some {
        assert(s[i + 1] == ec[1]);
    } else if (c as int) < 0x20 {
        let hi = (c as int) / 16;
        let lo = (c as int) % 16;
        assert(s[i + 1] == ec[1]);
        assert(s[i + 2] == ec[2]);
        assert(s[i + 3] == ec[3]);
        assert(s[i + 4] == ec[4]);
        assert(s[i + 5] == ec[5]);
        lemma_hex_digit(hi);
        lemma_hex_digit(lo);
        assert(hi * 16 + lo == c as int);
        assert(((c as int) as u8) as char == c);
    }
}

proof fn lemma_unescape(s: Seq<char>, i: int, name: Seq<char>)
    requires
        0 <= i,
        i + escape(name).len() < s.len(),
        s.subrange(i, i + escape(name).len()) == escape(name),
        s[i + escape(name).len()] == '"',
    ensures
        unescape_from(s, i) == Some((name, i + escape(name).len())),
    decreases name.len(),
{
    if name.len() > 0 {
        let c = name[0];
        let ec = escape_char(c);
        let rest = name.drop_first();
        let l = escape(name).len();
        assert(escape(name) == ec + escape(rest));
        assert(s.subrange(i + ec.len(), i + l) =~= escape(rest)) by {
            assert forall|k: int| 0 <= k < escape(rest).len() implies s.subrange(
                i + ec.len(),
                i + l,
            )[k] == escape(rest)[k] by {
                assert(s[i + ec.len() + k] == s.subrange(i, i + l)[ec.len() + k]);
            }
        }
        lemma_unescape(s, i + ec.len(), rest);
        assert forall|k: int| 0 <= k < ec.len() implies s[i + k] == #[trigger] ec[k] by {
            assert(s[i + k] == s.subrange(i, i + l)[k]);
        }
        lemma_escape_char_reads_back(s, i, c);
        assert(seq![c] + rest =~= name);
    }
}

/// Decoding the encoding of an account gives back its identifier, amount and
/// name, whatever their values (negative and zero amounts included).
pub proof fn lemma_round_trip(id: u64, balance: i64, name: Seq<char>)
    ensures
        decoded(encoding(id, balance, name)) == Some((id, balance, name)),
{
    let s = encoding(id, balance, name);
    let d1 = decimal(id as nat);
    let sb = signed_decimal(balance as int);
    let en = escape(name);
    let e1: int = 6 + d1.len() as int;
    let e2: int = e1 + 17 + sb.len() as int;
    let e3: int = e2 + 9 + en.len() as int;
    assert(s.len() == e3 + 2);
    assert(s.subrange(0, 6) =~= id_tag());
    assert(s.subrange(6, e1) =~= d1);
    assert(s[e1] == ',');
    lemma_read_decimal(s, 6, id as nat);
    assert(s.subrange(e1, e1 + 17) =~= balance_tag());
    if balance < 0 {
        let m = (-balance) as nat;
        assert(s[e1 + 17] == '-');
        assert(s.subrange(e1 + 18, e2) =~= decimal(m));
        assert(s[e2] == ',');
        lemma_read_decimal(s, e1 + 18, m);
    } else {
        assert(s.subrange(e1 + 17, e2) =~= decimal(balance as nat));
        assert(s[e2] == ',');
        lemma_read_decimal(s, e1 + 17, balance as nat);
        assert(s[e1 + 17] != '-');
    }
    assert(read_i64(s, e1 + 17) == Some((balance, e2)));
    assert(s.subrange(e2, e2 + 9) =~= name_tag());
    assert(s.subrange(e2 + 9, e3) =~= en);
    assert(s[e3] == '"');
    lemma_unescape(s, e2 + 9, name);
    assert(s[e3 + 1] == '}');
}

} // verus!
