//! The command codec: `Set` and `Rm` records are written as self-delimiting
//! JSON objects, concatenated without separators. The encoder emits one
//! canonical form; the decoder consumes exactly one object and reports the
//! offset just past it.

use crate::strutil::{chars_string, str_chars};
use vstd::prelude::*;

verus! {

/// One atomic store command.
#[derive(Debug, Clone)]
pub enum Cmd {
    /// Bind `key` to `value`.
    Put { key: String, value: String },
    /// Unbind `key`.
    Rm { key: String },
}

/// The mathematical value of a command: its strings as character sequences.
pub enum CmdModel {
    Put { key: Seq<char>, value: Seq<char> },
    Rm { key: Seq<char> },
}

impl View for Cmd {
    type V = CmdModel;

    open spec fn view(&self) -> CmdModel {
        match self {
            Cmd::Put { key, value } => CmdModel::Put { key: key@, value: value@ },
            Cmd::Rm { key } => CmdModel::Rm { key: key@ },
        }
    }
}

impl Cmd {
    /// Build a `Set` command.
    pub fn set(key: String, value: String) -> (c: Cmd)
        ensures
            c@ == (CmdModel::Put { key: key@, value: value@ }),
    {
        Cmd::Put { key, value }
    }

    /// Build a `Rm` command.
    pub fn rm(key: String) -> (c: Cmd)
        ensures
            c@ == (CmdModel::Rm { key: key@ }),
    {
        Cmd::Rm { key }
    }
}

/// The hexadecimal digit used in a `\u00XX` escape.
pub open spec fn hex_char(n: int) -> char {
    if n == 0 { '0' }
    else if n == 1 { '1' }
    else if n == 2 { '2' }
    else if n == 3 { '3' }
    else if n == 4 { '4' }
    else if n == 5 { '5' }
    else if n == 6 { '6' }
    else if n == 7 { '7' }
    else if n == 8 { '8' }
    else if n == 9 { '9' }
    else if n == 10 { 'a' }
    else if n == 11 { 'b' }
    else if n == 12 { 'c' }
    else if n == 13 { 'd' }
    else if n == 14 { 'e' }
    else { 'f' }
}

/// A character the encoder copies through unescaped.
pub open spec fn is_plain(c: char) -> bool {
    c != '"' && c != '\\' && (c as u32) >= 0x20
}

/// The escape sequence the encoder emits for one character.
pub open spec fn esc_char(c: char) -> Seq<char> {
    if c == '"' {
        seq!['\\', '"']
    } else if c == '\\' {
        seq!['\\', '\\']
    } else if (c as u32) < 0x20 {
        seq!['\\', 'u', '0', '0', hex_char((c as u32) as int / 16), hex_char((c as u32) as int % 16)]
    } else {
        seq![c]
    }
}

/// The escaped form of a whole string.
pub open spec fn esc(s: Seq<char>) -> Seq<char>
    decreases s.len(),
{
    if s.len() == 0 {
        Seq::empty()
    } else {
        esc_char(s[0]) + esc(s.skip(1))
    }
}

/// The opening characters of an encoded `Set`, up to the first key character.
pub open spec fn set_open() -> Seq<char> {
    seq!['{', '"', 'S', 'e', 't', '"', ':', '{', '"', 'k', 'e', 'y', '"', ':', '"']
}

/// The characters between the key's closing quote and the first value
/// character of an encoded `Set`.
pub open spec fn mid_lit() -> Seq<char> {
    seq![',', '"', 'v', 'a', 'l', 'u', 'e', '"', ':', '"']
}

/// The opening characters of an encoded `Rm`, up to the first key character.
pub open spec fn rm_open() -> Seq<char> {
    seq!['{', '"', 'R', 'm', '"', ':', '{', '"', 'k', 'e', 'y', '"', ':', '"']
}

/// The closing braces of either encoded command.
pub open spec fn end_lit() -> Seq<char> {
    seq!['}', '}']
}

/// The canonical encoding of a command. Each string is escaped and closed
/// by a quote; the object syntax around the strings is fixed.
pub open spec fn spec_encode(c: CmdModel) -> Seq<char> {
    match c {
        CmdModel::Put { key, value } => set_open() + esc(key) + seq!['"'] + mid_lit() + esc(value)
            + seq!['"'] + end_lit(),
        CmdModel::Rm { key } => rm_open() + esc(key) + seq!['"'] + end_lit(),
    }
}

/// `s` holds exactly the characters of `lit` starting at `i`.
pub open spec fn lit_region(s: Seq<char>, i: int, lit: Seq<char>) -> bool {
    &&& 0 <= i
    &&& i + lit.len() <= s.len()
    &&& s.subrange(i, i + lit.len()) == lit
}

/// `s` holds, starting at `i`, the escaped form of `k` followed by its
/// closing quote.
pub open spec fn str_region(s: Seq<char>, i: int, k: Seq<char>) -> bool {
    &&& 0 <= i
    &&& i + esc(k).len() + 1 <= s.len()
    &&& s.subrange(i, i + esc(k).len() + 1) == esc(k) + seq!['"']
}

/// `s` holds the complete encoding of `c` starting at `i`.
pub open spec fn encodes_at(s: Seq<char>, i: int, c: CmdModel) -> bool {
    &&& 0 <= i
    &&& i + spec_encode(c).len() <= s.len()
    &&& s.subrange(i, i + spec_encode(c).len()) == spec_encode(c)
}

/// An escaped string is at most six times its length.
pub proof fn lemma_esc_len(s: Seq<char>)
    ensures
        esc(s).len() <= 6 * s.len(),
    decreases s.len(),
{
    if s.len() > 0 {
        lemma_esc_len(s.skip(1));
        assert(esc_char(s[0]).len() <= 6);
    }
}

/// Escaping distributes over concatenation.
pub proof fn lemma_esc_append(a: Seq<char>, b: Seq<char>)
    ensures
        esc(a + b) == esc(a) + esc(b),
    decreases a.len(),
{
    if a.len() == 0 {
        assert(a + b =~= b);
        assert(esc(a) + esc(b) =~= esc(b));
    } else {
        assert((a + b).skip(1) =~= a.skip(1) + b);
        assert((a + b)[0] == a[0]);
        assert((a + b).len() > 0);
        lemma_esc_append(a.skip(1), b);
        assert(esc_char(a[0]) + (esc(a.skip(1)) + esc(b)) =~= (esc_char(a[0]) + esc(a.skip(1)))
            + esc(b));
    }
}

/// Escaping one more character appends that character's escape sequence.
proof fn lemma_esc_snoc(s: Seq<char>, i: int)
    requires
        0 <= i < s.len(),
    ensures
        esc(s.take(i + 1)) == esc(s.take(i)) + esc_char(s[i]),
{
    let one = seq![s[i]];
    assert(s.take(i + 1) =~= s.take(i) + one);
    lemma_esc_append(s.take(i), one);
    assert(one.skip(1) =~= Seq::<char>::empty());
    assert(esc(one) == esc_char(one[0]) + esc(one.skip(1)));
    assert(esc(one.skip(1)) == Seq::<char>::empty());
    assert(esc_char(one[0]) + Seq::<char>::empty() =~= esc_char(s[i]));
}

/// Characters with equal scalar values are equal.
proof fn lemma_char_inj(a: char, b: char)
    requires
        a as u32 == b as u32,
    ensures
        a == b,
{
}

/// The escape of a one-character string is the character's escape sequence.
proof fn lemma_esc_one(c: char)
    ensures
        esc(seq![c]) == esc_char(c),
{
    let one = seq![c];
    assert(one.skip(1) =~= Seq::<char>::empty());
    assert(esc(one) == esc_char(one[0]) + esc(one.skip(1)));
    assert(esc(one.skip(1)) == Seq::<char>::empty());
    assert(esc_char(one[0]) + Seq::<char>::empty() =~= esc_char(c));
}

/// The hexadecimal digit for `n`, executably.
pub(crate) fn hex_digit(n: u8) -> (c: char)
    requires
        n < 16,
    ensures
        c == hex_char(n as int),
{
    if n == 0 { '0' }
    else if n == 1 { '1' }
    else if n == 2 { '2' }
    else if n == 3 { '3' }
    else if n == 4 { '4' }
    else if n == 5 { '5' }
    else if n == 6 { '6' }
    else if n == 7 { '7' }
    else if n == 8 { '8' }
    else if n == 9 { '9' }
    else if n == 10 { 'a' }
    else if n == 11 { 'b' }
    else if n == 12 { 'c' }
    else if n == 13 { 'd' }
    else if n == 14 { 'e' }
    else { 'f' }
}

/// Append the escaped form of `s` to `out`.
pub(crate) fn push_escaped(out: &mut Vec<char>, s: &str)
    ensures
        final(out)@ == old(out)@ + esc(s@),
{
    let cs: Vec<char> = str_chars(s);
    let n = cs.len();
    let mut i: usize = 0;
    while i < n
        invariant
            i <= n,
            n == cs@.len(),
            cs@ == s@,
            out@ == old(out)@ + esc(s@.take(i as int)),
        decreases n - i,
    {
        let c = cs[i];
        if c == '"' {
            out.push('\\');
            out.push('"');
        } else if c == '\\' {
            out.push('\\');
            out.push('\\');
        } else if (c as u32) < 0x20 {
            let v = c as u32;
            out.push('\\');
            out.push('u');
            out.push('0');
            out.push('0');
            out.push(hex_digit((v / 16) as u8));
            out.push(hex_digit((v % 16) as u8));
        } else {
            out.push(c);
        }
        proof {
            lemma_esc_snoc(s@, i as int);
            assert(out@ =~= old(out)@ + esc(s@.take(i as int + 1)));
        }
        i += 1;
    }
    proof {
        assert(s@.take(n as int) =~= s@);
    }
}

/// Distinct hexadecimal digit characters stand for distinct values.
proof fn lemma_hex_char_inj(m: int, n: int)
    requires
        0 <= m < 16,
        0 <= n < 16,
        hex_char(m) == hex_char(n),
    ensures
        m == n,
{
}

/// A string region splits into the escape of its first character and the
/// region of the remaining characters.
pub(crate) proof fn lemma_str_region_step(s: Seq<char>, i: int, k: Seq<char>)
    requires
        str_region(s, i, k),
        k.len() > 0,
    ensures
        str_region(s, i + esc_char(k[0]).len(), k.skip(1)),
        forall|j: int| 0 <= j < esc_char(k[0]).len() ==> s[i + j] == esc_char(k[0])[j],
{
    let e0 = esc_char(k[0]);
    let rest = esc(k.skip(1));
    assert(esc(k) == e0 + rest);
    let whole = esc(k) + seq!['"'];
    assert forall|j: int| 0 <= j < e0.len() implies s[i + j] == e0[j] by {
        assert(s.subrange(i, i + esc(k).len() + 1)[j] == s[i + j]);
        assert(whole[j] == e0[j]);
    }
    assert(s.subrange(i + e0.len(), i + e0.len() + (rest.len() + 1)) =~= rest + seq!['"']) by {
        assert forall|j: int| 0 <= j < rest.len() + 1 implies s[i + e0.len() + j] == (rest
            + seq!['"'])[j] by {
            assert(s.subrange(i, i + esc(k).len() + 1)[e0.len() + j] == s[i + e0.len() + j]);
            assert(whole[e0.len() + j] == (rest + seq!['"'])[j]);
        }
    }
}

/// A region holding `a + b` splits into a region for `a` and one for `b`.
pub(crate) proof fn lemma_split_region(s: Seq<char>, i: int, a: Seq<char>, b: Seq<char>)
    requires
        0 <= i,
        i + a.len() + b.len() <= s.len(),
        s.subrange(i, i + a.len() + b.len()) == a + b,
    ensures
        s.subrange(i, i + a.len()) == a,
        s.subrange(i + a.len(), i + a.len() + b.len()) == b,
{
    let whole = a + b;
    assert(s.subrange(i, i + a.len()) =~= a) by {
        assert forall|j: int| 0 <= j < a.len() implies s[i + j] == a[j] by {
            assert(s.subrange(i, i + whole.len())[j] == s[i + j]);
            assert(whole[j] == a[j]);
        }
    }
    assert(s.subrange(i + a.len(), i + a.len() + b.len()) =~= b) by {
        assert forall|j: int| 0 <= j < b.len() implies s[i + a.len() + j] == b[j] by {
            assert(s.subrange(i, i + whole.len())[a.len() + j] == s[i + a.len() + j]);
            assert(whole[a.len() + j] == b[j]);
        }
    }
}

/// The value of one hexadecimal digit character, or `None` for any other
/// character.
fn hex_val(c: char) -> (r: Option<u8>)
    ensures
        match r {
            Option::Some(v) => v < 16 && c == hex_char(v as int),
            Option::None => forall|n: int| 0 <= n < 16 ==> c != hex_char(n),
        },
{
    if c == '0' { Option::Some(0) }
    else if c == '1' { Option::Some(1) }
    else if c == '2' { Option::Some(2) }
    else if c == '3' { Option::Some(3) }
    else if c == '4' { Option::Some(4) }
    else if c == '5' { Option::Some(5) }
    else if c == '6' { Option::Some(6) }
    else if c == '7' { Option::Some(7) }
    else if c == '8' { Option::Some(8) }
    else if c == '9' { Option::Some(9) }
    else if c == 'a' { Option::Some(10) }
    else if c == 'b' { Option::Some(11) }
    else if c == 'c' { Option::Some(12) }
    else if c == 'd' { Option::Some(13) }
    else if c == 'e' { Option::Some(14) }
    else if c == 'f' { Option::Some(15) }
    else { Option::None }
}

/// The control character with code `v`.
fn ctrl_char(v: u8) -> (c: char)
    requires
        v < 32,
    ensures
        c as u32 == v,
{
    v as char
}

/// Outcome of matching a fixed literal against the input.
#[derive(Clone, Copy)]
pub(crate) enum LitParse {
    /// The literal is present; `end` is the offset just past it.
    Hit { end: usize },
    /// The input ends before the literal could be completed.
    Short,
    /// Some available character conflicts with the literal.
    Mismatch,
}

/// Match the characters of `lit` at `start`.
pub(crate) fn match_lit(data: &Vec<char>, start: usize, lit: &Vec<char>) -> (r: LitParse)
    requires
        start <= data@.len(),
    ensures
        match r {
            LitParse::Hit { end } => end == start + lit@.len() && lit_region(
                data@,
                start as int,
                lit@,
            ),
            LitParse::Short => data@.len() < start + lit@.len(),
            LitParse::Mismatch => exists|j: int|
                0 <= j < lit@.len() && start + j < data@.len() && data@[start + j] != lit@[j],
        },
{
    let n = lit.len();
    let dn = data.len();
    let avail = dn - start;
    let lim = if avail < n {
        avail
    } else {
        n
    };
    let mut j: usize = 0;
    while j < lim
        invariant
            0 <= j <= lim,
            lim <= n,
            n == lit@.len(),
            dn == data@.len(),
            start + lim <= dn,
            forall|m: int| 0 <= m < j ==> data@[start + m] == lit@[m],
        decreases lim - j,
    {
        if data[start + j] != lit[j] {
            return LitParse::Mismatch;
        }
        j += 1;
    }
    if avail < n {
        return LitParse::Short;
    }
    proof {
        assert(data@.subrange(start as int, start as int + n) =~= lit@);
    }
    LitParse::Hit { end: start + n }
}

/// Outcome of decoding one quoted string from the input.
pub(crate) enum StrParse {
    /// A complete string; `end` is the offset just past its closing quote.
    Hit { s: String, end: usize },
    /// The input ends inside the string.
    Short,
    /// The input cannot be a canonically escaped string.
    Mismatch,
}

/// Decode one escaped string starting at `start`, up to and including its
/// closing quote.
pub(crate) fn parse_string(data: &Vec<char>, start: usize) -> (r: StrParse)
    requires
        start <= data@.len(),
    ensures
        (r matches StrParse::Hit { s, end } ==> str_region(data@, start as int, s@) && end == start
            + esc(s@).len() + 1),
        forall|k: Seq<char>|
            #[trigger] str_region(data@, start as int, k) ==> (r matches StrParse::Hit { s, end }
                && s@ == k && end == start + esc(k).len() + 1),
{
    let ghost d = data@;
    let mut res: Vec<char> = Vec::new();
    let mut i: usize = start;
    proof {
        assert(res@ =~= Seq::<char>::empty());
        assert(esc(res@) == Seq::<char>::empty());
        assert(d.subrange(start as int, start as int) =~= esc(res@));
        assert forall|k: Seq<char>| #[trigger] str_region(d, start as int, k) implies res@.is_prefix_of(k)
            && str_region(d, start as int, k.skip(res@.len() as int)) by {
            assert(k.skip(0) =~= k);
            assert(res@.is_prefix_of(k)) by {
                assert(res@ =~= k.subrange(0, 0));
            }
        }
    }
    loop
        invariant
            start <= i <= d.len(),
            d == data@,
            i == start + esc(res@).len(),
            d.subrange(start as int, i as int) == esc(res@),
            forall|k: Seq<char>|
                #[trigger] str_region(d, start as int, k) ==> res@.is_prefix_of(k) && str_region(
                    d,
                    i as int,
                    k.skip(res@.len() as int),
                ),
        decreases d.len() - i,
    {
        let ghost res0 = res@;
        if data.len() - i == 0 {
            proof {
                assert forall|k: Seq<char>| !(#[trigger] str_region(d, start as int, k)) by {
                    if str_region(d, start as int, k) {
                        let rest = k.skip(res0.len() as int);
                        assert(str_region(d, i as int, rest));
                        assert(i + esc(rest).len() + 1 <= d.len());
                    }
                }
            }
            return StrParse::Short;
        }
        let c = data[i];
        if c == '"' {
            let s = chars_string(res.as_slice());
            proof {
                assert(d.subrange(start as int, i + 1) =~= esc(res0) + seq!['"']);
                assert(str_region(d, start as int, res0));
                assert forall|k: Seq<char>| #[trigger] str_region(d, start as int, k) implies k
                    == res0 by {
                    let rest = k.skip(res0.len() as int);
                    assert(str_region(d, i as int, rest));
                    if rest.len() > 0 {
                        lemma_str_region_step(d, i as int, rest);
                        let e0 = esc_char(rest[0]);
                        assert(d[i as int] == e0[0]);
                        assert(false);
                    }
                    assert(k =~= res0);
                }
            }
            return StrParse::Hit { s, end: i + 1 };
        } else if c == '\\' {
            if data.len() - i < 2 {
                proof {
                    assert forall|k: Seq<char>| !(#[trigger] str_region(d, start as int, k)) by {
                        if str_region(d, start as int, k) {
                            let rest = k.skip(res0.len() as int);
                            assert(str_region(d, i as int, rest));
                            if rest.len() == 0 {
                                assert(d.subrange(i as int, i + 1) =~= seq!['"']);
                                assert(d.subrange(i as int, i + 1)[0] == d[i as int]);
                                assert(d[i as int] == '"');
                            } else {
                                lemma_str_region_step(d, i as int, rest);
                                let e0 = esc_char(rest[0]);
                                assert(d[i as int] == e0[0]);
                                assert(e0.len() >= 2);
                                assert(i + esc(rest).len() + 1 <= d.len());
                            }
                        }
                    }
                }
                return StrParse::Short;
            }
            let c2 = data[i + 1];
            if c2 == '"' || c2 == '\\' {
                res.push(c2);
                proof {
                    assert(esc_char(c2) =~= seq!['\\', c2]);
                    lemma_esc_append(res0, seq![c2]);
                    lemma_esc_one(c2);
                    assert(res@ =~= res0 + seq![c2]);
                    assert(d.subrange(start as int, i + 2) =~= esc(res0) + esc_char(c2));
                    assert(d.subrange(start as int, i + 2) == esc(res@));
                    assert forall|k: Seq<char>| #[trigger] str_region(d, start as int, k) implies res@.is_prefix_of(
                        k,
                    ) && str_region(d, i + 2, k.skip(res@.len() as int)) by {
                        let rest = k.skip(res0.len() as int);
                        assert(str_region(d, i as int, rest));
                        if rest.len() == 0 {
                            assert(d.subrange(i as int, i + 1) =~= seq!['"']);
                            assert(d.subrange(i as int, i + 1)[0] == d[i as int]);
                            assert(d[i as int] == '"');
                            assert(false);
                        }
                        lemma_str_region_step(d, i as int, rest);
                        let e0 = esc_char(rest[0]);
                        assert(d[i as int] == e0[0]);
                        assert(d[i + 1] == e0[1] || e0.len() == 1);
                        assert(rest[0] == c2);
                        assert(e0.len() == 2);
                        assert(str_region(d, i + 2, rest.skip(1)));
                        assert(k.skip(res@.len() as int) =~= rest.skip(1));
                        assert(k[res0.len() as int] == rest[0]);
                        assert(res@.is_prefix_of(k)) by {
                            assert forall|m: int| 0 <= m < res@.len() implies res@[m] == k[m] by {
                                if m < res0.len() {
                                    assert(res0[m] == k[m]);
                                }
                            }
                            assert(res@ =~= k.subrange(0, res@.len() as int));
                        }
                    }
                }
                i = i + 2;
            } else if c2 == 'u' {
                if data.len() - i < 6 {
                    proof {
                        assert forall|k: Seq<char>| !(#[trigger] str_region(d, start as int, k)) by {
                            if str_region(d, start as int, k) {
                                let rest = k.skip(res0.len() as int);
                                assert(str_region(d, i as int, rest));
                                if rest.len() == 0 {
                                    assert(d.subrange(i as int, i + 1) =~= seq!['"']);
                                    assert(d.subrange(i as int, i + 1)[0] == d[i as int]);
                                    assert(d[i as int] == '"');
                                } else {
                                    lemma_str_region_step(d, i as int, rest);
                                    let e0 = esc_char(rest[0]);
                                    assert(d[i as int] == e0[0]);
                                    assert(d[i + 1] == e0[1] || e0.len() == 1);
                                    assert(e0.len() == 6);
                                    assert(i + esc(rest).len() + 1 <= d.len());
                                }
                            }
                        }
                    }
                    return StrParse::Short;
                }
                let z1 = data[i + 2];
                let z2 = data[i + 3];
                let h1 = hex_val(data[i + 4]);
                let h2 = hex_val(data[i + 5]);
                let mut ok = z1 == '0' && z2 == '0';
                let mut a: u8 = 0;
                let mut b: u8 = 0;
                match (h1, h2) {
                    (Option::Some(x), Option::Some(y)) => {
                        a = x;
                        b = y;
                        if x >= 2 {
                            ok = false;
                        }
                    },
                    _ => {
                        ok = false;
                    },
                }
                if !ok {
                    proof {
                        assert forall|k: Seq<char>| !(#[trigger] str_region(d, start as int, k)) by {
                            if str_region(d, start as int, k) {
                                let rest = k.skip(res0.len() as int);
                                assert(str_region(d, i as int, rest));
                                if rest.len() == 0 {
                                    assert(d.subrange(i as int, i + 1) =~= seq!['"']);
                                    assert(d.subrange(i as int, i + 1)[0] == d[i as int]);
                                    assert(d[i as int] == '"');
                                } else {
                                    lemma_str_region_step(d, i as int, rest);
                                    let e0 = esc_char(rest[0]);
                                    assert(d[i as int] == e0[0]);
                                    assert(d[i + 1] == e0[1] || e0.len() == 1);
                                    let u = rest[0] as u32;
                                    assert(u < 0x20);
                                    assert(d[i + 2] == '0' && d[i + 3] == '0');
                                    assert(d[i + 4] == hex_char(u as int / 16));
                                    assert(d[i + 5] == hex_char(u as int % 16));
                                    if h1 is Some {
                                        lemma_hex_char_inj(h1->0 as int, u as int / 16);
                                    }
                                    if h2 is Some {
                                        lemma_hex_char_inj(h2->0 as int, u as int % 16);
                                    }
                                }
                            }
                        }
                    }
                    return StrParse::Mismatch;
                }
                let v: u8 = a * 16 + b;
                let ch = ctrl_char(v);
                res.push(ch);
                proof {
                    assert(esc_char(ch) =~= seq![
                        '\\',
                        'u',
                        '0',
                        '0',
                        hex_char(v as int / 16),
                        hex_char(v as int % 16),
                    ]);
                    assert(hex_char(v as int / 16) == hex_char(a as int)) by {
                        assert(v as int / 16 == a as int);
                    }
                    assert(hex_char(v as int % 16) == hex_char(b as int)) by {
                        assert(v as int % 16 == b as int);
                    }
                    lemma_esc_append(res0, seq![ch]);
                    lemma_esc_one(ch);
                    assert(res@ =~= res0 + seq![ch]);
                    assert(d.subrange(start as int, i + 6) =~= esc(res0) + esc_char(ch));
                    assert(d.subrange(start as int, i + 6) == esc(res@));
                    assert forall|k: Seq<char>| #[trigger] str_region(d, start as int, k) implies res@.is_prefix_of(
                        k,
                    ) && str_region(d, i + 6, k.skip(res@.len() as int)) by {
                        let rest = k.skip(res0.len() as int);
                        assert(str_region(d, i as int, rest));
                        if rest.len() == 0 {
                            assert(d.subrange(i as int, i + 1) =~= seq!['"']);
                            assert(d.subrange(i as int, i + 1)[0] == d[i as int]);
                            assert(d[i as int] == '"');
                            assert(false);
                        }
                        lemma_str_region_step(d, i as int, rest);
                        let e0 = esc_char(rest[0]);
                        assert(d[i as int] == e0[0]);
                        assert(d[i + 1] == e0[1] || e0.len() == 1);
                        let u = rest[0] as u32;
                        assert(u < 0x20);
                        assert(d[i + 4] == hex_char(u as int / 16));
                        assert(d[i + 5] == hex_char(u as int % 16));
                        lemma_hex_char_inj(a as int, u as int / 16);
                        lemma_hex_char_inj(b as int, u as int % 16);
                        assert(u == v);
                        lemma_char_inj(rest[0], ch);
                        assert(rest[0] == ch);
                        assert(e0.len() == 6);
                        assert(str_region(d, i + 6, rest.skip(1)));
                        assert(k.skip(res@.len() as int) =~= rest.skip(1));
                        assert(k[res0.len() as int] == rest[0]);
                        assert(res@.is_prefix_of(k)) by {
                            assert forall|m: int| 0 <= m < res@.len() implies res@[m] == k[m] by {
                                if m < res0.len() {
                                    assert(res0[m] == k[m]);
                                }
                            }
                            assert(res@ =~= k.subrange(0, res@.len() as int));
                        }
                    }
                }
                i = i + 6;
            } else {
                proof {
                    assert forall|k: Seq<char>| !(#[trigger] str_region(d, start as int, k)) by {
                        if str_region(d, start as int, k) {
                            let rest = k.skip(res0.len() as int);
                            assert(str_region(d, i as int, rest));
                            if rest.len() == 0 {
                                assert(d.subrange(i as int, i + 1) =~= seq!['"']);
                                assert(d.subrange(i as int, i + 1)[0] == d[i as int]);
                                assert(d[i as int] == '"');
                            } else {
                                lemma_str_region_step(d, i as int, rest);
                                let e0 = esc_char(rest[0]);
                                assert(d[i as int] == e0[0]);
                                assert(d[i + 1] == e0[1] || e0.len() == 1);
                            }
                        }
                    }
                }
                return StrParse::Mismatch;
            }
        } else if (c as u32) < 0x20 {
            proof {
                assert forall|k: Seq<char>| !(#[trigger] str_region(d, start as int, k)) by {
                    if str_region(d, start as int, k) {
                        let rest = k.skip(res0.len() as int);
                        assert(str_region(d, i as int, rest));
                        if rest.len() == 0 {
                            assert(d.subrange(i as int, i + 1) =~= seq!['"']);
                            assert(d.subrange(i as int, i + 1)[0] == d[i as int]);
                            assert(d[i as int] == '"');
                        } else {
                            lemma_str_region_step(d, i as int, rest);
                            let e0 = esc_char(rest[0]);
                            assert(d[i as int] == e0[0]);
                        }
                    }
                }
            }
            return StrParse::Mismatch;
        } else {
            res.push(c);
            proof {
                assert(esc_char(c) =~= seq![c]);
                lemma_esc_append(res0, seq![c]);
                lemma_esc_one(c);
                assert(res@ =~= res0 + seq![c]);
                assert(d.subrange(start as int, i + 1) =~= esc(res0) + esc_char(c));
                assert(d.subrange(start as int, i + 1) == esc(res@));
                assert forall|k: Seq<char>| #[trigger] str_region(d, start as int, k) implies res@.is_prefix_of(
                    k,
                ) && str_region(d, i + 1, k.skip(res@.len() as int)) by {
                    let rest = k.skip(res0.len() as int);
                    assert(str_region(d, i as int, rest));
                    if rest.len() == 0 {
                        assert(d.subrange(i as int, i + 1) =~= seq!['"']);
                        assert(d.subrange(i as int, i + 1)[0] == d[i as int]);
                        assert(d[i as int] == '"');
                        assert(false);
                    }
                    lemma_str_region_step(d, i as int, rest);
                    let e0 = esc_char(rest[0]);
                    assert(d[i as int] == e0[0]);
                    assert(rest[0] == c);
                    assert(e0.len() == 1);
                    assert(str_region(d, i + 1, rest.skip(1)));
                    assert(k.skip(res@.len() as int) =~= rest.skip(1));
                    assert(k[res0.len() as int] == rest[0]);
                    assert(res@.is_prefix_of(k)) by {
                        assert forall|m: int| 0 <= m < res@.len() implies res@[m] == k[m] by {
                            if m < res0.len() {
                                assert(res0[m] == k[m]);
                            }
                        }
                        assert(res@ =~= k.subrange(0, res@.len() as int));
                    }
                }
            }
            i = i + 1;
        }
    }
}

/// One character of a matched literal region.
pub(crate) proof fn lemma_lit_char(s: Seq<char>, i: int, lit: Seq<char>, j: int)
    requires
        lit_region(s, i, lit),
        0 <= j < lit.len(),
    ensures
        s[i + j] == lit[j],
{
    assert(s.subrange(i, i + lit.len())[j] == s[i + j]);
}

/// Two adjacent regions join into one region holding the concatenation.
pub(crate) proof fn lemma_join_region(s: Seq<char>, i: int, a: Seq<char>, b: Seq<char>)
    requires
        0 <= i,
        i + a.len() + b.len() <= s.len(),
        s.subrange(i, i + a.len()) == a,
        s.subrange(i + a.len(), i + a.len() + b.len()) == b,
    ensures
        s.subrange(i, i + a.len() + b.len()) == a + b,
{
    assert(s.subrange(i, i + a.len() + b.len()) =~= a + b) by {
        assert forall|j: int| 0 <= j < a.len() + b.len() implies s[i + j] == (a + b)[j] by {
            if j < a.len() {
                assert(s.subrange(i, i + a.len())[j] == s[i + j]);
            } else {
                assert(s.subrange(i + a.len(), i + a.len() + b.len())[j - a.len()] == s[i + j]);
            }
        }
    }
}

/// The length of an encoded `Set` command.
pub open spec fn put_len(k: Seq<char>, v: Seq<char>) -> int {
    29 + esc(k).len() as int + esc(v).len() as int
}

/// The length of an encoded `Rm` command.
pub open spec fn rm_len(k: Seq<char>) -> int {
    17 + esc(k).len() as int
}

/// An encoded command is as long as its parts.
pub proof fn lemma_encode_len(c: CmdModel)
    ensures
        spec_encode(c).len() == match c {
            CmdModel::Put { key, value } => put_len(key, value),
            CmdModel::Rm { key } => rm_len(key),
        },
{
    match c {
        CmdModel::Put { key, value } => {
            assert(set_open().len() == 15);
            assert(mid_lit().len() == 10);
            assert(end_lit().len() == 2);
            assert(spec_encode(c).len() == set_open().len() + esc(key).len() + 1 + mid_lit().len()
                + esc(value).len() + 1 + end_lit().len());
            assert(spec_encode(c).len() == put_len(key, value));
        },
        CmdModel::Rm { key } => {
            assert(rm_open().len() == 14);
            assert(end_lit().len() == 2);
            assert(spec_encode(c).len() == rm_open().len() + esc(key).len() + 1 + end_lit().len());
            assert(spec_encode(c).len() == rm_len(key));
        },
    }
}

/// An encoding of a `Set` command decomposes into its five regions.
pub(crate) proof fn lemma_encodes_put_parts(s: Seq<char>, i: int, k: Seq<char>, v: Seq<char>)
    requires
        encodes_at(s, i, (CmdModel::Put { key: k, value: v })),
    ensures
        lit_region(s, i, set_open()),
        str_region(s, i + 15, k),
        lit_region(s, i + 16 + esc(k).len(), mid_lit()),
        str_region(s, i + 26 + esc(k).len(), v),
        lit_region(s, i + 27 + esc(k).len() + esc(v).len(), end_lit()),
{
    let a1 = set_open();
    let a2 = esc(k) + seq!['"'];
    let a3 = mid_lit();
    let a4 = esc(v) + seq!['"'];
    let a5 = end_lit();
    let e = spec_encode(CmdModel::Put { key: k, value: v });
    assert(e =~= a1 + (a2 + (a3 + (a4 + a5))));
    lemma_split_region(s, i, a1, a2 + (a3 + (a4 + a5)));
    lemma_split_region(s, i + 15, a2, a3 + (a4 + a5));
    lemma_split_region(s, i + 16 + esc(k).len(), a3, a4 + a5);
    lemma_split_region(s, i + 26 + esc(k).len(), a4, a5);
}

/// An encoding of a `Rm` command decomposes into its three regions.
pub(crate) proof fn lemma_encodes_rm_parts(s: Seq<char>, i: int, k: Seq<char>)
    requires
        encodes_at(s, i, (CmdModel::Rm { key: k })),
    ensures
        lit_region(s, i, rm_open()),
        str_region(s, i + 14, k),
        lit_region(s, i + 15 + esc(k).len(), end_lit()),
{
    let a1 = rm_open();
    let a2 = esc(k) + seq!['"'];
    let a3 = end_lit();
    let e = spec_encode(CmdModel::Rm { key: k });
    assert(e =~= a1 + (a2 + a3));
    lemma_split_region(s, i, a1, a2 + a3);
    lemma_split_region(s, i + 14, a2, a3);
}

/// Five matched regions compose into the encoding of a `Set` command.
proof fn lemma_parts_put(s: Seq<char>, i: int, k: Seq<char>, v: Seq<char>)
    requires
        lit_region(s, i, set_open()),
        str_region(s, i + 15, k),
        lit_region(s, i + 16 + esc(k).len(), mid_lit()),
        str_region(s, i + 26 + esc(k).len(), v),
        lit_region(s, i + 27 + esc(k).len() + esc(v).len(), end_lit()),
    ensures
        encodes_at(s, i, (CmdModel::Put { key: k, value: v })),
{
    let a1 = set_open();
    let a2 = esc(k) + seq!['"'];
    let a3 = mid_lit();
    let a4 = esc(v) + seq!['"'];
    let a5 = end_lit();
    let e = spec_encode(CmdModel::Put { key: k, value: v });
    lemma_join_region(s, i + 26 + esc(k).len(), a4, a5);
    lemma_join_region(s, i + 16 + esc(k).len(), a3, a4 + a5);
    lemma_join_region(s, i + 15, a2, a3 + (a4 + a5));
    lemma_join_region(s, i, a1, a2 + (a3 + (a4 + a5)));
    assert(e =~= a1 + (a2 + (a3 + (a4 + a5))));
}

/// Three matched regions compose into the encoding of a `Rm` command.
proof fn lemma_parts_rm(s: Seq<char>, i: int, k: Seq<char>)
    requires
        lit_region(s, i, rm_open()),
        str_region(s, i + 14, k),
        lit_region(s, i + 15 + esc(k).len(), end_lit()),
    ensures
        encodes_at(s, i, (CmdModel::Rm { key: k })),
{
    let a1 = rm_open();
    let a2 = esc(k) + seq!['"'];
    let a3 = end_lit();
    let e = spec_encode(CmdModel::Rm { key: k });
    lemma_join_region(s, i + 14, a2, a3);
    lemma_join_region(s, i, a1, a2 + a3);
    assert(e =~= a1 + (a2 + a3));
}

/// The opening literal of an encoded `Set`, executably.
fn set_open_vec() -> (v: Vec<char>)
    ensures
        v@ == set_open(),
{
    let v = vec!['{', '"', 'S', 'e', 't', '"', ':', '{', '"', 'k', 'e', 'y', '"', ':', '"'];
    proof {
        assert(v@ =~= set_open());
    }
    v
}

/// The opening literal of an encoded `Rm`, executably.
fn rm_open_vec() -> (v: Vec<char>)
    ensures
        v@ == rm_open(),
{
    let v = vec!['{', '"', 'R', 'm', '"', ':', '{', '"', 'k', 'e', 'y', '"', ':', '"'];
    proof {
        assert(v@ =~= rm_open());
    }
    v
}

/// The middle literal of an encoded `Set`, executably.
fn mid_vec() -> (v: Vec<char>)
    ensures
        v@ == mid_lit(),
{
    let v = vec![',', '"', 'v', 'a', 'l', 'u', 'e', '"', ':', '"'];
    proof {
        assert(v@ =~= mid_lit());
    }
    v
}

/// The closing literal of either encoded command, executably.
fn end_vec() -> (v: Vec<char>)
    ensures
        v@ == end_lit(),
{
    let v = vec!['}', '}'];
    proof {
        assert(v@ =~= end_lit());
    }
    v
}

/// Encode one command into its canonical character form.
pub fn encode_cmd(c: &Cmd) -> (out: Vec<char>)
    ensures
        out@ == spec_encode(c@),
{
    let mut out: Vec<char> = Vec::new();
    match c {
        Cmd::Put { key, value } => {
            out.push('{');
            out.push('"');
            out.push('S');
            out.push('e');
            out.push('t');
            out.push('"');
            out.push(':');
            out.push('{');
            out.push('"');
            out.push('k');
            out.push('e');
            out.push('y');
            out.push('"');
            out.push(':');
            out.push('"');
            proof {
                assert(out@ =~= set_open());
            }
            push_escaped(&mut out, key.as_str());
            out.push('"');
            out.push(',');
            out.push('"');
            out.push('v');
            out.push('a');
            out.push('l');
            out.push('u');
            out.push('e');
            out.push('"');
            out.push(':');
            out.push('"');
            proof {
                assert(out@ =~= set_open() + esc(key@) + seq!['"'] + mid_lit());
            }
            push_escaped(&mut out, value.as_str());
            out.push('"');
            out.push('}');
            out.push('}');
            proof {
                assert(out@ =~= spec_encode(c@));
            }
        },
        Cmd::Rm { key } => {
            out.push('{');
            out.push('"');
            out.push('R');
            out.push('m');
            out.push('"');
            out.push(':');
            out.push('{');
            out.push('"');
            out.push('k');
            out.push('e');
            out.push('y');
            out.push('"');
            out.push(':');
            out.push('"');
            proof {
                assert(out@ =~= rm_open());
            }
            push_escaped(&mut out, key.as_str());
            out.push('"');
            out.push('}');
            out.push('}');
            proof {
                assert(out@ =~= spec_encode(c@));
            }
        },
    }
    out
}

/// Outcome of decoding one command from the input.
pub enum DecodeResult {
    /// A complete command was decoded; `end` is the offset just past it.
    Found { cmd: Cmd, end: usize },
    /// The input ends before the command does; at end of file this is not
    /// an error.
    Partial,
    /// The available input cannot begin the encoding of any command.
    Corrupt,
}

/// Decode one command starting at `start`.
///
/// If the input holds a complete encoding at `start`, that command and the
/// offset just past it are returned; `Found` is never returned otherwise.
pub fn decode_cmd(data: &Vec<char>, start: usize) -> (r: DecodeResult)
    requires
        start <= data@.len(),
    ensures
        (r matches DecodeResult::Found { cmd, end } ==> encodes_at(data@, start as int, cmd@)
            && end == start + spec_encode(cmd@).len()),
        forall|c: CmdModel|
            #[trigger] encodes_at(data@, start as int, c) ==> (r matches DecodeResult::Found {
                cmd,
                end,
            } && cmd@ == c && end == start + spec_encode(c).len()),
        start == data@.len() ==> (r matches DecodeResult::Partial),
{
    let ghost d = data@;
    let so = set_open_vec();
    let ro = rm_open_vec();
    let r1 = match_lit(data, start, &so);
    if let LitParse::Hit { end: end0 } = r1 {
        decode_put_body(data, start, end0)
    } else {
        let r2 = match_lit(data, start, &ro);
        if let LitParse::Hit { end: end0 } = r2 {
            decode_rm_body(data, start, end0)
        } else {
            let short = matches!(r1, LitParse::Short) || matches!(r2, LitParse::Short);
            proof {
                assert forall|c: CmdModel| !(#[trigger] encodes_at(d, start as int, c)) by {
                    if encodes_at(d, start as int, c) {
                        match c {
                            CmdModel::Put { key, value } => {
                                lemma_encodes_put_parts(d, start as int, key, value);
                                if (r1 matches LitParse::Mismatch) {
                                    let j = choose|m: int|
                                        0 <= m < so@.len() && start + m < d.len() && d[start + m]
                                            != so@[m];
                                    lemma_lit_char(d, start as int, set_open(), j);
                                }
                            },
                            CmdModel::Rm { key } => {
                                lemma_encodes_rm_parts(d, start as int, key);
                                if (r2 matches LitParse::Mismatch) {
                                    let j = choose|m: int|
                                        0 <= m < ro@.len() && start + m < d.len() && d[start + m]
                                            != ro@[m];
                                    lemma_lit_char(d, start as int, rm_open(), j);
                                }
                            },
                        }
                    }
                }
            }
            if short {
                DecodeResult::Partial
            } else {
                DecodeResult::Corrupt
            }
        }
    }
}

/// Decode the remainder of a `Set` command whose opening literal ended at
/// `end0`.
fn decode_put_body(data: &Vec<char>, start: usize, end0: usize) -> (r: DecodeResult)
    requires
        start <= data@.len(),
        end0 == start + set_open().len(),
        lit_region(data@, start as int, set_open()),
    ensures
        (r matches DecodeResult::Found { cmd, end } ==> encodes_at(data@, start as int, cmd@)
            && end == start + spec_encode(cmd@).len()),
        forall|c: CmdModel|
            #[trigger] encodes_at(data@, start as int, c) ==> (r matches DecodeResult::Found {
                cmd,
                end,
            } && cmd@ == c && end == start + spec_encode(c).len()),
{
    let ghost d = data@;
    proof {
        lemma_lit_char(d, start as int, set_open(), 2);
    }
    let ml = mid_vec();
    let el = end_vec();
    let kp = parse_string(data, end0);
    match kp {
        StrParse::Hit { s: kstr, end: end1 } => {
            let mp = match_lit(data, end1, &ml);
            match mp {
                LitParse::Hit { end: end2 } => {
                    let vp = parse_string(data, end2);
                    match vp {
                        StrParse::Hit { s: vstr, end: end3 } => {
                            let ep = match_lit(data, end3, &el);
                            match ep {
                                LitParse::Hit { end: end4 } => {
                                    proof {
                                        lemma_parts_put(d, start as int, kstr@, vstr@);
                                        lemma_encode_len(CmdModel::Put { key: kstr@, value: vstr@ });
                                        assert forall|c: CmdModel| #[trigger] encodes_at(
                                            d,
                                            start as int,
                                            c,
                                        ) implies c == (CmdModel::Put { key: kstr@, value: vstr@ })
                                            && start + spec_encode(c).len() == end4 by {
                                            match c {
                                                CmdModel::Put { key, value } => {
                                                    lemma_encodes_put_parts(d, start as int, key, value);
                                                    assert(str_region(d, end0 as int, key));
                                                    assert(kstr@ == key);
                                                    assert(str_region(d, end2 as int, value));
                                                    assert(vstr@ == value);
                                                    lemma_encode_len(c);
                                                },
                                                CmdModel::Rm { key } => {
                                                    lemma_encodes_rm_parts(d, start as int, key);
                                                    lemma_lit_char(d, start as int, rm_open(), 2);
                                                },
                                            }
                                        }
                                    }
                                    DecodeResult::Found {
                                        cmd: Cmd::Put { key: kstr, value: vstr },
                                        end: end4,
                                    }
                                },
                                _ => {
                                    proof {
                                        decode_put_no_cmd(d, start as int, end0 as int, kstr@, end1 as int, end2 as int, Option::Some((end3 as int, vstr@)), ep);
                                    }
                                    if let LitParse::Short = ep {
                                        DecodeResult::Partial
                                    } else {
                                        DecodeResult::Corrupt
                                    }
                                },
                            }
                        },
                        StrParse::Short => {
                            proof {
                                decode_put_no_cmd(d, start as int, end0 as int, kstr@, end1 as int, end2 as int, Option::None, LitParse::Hit { end: end2 });
                            }
                            DecodeResult::Partial
                        },
                        StrParse::Mismatch => {
                            proof {
                                decode_put_no_cmd(d, start as int, end0 as int, kstr@, end1 as int, end2 as int, Option::None, LitParse::Hit { end: end2 });
                            }
                            DecodeResult::Corrupt
                        },
                    }
                },
                _ => {
                    proof {
                        assert forall|c: CmdModel| !(#[trigger] encodes_at(d, start as int, c)) by {
                            if encodes_at(d, start as int, c) {
                                match c {
                                    CmdModel::Put { key, value } => {
                                        lemma_encodes_put_parts(d, start as int, key, value);
                                        assert(str_region(d, end0 as int, key));
                                        assert(kstr@ == key);
                                        assert(lit_region(d, end1 as int, mid_lit()));
                                        if (mp matches LitParse::Mismatch) {
                                            let j = choose|m: int|
                                                0 <= m < ml@.len() && end1 + m < d.len() && d[end1
                                                    + m] != ml@[m];
                                            lemma_lit_char(d, end1 as int, mid_lit(), j);
                                        }
                                    },
                                    CmdModel::Rm { key } => {
                                        lemma_encodes_rm_parts(d, start as int, key);
                                        lemma_lit_char(d, start as int, rm_open(), 2);
                                    },
                                }
                            }
                        }
                    }
                    if let LitParse::Short = mp {
                        DecodeResult::Partial
                    } else {
                        DecodeResult::Corrupt
                    }
                },
            }
        },
        StrParse::Short => {
            proof {
                assert forall|c: CmdModel| !(#[trigger] encodes_at(d, start as int, c)) by {
                    if encodes_at(d, start as int, c) {
                        match c {
                            CmdModel::Put { key, value } => {
                                lemma_encodes_put_parts(d, start as int, key, value);
                                assert(str_region(d, end0 as int, key));
                            },
                            CmdModel::Rm { key } => {
                                lemma_encodes_rm_parts(d, start as int, key);
                                lemma_lit_char(d, start as int, rm_open(), 2);
                            },
                        }
                    }
                }
            }
            DecodeResult::Partial
        },
        StrParse::Mismatch => {
            proof {
                assert forall|c: CmdModel| !(#[trigger] encodes_at(d, start as int, c)) by {
                    if encodes_at(d, start as int, c) {
                        match c {
                            CmdModel::Put { key, value } => {
                                lemma_encodes_put_parts(d, start as int, key, value);
                                assert(str_region(d, end0 as int, key));
                            },
                            CmdModel::Rm { key } => {
                                lemma_encodes_rm_parts(d, start as int, key);
                                lemma_lit_char(d, start as int, rm_open(), 2);
                            },
                        }
                    }
                }
            }
            DecodeResult::Corrupt
        },
    }
}

/// No command can be encoded at `i` when the `Set` path has failed after
/// the key; used for the later failure sites of `decode_put_body`.
proof fn decode_put_no_cmd(
    d: Seq<char>,
    i: int,
    end0: int,
    k: Seq<char>,
    end1: int,
    end2: int,
    val: Option<(int, Seq<char>)>,
    ep: LitParse,
)
    requires
        lit_region(d, i, set_open()),
        end0 == i + set_open().len(),
        str_region(d, end0, k),
        end1 == end0 + esc(k).len() + 1,
        lit_region(d, end1, mid_lit()),
        end2 == end1 + mid_lit().len(),
        match val {
            Option::Some((end3, v)) => {
                &&& str_region(d, end2, v)
                &&& end3 == end2 + esc(v).len() + 1
                &&& !(ep matches LitParse::Hit { end: _ })
                &&& (ep matches LitParse::Short ==> d.len() < end3 + end_lit().len())
                &&& (ep matches LitParse::Mismatch ==> exists|j: int|
                    0 <= j < end_lit().len() && end3 + j < d.len() && d[end3 + j] != end_lit()[j])
            },
            Option::None => forall|v: Seq<char>| !(#[trigger] str_region(d, end2, v)),
        },
    ensures
        forall|c: CmdModel| !(#[trigger] encodes_at(d, i, c)),
{
    lemma_lit_char(d, i, set_open(), 2);
    assert forall|c: CmdModel| !(#[trigger] encodes_at(d, i, c)) by {
        if encodes_at(d, i, c) {
            match c {
                CmdModel::Put { key, value } => {
                    lemma_encodes_put_parts(d, i, key, value);
                    assert(str_region(d, end0, key));
                    lemma_str_region_unique(d, end0, k, key);
                    assert(key == k);
                    assert(str_region(d, end2, value));
                    match val {
                        Option::Some((end3, v)) => {
                            lemma_str_region_unique(d, end2, v, value);
                            assert(value == v);
                            assert(lit_region(d, end3, end_lit()));
                            if (ep matches LitParse::Mismatch) {
                                let j = choose|m: int|
                                    0 <= m < end_lit().len() && end3 + m < d.len() && d[end3 + m]
                                        != end_lit()[m];
                                lemma_lit_char(d, end3, end_lit(), j);
                            }
                        },
                        Option::None => {},
                    }
                },
                CmdModel::Rm { key } => {
                    lemma_encodes_rm_parts(d, i, key);
                    lemma_lit_char(d, i, rm_open(), 2);
                },
            }
        }
    }
}

/// Two strings with a region at the same start are the same string.
proof fn lemma_str_region_unique(d: Seq<char>, i: int, a: Seq<char>, b: Seq<char>)
    requires
        str_region(d, i, a),
        str_region(d, i, b),
    ensures
        a == b,
    decreases a.len(),
{
    if a.len() == 0 {
        if b.len() > 0 {
            assert(d.subrange(i, i + 1) =~= seq!['"']);
            assert(d.subrange(i, i + 1)[0] == d[i]);
            lemma_str_region_step(d, i, b);
            let e0 = esc_char(b[0]);
            assert(d[i] == e0[0]);
            assert(false);
        }
        assert(a =~= b);
    } else if b.len() == 0 {
        assert(d.subrange(i, i + 1) =~= seq!['"']);
        assert(d.subrange(i, i + 1)[0] == d[i]);
        lemma_str_region_step(d, i, a);
        let e0 = esc_char(a[0]);
        assert(d[i] == e0[0]);
        assert(false);
    } else {
        lemma_str_region_step(d, i, a);
        lemma_str_region_step(d, i, b);
        let ea = esc_char(a[0]);
        let eb = esc_char(b[0]);
        assert(d[i] == ea[0] && d[i] == eb[0]);
        if ea[0] == '\\' || eb[0] == '\\' {
            assert(d[i + 1] == ea[1] || ea.len() == 1);
            assert(d[i + 1] == eb[1] || eb.len() == 1);
        }
        assert(a[0] == b[0]) by {
            if is_plain(a[0]) && is_plain(b[0]) {
            } else if !is_plain(a[0]) && !is_plain(b[0]) {
                if a[0] == '"' || a[0] == '\\' {
                } else {
                    let ua = a[0] as u32;
                    let ub = b[0] as u32;
                    assert(d[i + 4] == hex_char(ua as int / 16) && d[i + 5] == hex_char(
                        ua as int % 16,
                    ));
                    assert(d[i + 4] == hex_char(ub as int / 16) && d[i + 5] == hex_char(
                        ub as int % 16,
                    ));
                    lemma_hex_char_inj(ua as int / 16, ub as int / 16);
                    lemma_hex_char_inj(ua as int % 16, ub as int % 16);
                    lemma_char_inj(a[0], b[0]);
                }
            }
        }
        assert(esc_char(a[0]) == esc_char(b[0]));
        lemma_str_region_unique(d, i + ea.len(), a.skip(1), b.skip(1));
        assert(a =~= seq![a[0]] + a.skip(1));
        assert(b =~= seq![b[0]] + b.skip(1));
    }
}

/// Decode the remainder of a `Rm` command whose opening literal ended at
/// `end0`.
fn decode_rm_body(data: &Vec<char>, start: usize, end0: usize) -> (r: DecodeResult)
    requires
        start <= data@.len(),
        end0 == start + rm_open().len(),
        lit_region(data@, start as int, rm_open()),
    ensures
        (r matches DecodeResult::Found { cmd, end } ==> encodes_at(data@, start as int, cmd@)
            && end == start + spec_encode(cmd@).len()),
        forall|c: CmdModel|
            #[trigger] encodes_at(data@, start as int, c) ==> (r matches DecodeResult::Found {
                cmd,
                end,
            } && cmd@ == c && end == start + spec_encode(c).len()),
{
    let ghost d = data@;
    proof {
        lemma_lit_char(d, start as int, rm_open(), 2);
    }
    let el = end_vec();
    let kp = parse_string(data, end0);
    match kp {
        StrParse::Hit { s: kstr, end: end1 } => {
            let ep = match_lit(data, end1, &el);
            match ep {
                LitParse::Hit { end: end2 } => {
                    proof {
                        lemma_parts_rm(d, start as int, kstr@);
                        lemma_encode_len(CmdModel::Rm { key: kstr@ });
                        assert forall|c: CmdModel| #[trigger] encodes_at(d, start as int, c) implies c
                            == (CmdModel::Rm { key: kstr@ }) && start + spec_encode(c).len()
                            == end2 by {
                            match c {
                                CmdModel::Put { key, value } => {
                                    lemma_encodes_put_parts(d, start as int, key, value);
                                    lemma_lit_char(d, start as int, set_open(), 2);
                                },
                                CmdModel::Rm { key } => {
                                    lemma_encodes_rm_parts(d, start as int, key);
                                    assert(str_region(d, end0 as int, key));
                                    assert(kstr@ == key);
                                    lemma_encode_len(c);
                                },
                            }
                        }
                    }
                    DecodeResult::Found { cmd: Cmd::Rm { key: kstr }, end: end2 }
                },
                _ => {
                    proof {
                        assert forall|c: CmdModel| !(#[trigger] encodes_at(d, start as int, c)) by {
                            if encodes_at(d, start as int, c) {
                                match c {
                                    CmdModel::Put { key, value } => {
                                        lemma_encodes_put_parts(d, start as int, key, value);
                                        lemma_lit_char(d, start as int, set_open(), 2);
                                    },
                                    CmdModel::Rm { key } => {
                                        lemma_encodes_rm_parts(d, start as int, key);
                                        assert(str_region(d, end0 as int, key));
                                        assert(kstr@ == key);
                                        assert(lit_region(d, end1 as int, end_lit()));
                                        if (ep matches LitParse::Mismatch) {
                                            let j = choose|m: int|
                                                0 <= m < el@.len() && end1 + m < d.len() && d[end1
                                                    + m] != el@[m];
                                            lemma_lit_char(d, end1 as int, end_lit(), j);
                                        }
                                    },
                                }
                            }
                        }
                    }
                    if let LitParse::Short = ep {
                        DecodeResult::Partial
                    } else {
                        DecodeResult::Corrupt
                    }
                },
            }
        },
        StrParse::Short => {
            proof {
                assert forall|c: CmdModel| !(#[trigger] encodes_at(d, start as int, c)) by {
                    if encodes_at(d, start as int, c) {
                        match c {
                            CmdModel::Put { key, value } => {
                                lemma_encodes_put_parts(d, start as int, key, value);
                                lemma_lit_char(d, start as int, set_open(), 2);
                            },
                            CmdModel::Rm { key } => {
                                lemma_encodes_rm_parts(d, start as int, key);
                                assert(str_region(d, end0 as int, key));
                            },
                        }
                    }
                }
            }
            DecodeResult::Partial
        },
        StrParse::Mismatch => {
            proof {
                assert forall|c: CmdModel| !(#[trigger] encodes_at(d, start as int, c)) by {
                    if encodes_at(d, start as int, c) {
                        match c {
                            CmdModel::Put { key, value } => {
                                lemma_encodes_put_parts(d, start as int, key, value);
                                lemma_lit_char(d, start as int, set_open(), 2);
                            },
                            CmdModel::Rm { key } => {
                                lemma_encodes_rm_parts(d, start as int, key);
                                assert(str_region(d, end0 as int, key));
                            },
                        }
                    }
                }
            }
            DecodeResult::Corrupt
        },
    }
}

} // verus!
