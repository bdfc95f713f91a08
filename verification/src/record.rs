//! Records and their on-disk encoding.
//!
//! A datafile is a concatenation of encoded records with no separators, so
//! the encoding must be self-delimiting: a decoder positioned at the start
//! of a record consumes exactly that record and reports where the next one
//! begins. Strings are framed by a decimal character count, a `:`, and the
//! characters themselves; a record is a tag character (`S` or `R`) followed
//! by its framed fields.

use vstd::prelude::*;
use vstd::string::StrSliceExecFns;
use vstd::string::StringExecFns;

use crate::error::KvError;
use crate::error::Result;
use crate::text::all_digits;
use crate::text::dec_rep;
use crate::text::digit_val;
use crate::text::is_digit;
use crate::text::lemma_dec_rep_value;
use crate::text::lemma_parse_digits_block;
use crate::text::lemma_parse_digits_extend;
use crate::text::lemma_parse_digits_grows;
use crate::text::lemma_parse_digits_range;
use crate::text::parse_digits;
use crate::text::push_char;
use crate::text::u64_to_dec;

verus! {

/// One persisted mutation: either an assertion that a key holds a value, or
/// an assertion that a key is absent.
#[derive(Clone, Debug)]
pub enum Record {
    Put { key: String, value: String },
    Remove { key: String },
}

/// The mathematical shape of a record.
pub enum RecordModel {
    Put { key: Seq<char>, value: Seq<char> },
    Remove { key: Seq<char> },
}

impl View for Record {
    type V = RecordModel;

    open spec fn view(&self) -> RecordModel {
        match self {
            Record::Put { key, value } => RecordModel::Put { key: key@, value: value@ },
            Record::Remove { key } => RecordModel::Remove { key: key@ },
        }
    }
}

/// Frame a string: its length in decimal, a colon, then the characters.
pub open spec fn enc_str(body: Seq<char>) -> Seq<char> {
    dec_rep(body.len()) + seq![':'] + body
}

/// Encode one record.
pub open spec fn enc_rec(r: RecordModel) -> Seq<char> {
    match r {
        RecordModel::Put { key, value } => seq!['S'] + enc_str(key) + enc_str(value),
        RecordModel::Remove { key } => seq!['R'] + enc_str(key),
    }
}

/// Parse a framed length at position `i`: one or more digits, then a colon.
/// Returns the length and the position just past the colon.
pub open spec fn parse_len(s: Seq<char>, i: int) -> Option<(int, int)> {
    if 0 <= i < s.len() && is_digit(s[i]) {
        let (n, j) = parse_digits(s, i, 0);
        if j < s.len() && s[j] == ':' {
            Some((n, j + 1))
        } else {
            None
        }
    } else {
        None
    }
}

/// Parse a framed string at position `i`.
pub open spec fn parse_str(s: Seq<char>, i: int) -> Option<(Seq<char>, int)> {
    match parse_len(s, i) {
        Some((n, j)) => if j + n <= s.len() {
            Some((s.subrange(j, j + n), j + n))
        } else {
            None
        },
        None => None,
    }
}

/// Parse one record at position `i`; returns the record and the position of
/// the next one.
pub open spec fn parse_rec(s: Seq<char>, i: int) -> Option<(RecordModel, int)> {
    if 0 <= i < s.len() {
        if s[i] == 'S' {
            match parse_str(s, i + 1) {
                Some((key, j)) => match parse_str(s, j) {
                    Some((value, l)) => Some((RecordModel::Put { key, value }, l)),
                    None => None,
                },
                None => None,
            }
        } else if s[i] == 'R' {
            match parse_str(s, i + 1) {
                Some((key, j)) => Some((RecordModel::Remove { key }, j)),
                None => None,
            }
        } else {
            None
        }
    } else {
        None
    }
}

/// A successful string parse always makes progress and stays in bounds.
pub proof fn lemma_parse_str_range(s: Seq<char>, i: int)
    requires
        parse_str(s, i) is Some,
    ensures
        i < (parse_str(s, i)->0).1 <= s.len(),
        (parse_len(s, i)->0).0 >= 0,
{
    lemma_parse_digits_range(s, i, 0);
    lemma_parse_digits_grows(s, i, 0);
}

/// Appending to the string does not change an already successful parse.
pub proof fn lemma_parse_str_extend(s: Seq<char>, t: Seq<char>, i: int)
    requires
        parse_str(s, i) is Some,
    ensures
        parse_str(s + t, i) == parse_str(s, i),
{
    let u = s + t;
    assert(u[i] == s[i]);
    lemma_parse_digits_range(s, i, 0);
    let (n, j) = parse_digits(s, i, 0);
    lemma_parse_digits_extend(s, t, i, 0);
    assert(u[j] == s[j]);
    lemma_parse_str_range(s, i);
    let end = (parse_str(s, i)->0).1;
    assert(u.subrange(j + 1, end) =~= s.subrange(j + 1, end));
}

/// Appending to the string does not change an already successful parse.
pub proof fn lemma_parse_rec_extend(s: Seq<char>, t: Seq<char>, i: int)
    requires
        parse_rec(s, i) is Some,
    ensures
        parse_rec(s + t, i) == parse_rec(s, i),
{
    let u = s + t;
    assert(u[i] == s[i]);
    if s[i] == 'S' {
        lemma_parse_str_extend(s, t, i + 1);
        lemma_parse_str_extend(s, t, (parse_str(s, i + 1)->0).1);
    } else {
        lemma_parse_str_extend(s, t, i + 1);
    }
}

/// A framed string embedded in `s` parses back to exactly its body.
pub proof fn lemma_parse_str_of_enc(s: Seq<char>, i: int, body: Seq<char>)
    requires
        0 <= i,
        i + enc_str(body).len() <= s.len(),
        s.subrange(i, i + enc_str(body).len()) =~= enc_str(body),
    ensures
        parse_str(s, i) == Some((body, i + enc_str(body).len())),
{
    let d = dec_rep(body.len());
    lemma_dec_rep_value(body.len());
    let e = enc_str(body);
    assert(e.len() == d.len() + 1 + body.len());
    assert forall|k: int| 0 <= k < e.len() implies s[i + k] == e[k] by {
        assert(s.subrange(i, i + e.len())[k] == s[i + k]);
    }
    assert forall|k: int| 0 <= k < d.len() implies e[k] == d[k] by {
        assert((dec_rep(body.len()) + seq![':'])[k] == d[k]);
    }
    assert(e[d.len() as int] == ':');
    assert(s.subrange(i, i + d.len()) =~= d);
    assert(s[i + d.len()] == ':');
    assert(!is_digit(':'));
    lemma_parse_digits_block(s, i, 0, d);
    assert(parse_digits(s, i, 0) == (0 * crate::text::pow10(d.len()) + body.len() as int, i
        + d.len()));
    assert(0 * crate::text::pow10(d.len()) == 0);
    assert(is_digit(s[i]));
    let j = i + d.len() + 1;
    assert(parse_len(s, i) == Some((body.len() as int, j)));
    assert(s.subrange(j, j + body.len()) =~= body) by {
        assert forall|k: int| 0 <= k < body.len() implies s.subrange(j, j + body.len())[k]
            == body[k] by {
            assert(s[j + k] == e[d.len() + 1 + k]);
            assert(e[d.len() + 1 + k] == body[k]);
        }
    }
}

/// A record encoding embedded in `s` parses back to exactly that record,
/// ending where the encoding ends: the encoding is self-delimiting.
pub proof fn lemma_parse_rec_of_enc(s: Seq<char>, i: int, r: RecordModel)
    requires
        0 <= i,
        i + enc_rec(r).len() <= s.len(),
        s.subrange(i, i + enc_rec(r).len()) =~= enc_rec(r),
    ensures
        parse_rec(s, i) == Some((r, i + enc_rec(r).len())),
{
    let e = enc_rec(r);
    assert forall|k: int| 0 <= k < e.len() implies s[i + k] == e[k] by {
        assert(s.subrange(i, i + e.len())[k] == s[i + k]);
    }
    match r {
        RecordModel::Put { key, value } => {
            let ek = enc_str(key);
            let ev = enc_str(value);
            assert(e =~= seq!['S'] + ek + ev);
            assert(e.len() == 1 + ek.len() + ev.len());
            assert(e[0] == 'S');
            assert(s[i] == 'S');
            assert forall|k: int| 0 <= k < ek.len() implies e[1 + k] == ek[k] by {
                assert((seq!['S'] + ek)[1 + k] == ek[k]);
            }
            assert forall|k: int| 0 <= k < ev.len() implies e[1 + ek.len() + k] == ev[k] by {}
            assert(s.subrange(i + 1, i + 1 + ek.len()) =~= ek);
            lemma_parse_str_of_enc(s, i + 1, key);
            let j = i + 1 + ek.len();
            assert(s.subrange(j, j + ev.len()) =~= ev);
            lemma_parse_str_of_enc(s, j, value);
            assert(('S' as u32) != ('R' as u32));
        },
        RecordModel::Remove { key } => {
            let ek = enc_str(key);
            assert(e =~= seq!['R'] + ek);
            assert(e[0] == 'R');
            assert(s[i] == 'R');
            assert forall|k: int| 0 <= k < ek.len() implies e[1 + k] == ek[k] by {}
            assert(s.subrange(i + 1, i + 1 + ek.len()) =~= ek);
            lemma_parse_str_of_enc(s, i + 1, key);
            assert(('R' as u32) != ('S' as u32));
        },
    }
}

/// Appends the framing of `body` onto `out`.
fn append_enc_str(out: &mut String, body: &String)
    ensures
        final(out)@ == old(out)@ + enc_str(body@),
{
    let len = body.as_str().unicode_len();
    let dec = u64_to_dec(len as u64);
    out.append(dec.as_str());
    push_char(out, ':');
    out.append(body.as_str());
    proof {
        assert(out@ =~= old(out)@ + enc_str(body@));
    }
}

/// Encode one record as text.
pub fn encode_record(r: &Record) -> (res: String)
    ensures
        res@ == enc_rec(r@),
{
    let mut out = String::new();
    match r {
        Record::Put { key, value } => {
            push_char(&mut out, 'S');
            append_enc_str(&mut out, key);
            append_enc_str(&mut out, value);
            proof {
                assert(out@ =~= enc_rec(r@));
            }
        },
        Record::Remove { key } => {
            push_char(&mut out, 'R');
            append_enc_str(&mut out, key);
            proof {
                assert(out@ =~= enc_rec(r@));
            }
        },
    }
    out
}

/// Parse a framed string of `s` at position `i`; `len` is the length of `s`.
pub(crate) fn parse_str_exec(s: &str, i: usize, len: usize) -> (r: Option<(String, usize)>)
    requires
        len == s@.len(),
    ensures
        match r {
            Some((body, next)) => parse_str(s@, i as int) == Some((body@, next as int)) && i < next
                <= len,
            None => parse_str(s@, i as int) is None,
        },
{
    if i >= len {
        return None;
    }
    let c0 = s.get_char(i);
    if !((c0 as u32) >= 48 && (c0 as u32) <= 57) {
        assert(!is_digit(s@[i as int]));
        return None;
    }
    let mut j = i;
    let mut acc: usize = 0;
    let mut over = false;
    let ghost mut g: int = 0;
    loop
        invariant
            len == s@.len(),
            i <= j <= len,
            0 <= g,
            parse_digits(s@, i as int, 0) == parse_digits(s@, j as int, g),
            !over ==> g == acc as int,
            over ==> g > usize::MAX,
        ensures
            i <= j <= len,
            0 <= g,
            parse_digits(s@, i as int, 0) == parse_digits(s@, j as int, g),
            !over ==> g == acc as int,
            over ==> g > usize::MAX,
            j == len || !is_digit(s@[j as int]),
        decreases len - j,
    {
        if j >= len {
            break ;
        }
        let c = s.get_char(j);
        if !((c as u32) >= 48 && (c as u32) <= 57) {
            assert(!is_digit(s@[j as int]));
            break ;
        }
        assert(is_digit(s@[j as int]));
        let d = ((c as u32) - 48) as usize;
        let ghost g0: int = g;
        let ghost dv: int = digit_val(s@[j as int]);
        proof {
            assert(0 <= dv <= 9);
            g = g0 * 10 + dv;
            assert(g >= g0) by (nonlinear_arith)
                requires
                    0 <= g0,
                    0 <= dv,
                    g == g0 * 10 + dv,
            ;
        }
        if !over {
            match acc.checked_mul(10) {
                Some(m) => {
                    match m.checked_add(d) {
                        Some(a2) => {
                            acc = a2;
                        },
                        None => {
                            over = true;
                        },
                    }
                },
                None => {
                    over = true;
                },
            }
            proof {
                if over {
                    assert(g > usize::MAX);
                }
            }
        }
        j += 1;
    }
    proof {
        assert(parse_digits(s@, j as int, g) == (g, j as int));
    }
    if j >= len {
        assert(parse_len(s@, i as int) is None);
        return None;
    }
    let colon = s.get_char(j);
    if colon != ':' {
        return None;
    }
    assert(is_digit(s@[i as int]));
    assert(parse_len(s@, i as int) == Some((g, j as int + 1)));
    let body_start = j + 1;
    let remaining = len - body_start;
    if over || acc > remaining {
        assert(g > remaining as int);
        assert(parse_str(s@, i as int) is None);
        return None;
    }
    let body = s.substring_char(body_start, body_start + acc).to_owned();
    proof {
        assert(body@ =~= s@.subrange(body_start as int, body_start + acc as int));
    }
    Some((body, body_start + acc))
}

/// Decode one record of `s` starting at position `pos`.
///
/// Succeeds exactly when a record parses at `pos`; otherwise reports
/// `SerdeError`. On success the returned position is where the next record
/// would begin.
pub fn decode_record(s: &str, pos: usize) -> (r: Result<(Record, usize)>)
    ensures
        match r {
            Ok((rec, next)) => parse_rec(s@, pos as int) == Some((rec@, next as int)) && pos < next
                <= s@.len(),
            Err(e) => parse_rec(s@, pos as int) is None && e == KvError::SerdeError,
        },
{
    let len = s.unicode_len();
    if pos >= len {
        return Err(KvError::SerdeError);
    }
    let tag = s.get_char(pos);
    if tag == 'S' {
        match parse_str_exec(s, pos + 1, len) {
            Some((key, j)) => match parse_str_exec(s, j, len) {
                Some((value, l)) => Ok((Record::Put { key, value }, l)),
                None => Err(KvError::SerdeError),
            },
            None => Err(KvError::SerdeError),
        }
    } else if tag == 'R' {
        match parse_str_exec(s, pos + 1, len) {
            Some((key, j)) => Ok((Record::Remove { key }, j)),
            None => Err(KvError::SerdeError),
        }
    } else {
        Err(KvError::SerdeError)
    }
}

} // verus!
