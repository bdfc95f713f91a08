//! The wire protocol: one request object per connection, one response
//! object per connection, in the same self-delimiting encoding that the
//! datafiles use for records.

use vstd::prelude::*;
use vstd::string::StrSliceExecFns;

use crate::record::enc_str;
use crate::record::parse_str;
use crate::text::push_char;
use crate::text::u64_to_dec;

verus! {

/// One request against the store.
#[derive(Clone, Debug)]
pub enum Request {
    Get { key: String },
    Put { key: String, value: String },
    Rm { key: String },
}

/// One response from the store: a successful result carrying an optional
/// value, or an error message. The client recognizes the literal
/// `Key not found` message as a distinguished sentinel.
#[derive(Clone, Debug)]
pub enum Response {
    Success(Option<String>),
    Failure(String),
}

/// Errors of the transport layer.
#[derive(Clone, Copy, Debug, PartialEq, Eq, Structural)]
pub enum ProtocolError {
    IoError,
    SerdeError,
}

/// The mathematical shape of a request.
pub enum RequestModel {
    Get { key: Seq<char> },
    Put { key: Seq<char>, value: Seq<char> },
    Rm { key: Seq<char> },
}

/// The mathematical shape of a response.
pub enum ResponseModel {
    Success { value: Option<Seq<char>> },
    Failure { message: Seq<char> },
}

impl View for Request {
    type V = RequestModel;

    open spec fn view(&self) -> RequestModel {
        match self {
            Request::Get { key } => RequestModel::Get { key: key@ },
            Request::Put { key, value } => RequestModel::Put { key: key@, value: value@ },
            Request::Rm { key } => RequestModel::Rm { key: key@ },
        }
    }
}

impl View for Response {
    type V = ResponseModel;

    open spec fn view(&self) -> ResponseModel {
        match self {
            Response::Success(v) => ResponseModel::Success {
                value: match v {
                    Some(s) => Some(s@),
                    None => None,
                },
            },
            Response::Failure(m) => ResponseModel::Failure { message: m@ },
        }
    }
}

/// Encode one request.
pub open spec fn enc_req(r: RequestModel) -> Seq<char> {
    match r {
        RequestModel::Get { key } => seq!['G'] + enc_str(key),
        RequestModel::Put { key, value } => seq!['S'] + enc_str(key) + enc_str(value),
        RequestModel::Rm { key } => seq!['R'] + enc_str(key),
    }
}

/// Encode one response.
pub open spec fn enc_resp(r: ResponseModel) -> Seq<char> {
    match r {
        ResponseModel::Success { value: Some(v) } => seq!['V'] + enc_str(v),
        ResponseModel::Success { value: None } => seq!['N'],
        ResponseModel::Failure { message } => seq!['E'] + enc_str(message),
    }
}

/// Parse one request at position `i`.
pub open spec fn parse_req(s: Seq<char>, i: int) -> Option<(RequestModel, int)> {
    if 0 <= i < s.len() {
        if s[i] == 'G' {
            match parse_str(s, i + 1) {
                Some((key, j)) => Some((RequestModel::Get { key }, j)),
                None => None,
            }
        } else if s[i] == 'S' {
            match parse_str(s, i + 1) {
                Some((key, j)) => match parse_str(s, j) {
                    Some((value, l)) => Some((RequestModel::Put { key, value }, l)),
                    None => None,
                },
                None => None,
            }
        } else if s[i] == 'R' {
            match parse_str(s, i + 1) {
                Some((key, j)) => Some((RequestModel::Rm { key }, j)),
                None => None,
            }
        } else {
            None
        }
    } else {
        None
    }
}

/// Parse one response at position `i`.
pub open spec fn parse_resp(s: Seq<char>, i: int) -> Option<(ResponseModel, int)> {
    if 0 <= i < s.len() {
        if s[i] == 'V' {
            match parse_str(s, i + 1) {
                Some((v, j)) => Some((ResponseModel::Success { value: Some(v) }, j)),
                None => None,
            }
        } else if s[i] == 'N' {
            Some((ResponseModel::Success { value: None }, i + 1))
        } else if s[i] == 'E' {
            match parse_str(s, i + 1) {
                Some((m, j)) => Some((ResponseModel::Failure { message: m }, j)),
                None => None,
            }
        } else {
            None
        }
    } else {
        None
    }
}

/// Appends the framing of `body` onto `out`.
fn append_framed(out: &mut String, body: &String)
    ensures
        final (out)@ == old(out)@ + enc_str(body@),
{
    let len = body.as_str().unicode_len();
    let dec = u64_to_dec(len as u64);
    out.append(dec.as_str());
    push_char(out, ':');
    out.append(body.as_str());
    proof {
        assert(out@ =~= old(out)@ + enc_str(body@));
    }
}

/// Encode one request as text.
pub fn encode_request(r: &Request) -> (res: String)
    ensures
        res@ == enc_req(r@),
{
    let mut out = String::new();
    match r {
        Request::Get { key } => {
            push_char(&mut out, 'G');
            append_framed(&mut out, key);
            proof {
                assert(out@ =~= enc_req(r@));
            }
        },
        Request::Put { key, value } => {
            push_char(&mut out, 'S');
            append_framed(&mut out, key);
            append_framed(&mut out, value);
            proof {
                assert(out@ =~= enc_req(r@));
            }
        },
        Request::Rm { key } => {
            push_char(&mut out, 'R');
            append_framed(&mut out, key);
            proof {
                assert(out@ =~= enc_req(r@));
            }
        },
    }
    out
}

/// Encode one response as text.
pub fn encode_response(r: &Response) -> (res: String)
    ensures
        res@ == enc_resp(r@),
{
    let mut out = String::new();
    match r {
        Response::Success(Some(v)) => {
            push_char(&mut out, 'V');
            append_framed(&mut out, v);
            proof {
                assert(out@ =~= enc_resp(r@));
            }
        },
        Response::Success(None) => {
            push_char(&mut out, 'N');
            proof {
                assert(out@ =~= enc_resp(r@));
            }
        },
        Response::Failure(m) => {
            push_char(&mut out, 'E');
            append_framed(&mut out, m);
            proof {
                assert(out@ =~= enc_resp(r@));
            }
        },
    }
    out
}

/// Decode one request starting at position `pos` of `s`.
pub fn decode_request(s: &str, pos: usize) -> (r: core::result::Result<
    (Request, usize),
    ProtocolError,
>)
    ensures
        match r {
            Ok((req, next)) => parse_req(s@, pos as int) == Some((req@, next as int)),
            Err(e) => parse_req(s@, pos as int) is None && e == ProtocolError::SerdeError,
        },
{
    let len = s.unicode_len();
    if pos >= len {
        return Err(ProtocolError::SerdeError);
    }
    let tag = s.get_char(pos);
    if tag == 'G' {
        match crate::record::parse_str_exec(s, pos + 1, len) {
            Some((key, j)) => Ok((Request::Get { key }, j)),
            None => Err(ProtocolError::SerdeError),
        }
    } else if tag == 'S' {
        match crate::record::parse_str_exec(s, pos + 1, len) {
            Some((key, j)) => match crate::record::parse_str_exec(s, j, len) {
                Some((value, l)) => Ok((Request::Put { key, value }, l)),
                None => Err(ProtocolError::SerdeError),
            },
            None => Err(ProtocolError::SerdeError),
        }
    } else if tag == 'R' {
        match crate::record::parse_str_exec(s, pos + 1, len) {
            Some((key, j)) => Ok((Request::Rm { key }, j)),
            None => Err(ProtocolError::SerdeError),
        }
    } else {
        Err(ProtocolError::SerdeError)
    }
}

/// Decode one response starting at position `pos` of `s`.
pub fn decode_response(s: &str, pos: usize) -> (r: core::result::Result<
    (Response, usize),
    ProtocolError,
>)
    ensures
        match r {
            Ok((resp, next)) => parse_resp(s@, pos as int) == Some((resp@, next as int)),
            Err(e) => parse_resp(s@, pos as int) is None && e == ProtocolError::SerdeError,
        },
{
    let len = s.unicode_len();
    if pos >= len {
        return Err(ProtocolError::SerdeError);
    }
    let tag = s.get_char(pos);
    if tag == 'V' {
        match crate::record::parse_str_exec(s, pos + 1, len) {
            Some((v, j)) => Ok((Response::Success(Some(v)), j)),
            None => Err(ProtocolError::SerdeError),
        }
    } else if tag == 'N' {
        Ok((Response::Success(None), pos + 1))
    } else if tag == 'E' {
        match crate::record::parse_str_exec(s, pos + 1, len) {
            Some((m, j)) => Ok((Response::Failure(m), j)),
            None => Err(ProtocolError::SerdeError),
        }
    } else {
        Err(ProtocolError::SerdeError)
    }
}

/// A request encoding embedded in `s` parses back to exactly that request.
pub proof fn lemma_parse_req_of_enc(s: Seq<char>, i: int, r: RequestModel)
    requires
        0 <= i,
        i + enc_req(r).len() <= s.len(),
        s.subrange(i, i + enc_req(r).len()) =~= enc_req(r),
    ensures
        parse_req(s, i) == Some((r, i + enc_req(r).len())),
{
    let e = enc_req(r);
    assert forall|k: int| 0 <= k < e.len() implies s[i + k] == e[k] by {
        assert(s.subrange(i, i + e.len())[k] == s[i + k]);
    }
    match r {
        RequestModel::Get { key } => {
            let ek = enc_str(key);
            assert(e =~= seq!['G'] + ek);
            assert(e[0] == 'G');
            assert(s[i] == 'G');
            assert forall|k: int| 0 <= k < ek.len() implies e[1 + k] == ek[k] by {}
            assert(s.subrange(i + 1, i + 1 + ek.len()) =~= ek);
            crate::record::lemma_parse_str_of_enc(s, i + 1, key);
        },
        RequestModel::Put { key, value } => {
            let ek = enc_str(key);
            let ev = enc_str(value);
            assert(e =~= seq!['S'] + ek + ev);
            assert(e[0] == 'S');
            assert(s[i] == 'S');
            assert forall|k: int| 0 <= k < ek.len() implies e[1 + k] == ek[k] by {
                assert((seq!['S'] + ek)[1 + k] == ek[k]);
            }
            assert forall|k: int| 0 <= k < ev.len() implies e[1 + ek.len() + k] == ev[k] by {}
            assert(s.subrange(i + 1, i + 1 + ek.len()) =~= ek);
            crate::record::lemma_parse_str_of_enc(s, i + 1, key);
            let j = i + 1 + ek.len();
            assert(s.subrange(j, j + ev.len()) =~= ev);
            crate::record::lemma_parse_str_of_enc(s, j, value);
        },
        RequestModel::Rm { key } => {
            let ek = enc_str(key);
            assert(e =~= seq!['R'] + ek);
            assert(e[0] == 'R');
            assert(s[i] == 'R');
            assert forall|k: int| 0 <= k < ek.len() implies e[1 + k] == ek[k] by {}
            assert(s.subrange(i + 1, i + 1 + ek.len()) =~= ek);
            crate::record::lemma_parse_str_of_enc(s, i + 1, key);
        },
    }
}

/// A response encoding embedded in `s` parses back to exactly that response.
pub proof fn lemma_parse_resp_of_enc(s: Seq<char>, i: int, r: ResponseModel)
    requires
        0 <= i,
        i + enc_resp(r).len() <= s.len(),
        s.subrange(i, i + enc_resp(r).len()) =~= enc_resp(r),
    ensures
        parse_resp(s, i) == Some((r, i + enc_resp(r).len())),
{
    let e = enc_resp(r);
    assert forall|k: int| 0 <= k < e.len() implies s[i + k] == e[k] by {
        assert(s.subrange(i, i + e.len())[k] == s[i + k]);
    }
    match r {
        ResponseModel::Success { value: Some(v) } => {
            let ev = enc_str(v);
            assert(e =~= seq!['V'] + ev);
            assert(e[0] == 'V');
            assert(s[i] == 'V');
            assert forall|k: int| 0 <= k < ev.len() implies e[1 + k] == ev[k] by {}
            assert(s.subrange(i + 1, i + 1 + ev.len()) =~= ev);
            crate::record::lemma_parse_str_of_enc(s, i + 1, v);
        },
        ResponseModel::Success { value: None } => {
            assert(e =~= seq!['N']);
            assert(e[0] == 'N');
            assert(s[i + 0] == e[0]);
            assert(s[i] == 'N');
        },
        ResponseModel::Failure { message } => {
            let em = enc_str(message);
            assert(e =~= seq!['E'] + em);
            assert(e[0] == 'E');
            assert(s[i] == 'E');
            assert forall|k: int| 0 <= k < em.len() implies e[1 + k] == em[k] by {}
            assert(s.subrange(i + 1, i + 1 + em.len()) =~= em);
            crate::record::lemma_parse_str_of_enc(s, i + 1, message);
        },
    }
}

} // verus!
