//! The wire protocol: requests and replies are framed as self-delimiting
//! JSON objects concatenated on the TCP stream, in the same style as the
//! on-disk command records. The decoder consumes exactly one object and
//! reports the offset just past it, so many frames can share one buffer.

use crate::codec::{
    encodes_at, esc, lemma_join_region, lemma_lit_char, lemma_split_region, lit_region, match_lit,
    parse_string, push_escaped, spec_encode, str_region, CmdModel, LitParse, StrParse,
};
use vstd::prelude::*;

verus! {

/// One request from a client.
#[derive(Debug, Clone)]
pub enum Request {
    /// Read the value bound to `key`.
    Get { key: String },
    /// Bind `key` to `value`.
    Put { key: String, value: String },
    /// Unbind `key`.
    Rm { key: String },
}

/// The mathematical value of a request.
pub enum ReqModel {
    Get { key: Seq<char> },
    Put { key: Seq<char>, value: Seq<char> },
    Rm { key: Seq<char> },
}

impl View for Request {
    type V = ReqModel;

    open spec fn view(&self) -> ReqModel {
        match self {
            Request::Get { key } => ReqModel::Get { key: key@ },
            Request::Put { key, value } => ReqModel::Put { key: key@, value: value@ },
            Request::Rm { key } => ReqModel::Rm { key: key@ },
        }
    }
}

/// One reply from the server: a value, a bare acknowledgement, or an
/// error message.
#[derive(Debug, Clone)]
pub enum Reply {
    /// A `Get` found the key bound to this value.
    Value { value: String },
    /// The request succeeded without a value (`Get` miss, `Set`, `Rm`).
    Nothing,
    /// The request failed; the message says why.
    Failure { message: String },
}

/// The mathematical value of a reply.
pub enum ReplyModel {
    Value { value: Seq<char> },
    Nothing,
    Failure { message: Seq<char> },
}

impl View for Reply {
    type V = ReplyModel;

    open spec fn view(&self) -> ReplyModel {
        match self {
            Reply::Value { value } => ReplyModel::Value { value: value@ },
            Reply::Nothing => ReplyModel::Nothing,
            Reply::Failure { message } => ReplyModel::Failure { message: message@ },
        }
    }
}

/// The opening characters of an encoded `Get` request.
pub open spec fn get_open() -> Seq<char> {
    seq!['{', '"', 'G', 'e', 't', '"', ':', '{', '"', 'k', 'e', 'y', '"', ':', '"']
}

/// The closing characters of an encoded `Get` or `Rm` request.
pub open spec fn req_close() -> Seq<char> {
    seq!['}', '}']
}

/// The opening characters of a reply that carries a value.
pub open spec fn ok_open() -> Seq<char> {
    seq!['{', '"', 'O', 'k', '"', ':', '"']
}

/// The whole encoding of a reply that carries no value.
pub open spec fn ok_null() -> Seq<char> {
    seq!['{', '"', 'O', 'k', '"', ':', 'n', 'u', 'l', 'l', '}']
}

/// The opening characters of a reply that carries an error message.
pub open spec fn err_open() -> Seq<char> {
    seq!['{', '"', 'E', 'r', 'r', '"', ':', '"']
}

/// The closing brace of a reply that carries a string.
pub open spec fn reply_close() -> Seq<char> {
    seq!['}']
}

/// The canonical encoding of a request. `Put` and `Rm` are framed
/// exactly like the on-disk commands of the same name.
pub open spec fn spec_encode_req(r: ReqModel) -> Seq<char> {
    match r {
        ReqModel::Get { key } => get_open() + esc(key) + seq!['"'] + req_close(),
        ReqModel::Put { key, value } => spec_encode(CmdModel::Put { key, value }),
        ReqModel::Rm { key } => spec_encode(CmdModel::Rm { key }),
    }
}

/// The canonical encoding of a reply.
pub open spec fn spec_encode_reply(r: ReplyModel) -> Seq<char> {
    match r {
        ReplyModel::Value { value } => ok_open() + esc(value) + seq!['"'] + reply_close(),
        ReplyModel::Nothing => ok_null(),
        ReplyModel::Failure { message } => err_open() + esc(message) + seq!['"'] + reply_close(),
    }
}

/// `s` holds the complete encoding of request `c` starting at `i`.
pub open spec fn req_at(s: Seq<char>, i: int, c: ReqModel) -> bool {
    &&& 0 <= i
    &&& i + spec_encode_req(c).len() <= s.len()
    &&& s.subrange(i, i + spec_encode_req(c).len()) == spec_encode_req(c)
}

/// `s` holds the complete encoding of reply `c` starting at `i`.
pub open spec fn reply_at(s: Seq<char>, i: int, c: ReplyModel) -> bool {
    &&& 0 <= i
    &&& i + spec_encode_reply(c).len() <= s.len()
    &&& s.subrange(i, i + spec_encode_reply(c).len()) == spec_encode_reply(c)
}

/// Encode one request into its canonical character form.
pub fn encode_req(r: &Request) -> (out: Vec<char>)
    ensures
        out@ == spec_encode_req(r@),
{
    match r {
        Request::Get { key } => {
            let mut out: Vec<char> = Vec::new();
            out.push('{');
            out.push('"');
            out.push('G');
            out.push('e');
            out.push('t');
            out.push('"');
            out.push(':');
            out.push('{');
            out.push('"');
            out.push('k');
            out.push('e');
            out.push('y');
            out.push('"');
            out.push(':');
            out.push('"');
            proof {
                assert(out@ =~= get_open());
            }
            push_escaped(&mut out, key.as_str());
            out.push('"');
            out.push('}');
            out.push('}');
            proof {
                assert(out@ =~= spec_encode_req(r@));
            }
            out
        },
        Request::Put { key, value } => {
            let c = crate::codec::Cmd::Put { key: key.clone(), value: value.clone() };
            crate::codec::encode_cmd(&c)
        },
        Request::Rm { key } => {
            let c = crate::codec::Cmd::Rm { key: key.clone() };
            crate::codec::encode_cmd(&c)
        },
    }
}

/// Encode one reply into its canonical character form.
pub fn encode_reply(r: &Reply) -> (out: Vec<char>)
    ensures
        out@ == spec_encode_reply(r@),
{
    let mut out: Vec<char> = Vec::new();
    match r {
        Reply::Value { value } => {
            out.push('{');
            out.push('"');
            out.push('O');
            out.push('k');
            out.push('"');
            out.push(':');
            out.push('"');
            proof {
                assert(out@ =~= ok_open());
            }
            push_escaped(&mut out, value.as_str());
            out.push('"');
            out.push('}');
            proof {
                assert(out@ =~= spec_encode_reply(r@));
            }
        },
        Reply::Nothing => {
            out.push('{');
            out.push('"');
            out.push('O');
            out.push('k');
            out.push('"');
            out.push(':');
            out.push('n');
            out.push('u');
            out.push('l');
            out.push('l');
            out.push('}');
            proof {
                assert(out@ =~= spec_encode_reply(r@));
            }
        },
        Reply::Failure { message } => {
            out.push('{');
            out.push('"');
            out.push('E');
            out.push('r');
            out.push('r');
            out.push('"');
            out.push(':');
            out.push('"');
            proof {
                assert(out@ =~= err_open());
            }
            push_escaped(&mut out, message.as_str());
            out.push('"');
            out.push('}');
            proof {
                assert(out@ =~= spec_encode_reply(r@));
            }
        },
    }
    out
}

/// The length of an encoded `Get` request.
pub open spec fn get_len(k: Seq<char>) -> int {
    18 + esc(k).len() as int
}

/// An encoded `Get` request is as long as its parts.
pub proof fn lemma_get_len(k: Seq<char>)
    ensures
        spec_encode_req((ReqModel::Get { key: k })).len() == get_len(k),
{
    assert(get_open().len() == 15);
    assert(req_close().len() == 2);
}

proof fn lemma_req_get_parts(s: Seq<char>, i: int, k: Seq<char>)
    requires
        req_at(s, i, (ReqModel::Get { key: k })),
    ensures
        lit_region(s, i, get_open()),
        str_region(s, i + 15, k),
        lit_region(s, i + 16 + esc(k).len(), req_close()),
{
    let a1 = get_open();
    let a2 = esc(k) + seq!['"'];
    let a3 = req_close();
    let e = spec_encode_req(ReqModel::Get { key: k });
    assert(e =~= a1 + (a2 + a3));
    lemma_split_region(s, i, a1, a2 + a3);
    lemma_split_region(s, i + 15, a2, a3);
}

proof fn lemma_parts_req_get(s: Seq<char>, i: int, k: Seq<char>)
    requires
        lit_region(s, i, get_open()),
        str_region(s, i + 15, k),
        lit_region(s, i + 16 + esc(k).len(), req_close()),
    ensures
        req_at(s, i, (ReqModel::Get { key: k })),
{
    let a1 = get_open();
    let a2 = esc(k) + seq!['"'];
    let a3 = req_close();
    let e = spec_encode_req(ReqModel::Get { key: k });
    lemma_join_region(s, i + 15, a2, a3);
    lemma_join_region(s, i, a1, a2 + a3);
    assert(e =~= a1 + (a2 + a3));
}

/// The first characters of every request encoding pin its variant.
proof fn lemma_req_head(s: Seq<char>, i: int, c: ReqModel)
    requires
        req_at(s, i, c),
    ensures
        i + 2 < s.len(),
        s[i + 2] == match c {
            ReqModel::Get { .. } => 'G',
            ReqModel::Put { .. } => 'S',
            ReqModel::Rm { .. } => 'R',
        },
        spec_encode_req(c).len() >= 17,
    {
    match c {
        ReqModel::Get { key } => {
            lemma_req_get_parts(s, i, key);
            lemma_lit_char(s, i, get_open(), 2);
        },
        ReqModel::Put { key, value } => {
            crate::codec::lemma_encodes_put_parts(s, i, key, value);
            lemma_lit_char(s, i, crate::codec::set_open(), 2);
            crate::codec::lemma_encode_len(CmdModel::Put { key, value });
        },
        ReqModel::Rm { key } => {
            crate::codec::lemma_encodes_rm_parts(s, i, key);
            lemma_lit_char(s, i, crate::codec::rm_open(), 2);
            crate::codec::lemma_encode_len(CmdModel::Rm { key });
        },
    }
}

/// Outcome of decoding one request frame.
pub enum ReqParse {
    /// A complete request; `end` is the offset just past it.
    Found { req: Request, end: usize },
    /// The input ends before the frame does.
    Partial,
    /// The available input cannot begin any request frame.
    Corrupt,
}

/// Decode one request frame starting at `start`.
pub fn decode_req(data: &Vec<char>, start: usize) -> (r: ReqParse)
    requires
        start <= data@.len(),
    ensures
        (r matches ReqParse::Found { req, end } ==> req_at(data@, start as int, req@) && end
            == start + spec_encode_req(req@).len()),
        forall|c: ReqModel|
            #[trigger] req_at(data@, start as int, c) ==> (r matches ReqParse::Found { req, end }
                && req@ == c && end == start + spec_encode_req(c).len()),
        start == data@.len() ==> (r matches ReqParse::Partial),
{
    let ghost d = data@;
    let go = get_open_vec();
    let r1 = match_lit(data, start, &go);
    match r1 {
        LitParse::Hit { end: end0 } => {
            proof {
                lemma_lit_char(d, start as int, get_open(), 2);
            }
            let kp = parse_string(data, end0);
            match kp {
                StrParse::Hit { s: kstr, end: end1 } => {
                    let cl = req_close_vec();
                    let ep = match_lit(data, end1, &cl);
                    match ep {
                        LitParse::Hit { end: end2 } => {
                            proof {
                                lemma_parts_req_get(d, start as int, kstr@);
                                lemma_get_len(kstr@);
                                assert forall|c: ReqModel| #[trigger] req_at(
                                    d,
                                    start as int,
                                    c,
                                ) implies c == (ReqModel::Get { key: kstr@ }) && start
                                    + spec_encode_req(c).len() == end2 by {
                                    lemma_req_head(d, start as int, c);
                                    match c {
                                        ReqModel::Get { key } => {
                                            lemma_req_get_parts(d, start as int, key);
                                            assert(str_region(d, end0 as int, key));
                                            assert(kstr@ == key);
                                            lemma_get_len(key);
                                        },
                                        _ => {},
                                    }
                                }
                            }
                            ReqParse::Found { req: Request::Get { key: kstr }, end: end2 }
                        },
                        _ => {
                            proof {
                                assert forall|c: ReqModel| !(#[trigger] req_at(d, start as int, c)) by {
                                    if req_at(d, start as int, c) {
                                        lemma_req_head(d, start as int, c);
                                        match c {
                                            ReqModel::Get { key } => {
                                                lemma_req_get_parts(d, start as int, key);
                                                assert(str_region(d, end0 as int, key));
                                                assert(kstr@ == key);
                                                assert(lit_region(d, end1 as int, req_close()));
                                                if (ep matches LitParse::Mismatch) {
                                                    let j = choose|m: int|
                                                        0 <= m < cl@.len() && end1 + m < d.len()
                                                            && d[end1 + m] != cl@[m];
                                                    lemma_lit_char(d, end1 as int, req_close(), j);
                                                }
                                            },
                                            _ => {},
                                        }
                                    }
                                }
                            }
                            if let LitParse::Short = ep {
                                ReqParse::Partial
                            } else {
                                ReqParse::Corrupt
                            }
                        },
                    }
                },
                StrParse::Short => {
                    proof {
                        assert forall|c: ReqModel| !(#[trigger] req_at(d, start as int, c)) by {
                            if req_at(d, start as int, c) {
                                lemma_req_head(d, start as int, c);
                                match c {
                                    ReqModel::Get { key } => {
                                        lemma_req_get_parts(d, start as int, key);
                                        assert(str_region(d, end0 as int, key));
                                    },
                                    _ => {},
                                }
                            }
                        }
                    }
                    ReqParse::Partial
                },
                StrParse::Mismatch => {
                    proof {
                        assert forall|c: ReqModel| !(#[trigger] req_at(d, start as int, c)) by {
                            if req_at(d, start as int, c) {
                                lemma_req_head(d, start as int, c);
                                match c {
                                    ReqModel::Get { key } => {
                                        lemma_req_get_parts(d, start as int, key);
                                        assert(str_region(d, end0 as int, key));
                                    },
                                    _ => {},
                                }
                            }
                        }
                    }
                    ReqParse::Corrupt
                },
            }
        },
        LitParse::Short => {
            proof {
                assert forall|c: ReqModel| !(#[trigger] req_at(d, start as int, c)) by {
                    if req_at(d, start as int, c) {
                        lemma_req_head(d, start as int, c);
                    }
                }
            }
            ReqParse::Partial
        },
        LitParse::Mismatch => {
            let ghost j0 = choose|m: int|
                0 <= m < go@.len() && start + m < d.len() && d[start + m] != go@[m];
            let rc = crate::codec::decode_cmd(data, start);
            match rc {
                crate::codec::DecodeResult::Found { cmd, end } => {
                    proof {
                        assert forall|c: ReqModel| #[trigger] req_at(d, start as int, c) implies (
                        match c {
                            ReqModel::Get { .. } => false,
                            ReqModel::Put { key, value } => cmd@ == (CmdModel::Put { key, value })
                                && end == start + spec_encode_req(c).len(),
                            ReqModel::Rm { key } => cmd@ == (CmdModel::Rm { key }) && end == start
                                + spec_encode_req(c).len(),
                        }) by {
                            match c {
                                ReqModel::Get { key } => {
                                    lemma_req_get_parts(d, start as int, key);
                                    lemma_lit_char(d, start as int, get_open(), j0);
                                },
                                ReqModel::Put { key, value } => {
                                    assert(encodes_at(d, start as int, (CmdModel::Put {
                                        key,
                                        value,
                                    })));
                                },
                                ReqModel::Rm { key } => {
                                    assert(encodes_at(d, start as int, (CmdModel::Rm { key })));
                                },
                            }
                        }
                    }
                    match cmd {
                        crate::codec::Cmd::Put { key, value } => ReqParse::Found {
                            req: Request::Put { key, value },
                            end,
                        },
                        crate::codec::Cmd::Rm { key } => ReqParse::Found {
                            req: Request::Rm { key },
                            end,
                        },
                    }
                },
                crate::codec::DecodeResult::Partial => {
                    proof {
                        assert forall|c: ReqModel| !(#[trigger] req_at(d, start as int, c)) by {
                            if req_at(d, start as int, c) {
                                match c {
                                    ReqModel::Get { key } => {
                                        lemma_req_get_parts(d, start as int, key);
                                        lemma_lit_char(d, start as int, get_open(), j0);
                                    },
                                    ReqModel::Put { key, value } => {
                                        assert(encodes_at(d, start as int, (CmdModel::Put {
                                            key,
                                            value,
                                        })));
                                    },
                                    ReqModel::Rm { key } => {
                                        assert(encodes_at(d, start as int, (CmdModel::Rm { key })));
                                    },
                                }
                            }
                        }
                    }
                    ReqParse::Partial
                },
                crate::codec::DecodeResult::Corrupt => {
                    proof {
                        assert forall|c: ReqModel| !(#[trigger] req_at(d, start as int, c)) by {
                            if req_at(d, start as int, c) {
                                match c {
                                    ReqModel::Get { key } => {
                                        lemma_req_get_parts(d, start as int, key);
                                        lemma_lit_char(d, start as int, get_open(), j0);
                                    },
                                    ReqModel::Put { key, value } => {
                                        assert(encodes_at(d, start as int, (CmdModel::Put {
                                            key,
                                            value,
                                        })));
                                    },
                                    ReqModel::Rm { key } => {
                                        assert(encodes_at(d, start as int, (CmdModel::Rm { key })));
                                    },
                                }
                            }
                        }
                    }
                    ReqParse::Corrupt
                },
            }
        },
    }
}

/// The length of an encoded reply that carries a value.
pub open spec fn value_len(v: Seq<char>) -> int {
    9 + esc(v).len() as int
}

/// The length of an encoded reply that carries an error message.
pub open spec fn failure_len(m: Seq<char>) -> int {
    10 + esc(m).len() as int
}

/// An encoded reply is as long as its parts.
pub proof fn lemma_reply_len(c: ReplyModel)
    ensures
        spec_encode_reply(c).len() == match c {
            ReplyModel::Value { value } => value_len(value),
            ReplyModel::Nothing => 11int,
            ReplyModel::Failure { message } => failure_len(message),
        },
{
    match c {
        ReplyModel::Value { value } => {
            assert(ok_open().len() == 7);
            assert(reply_close().len() == 1);
        },
        ReplyModel::Nothing => {
            assert(ok_null().len() == 11);
        },
        ReplyModel::Failure { message } => {
            assert(err_open().len() == 8);
            assert(reply_close().len() == 1);
        },
    }
}

proof fn lemma_reply_value_parts(s: Seq<char>, i: int, v: Seq<char>)
    requires
        reply_at(s, i, (ReplyModel::Value { value: v })),
    ensures
        lit_region(s, i, ok_open()),
        str_region(s, i + 7, v),
        lit_region(s, i + 8 + esc(v).len(), reply_close()),
{
    let a1 = ok_open();
    let a2 = esc(v) + seq!['"'];
    let a3 = reply_close();
    let e = spec_encode_reply(ReplyModel::Value { value: v });
    assert(e =~= a1 + (a2 + a3));
    lemma_split_region(s, i, a1, a2 + a3);
    lemma_split_region(s, i + 7, a2, a3);
}

proof fn lemma_parts_reply_value(s: Seq<char>, i: int, v: Seq<char>)
    requires
        lit_region(s, i, ok_open()),
        str_region(s, i + 7, v),
        lit_region(s, i + 8 + esc(v).len(), reply_close()),
    ensures
        reply_at(s, i, (ReplyModel::Value { value: v })),
{
    let a1 = ok_open();
    let a2 = esc(v) + seq!['"'];
    let a3 = reply_close();
    let e = spec_encode_reply(ReplyModel::Value { value: v });
    lemma_join_region(s, i + 7, a2, a3);
    lemma_join_region(s, i, a1, a2 + a3);
    assert(e =~= a1 + (a2 + a3));
}

proof fn lemma_reply_failure_parts(s: Seq<char>, i: int, m: Seq<char>)
    requires
        reply_at(s, i, (ReplyModel::Failure { message: m })),
    ensures
        lit_region(s, i, err_open()),
        str_region(s, i + 8, m),
        lit_region(s, i + 9 + esc(m).len(), reply_close()),
{
    let a1 = err_open();
    let a2 = esc(m) + seq!['"'];
    let a3 = reply_close();
    let e = spec_encode_reply(ReplyModel::Failure { message: m });
    assert(e =~= a1 + (a2 + a3));
    lemma_split_region(s, i, a1, a2 + a3);
    lemma_split_region(s, i + 8, a2, a3);
}

proof fn lemma_parts_reply_failure(s: Seq<char>, i: int, m: Seq<char>)
    requires
        lit_region(s, i, err_open()),
        str_region(s, i + 8, m),
        lit_region(s, i + 9 + esc(m).len(), reply_close()),
    ensures
        reply_at(s, i, (ReplyModel::Failure { message: m })),
{
    let a1 = err_open();
    let a2 = esc(m) + seq!['"'];
    let a3 = reply_close();
    let e = spec_encode_reply(ReplyModel::Failure { message: m });
    lemma_join_region(s, i + 8, a2, a3);
    lemma_join_region(s, i, a1, a2 + a3);
    assert(e =~= a1 + (a2 + a3));
}

/// Two characters of every reply encoding pin its variant: the tag
/// letter, and for the `Ok` forms the character after the colon.
proof fn lemma_reply_head(s: Seq<char>, i: int, c: ReplyModel)
    requires
        reply_at(s, i, c),
    ensures
        i + 6 < s.len(),
        s[i + 2] == match c {
            ReplyModel::Value { .. } => 'O',
            ReplyModel::Nothing => 'O',
            ReplyModel::Failure { .. } => 'E',
        },
        s[i + 6] == match c {
            ReplyModel::Value { .. } => '"',
            ReplyModel::Nothing => 'n',
            ReplyModel::Failure { .. } => ':',
        },
        spec_encode_reply(c).len() >= 9,
{
    lemma_reply_len(c);
    match c {
        ReplyModel::Value { value } => {
            lemma_reply_value_parts(s, i, value);
            lemma_lit_char(s, i, ok_open(), 2);
            lemma_lit_char(s, i, ok_open(), 6);
        },
        ReplyModel::Nothing => {
            assert(lit_region(s, i, ok_null()));
            lemma_lit_char(s, i, ok_null(), 2);
            lemma_lit_char(s, i, ok_null(), 6);
        },
        ReplyModel::Failure { message } => {
            lemma_reply_failure_parts(s, i, message);
            lemma_lit_char(s, i, err_open(), 2);
            lemma_lit_char(s, i, err_open(), 6);
        },
    }
}

/// Outcome of decoding one reply frame.
pub enum ReplyParse {
    /// A complete reply; `end` is the offset just past it.
    Found { reply: Reply, end: usize },
    /// The input ends before the frame does.
    Partial,
    /// The available input cannot begin any reply frame.
    Corrupt,
}

/// Decode one reply frame starting at `start`.
pub fn decode_reply(data: &Vec<char>, start: usize) -> (r: ReplyParse)
    requires
        start <= data@.len(),
    ensures
        (r matches ReplyParse::Found { reply, end } ==> reply_at(data@, start as int, reply@)
            && end == start + spec_encode_reply(reply@).len()),
        forall|c: ReplyModel|
            #[trigger] reply_at(data@, start as int, c) ==> (r matches ReplyParse::Found {
                reply,
                end,
            } && reply@ == c && end == start + spec_encode_reply(c).len()),
        start == data@.len() ==> (r matches ReplyParse::Partial),
{
    let ghost d = data@;
    let oo = ok_open_vec();
    let r1 = match_lit(data, start, &oo);
    if let LitParse::Hit { end: end0 } = r1 {
        proof {
            lemma_lit_char(d, start as int, ok_open(), 2);
            lemma_lit_char(d, start as int, ok_open(), 6);
        }
        let vp = parse_string(data, end0);
        match vp {
            StrParse::Hit { s: vstr, end: end1 } => {
                let cl = reply_close_vec();
                let ep = match_lit(data, end1, &cl);
                match ep {
                    LitParse::Hit { end: end2 } => {
                        proof {
                            lemma_parts_reply_value(d, start as int, vstr@);
                            lemma_reply_len(ReplyModel::Value { value: vstr@ });
                            assert forall|c: ReplyModel| #[trigger] reply_at(
                                d,
                                start as int,
                                c,
                            ) implies c == (ReplyModel::Value { value: vstr@ }) && start
                                + spec_encode_reply(c).len() == end2 by {
                                lemma_reply_head(d, start as int, c);
                                match c {
                                    ReplyModel::Value { value } => {
                                        lemma_reply_value_parts(d, start as int, value);
                                        assert(str_region(d, end0 as int, value));
                                        assert(vstr@ == value);
                                        lemma_reply_len(c);
                                    },
                                    _ => {},
                                }
                            }
                        }
                        ReplyParse::Found { reply: Reply::Value { value: vstr }, end: end2 }
                    },
                    _ => {
                        proof {
                            assert forall|c: ReplyModel| !(#[trigger] reply_at(d, start as int, c)) by {
                                if reply_at(d, start as int, c) {
                                    lemma_reply_head(d, start as int, c);
                                    match c {
                                        ReplyModel::Value { value } => {
                                            lemma_reply_value_parts(d, start as int, value);
                                            assert(str_region(d, end0 as int, value));
                                            assert(vstr@ == value);
                                            assert(lit_region(d, end1 as int, reply_close()));
                                            if (ep matches LitParse::Mismatch) {
                                                let j = choose|m: int|
                                                    0 <= m < cl@.len() && end1 + m < d.len()
                                                        && d[end1 + m] != cl@[m];
                                                lemma_lit_char(d, end1 as int, reply_close(), j);
                                            }
                                        },
                                        _ => {},
                                    }
                                }
                            }
                        }
                        if let LitParse::Short = ep {
                            ReplyParse::Partial
                        } else {
                            ReplyParse::Corrupt
                        }
                    },
                }
            },
            StrParse::Short => {
                proof {
                    assert forall|c: ReplyModel| !(#[trigger] reply_at(d, start as int, c)) by {
                        if reply_at(d, start as int, c) {
                            lemma_reply_head(d, start as int, c);
                            match c {
                                ReplyModel::Value { value } => {
                                    lemma_reply_value_parts(d, start as int, value);
                                    assert(str_region(d, end0 as int, value));
                                },
                                _ => {},
                            }
                        }
                    }
                }
                ReplyParse::Partial
            },
            StrParse::Mismatch => {
                proof {
                    assert forall|c: ReplyModel| !(#[trigger] reply_at(d, start as int, c)) by {
                        if reply_at(d, start as int, c) {
                            lemma_reply_head(d, start as int, c);
                            match c {
                                ReplyModel::Value { value } => {
                                    lemma_reply_value_parts(d, start as int, value);
                                    assert(str_region(d, end0 as int, value));
                                },
                                _ => {},
                            }
                        }
                    }
                }
                ReplyParse::Corrupt
            },
        }
    } else {
        let eo = err_open_vec();
        let r3 = match_lit(data, start, &eo);
        if let LitParse::Hit { end: end0 } = r3 {
            proof {
                lemma_lit_char(d, start as int, err_open(), 2);
            }
            let mp = parse_string(data, end0);
            match mp {
                StrParse::Hit { s: mstr, end: end1 } => {
                    let cl = reply_close_vec();
                    let ep = match_lit(data, end1, &cl);
                    match ep {
                        LitParse::Hit { end: end2 } => {
                            proof {
                                lemma_parts_reply_failure(d, start as int, mstr@);
                                lemma_reply_len(ReplyModel::Failure { message: mstr@ });
                                assert forall|c: ReplyModel| #[trigger] reply_at(
                                    d,
                                    start as int,
                                    c,
                                ) implies c == (ReplyModel::Failure { message: mstr@ }) && start
                                    + spec_encode_reply(c).len() == end2 by {
                                    lemma_reply_head(d, start as int, c);
                                    match c {
                                        ReplyModel::Failure { message } => {
                                            lemma_reply_failure_parts(d, start as int, message);
                                            assert(str_region(d, end0 as int, message));
                                            assert(mstr@ == message);
                                            lemma_reply_len(c);
                                        },
                                        _ => {},
                                    }
                                }
                            }
                            ReplyParse::Found {
                                reply: Reply::Failure { message: mstr },
                                end: end2,
                            }
                        },
                        _ => {
                            proof {
                                assert forall|c: ReplyModel| !(#[trigger] reply_at(
                                    d,
                                    start as int,
                                    c,
                                )) by {
                                    if reply_at(d, start as int, c) {
                                        lemma_reply_head(d, start as int, c);
                                        match c {
                                            ReplyModel::Failure { message } => {
                                                lemma_reply_failure_parts(d, start as int, message);
                                                assert(str_region(d, end0 as int, message));
                                                assert(mstr@ == message);
                                                assert(lit_region(d, end1 as int, reply_close()));
                                                if (ep matches LitParse::Mismatch) {
                                                    let j = choose|m: int|
                                                        0 <= m < cl@.len() && end1 + m < d.len()
                                                            && d[end1 + m] != cl@[m];
                                                    lemma_lit_char(
                                                        d,
                                                        end1 as int,
                                                        reply_close(),
                                                        j,
                                                    );
                                                }
                                            },
                                            _ => {},
                                        }
                                    }
                                }
                            }
                            if let LitParse::Short = ep {
                                ReplyParse::Partial
                            } else {
                                ReplyParse::Corrupt
                            }
                        },
                    }
                },
                StrParse::Short => {
                    proof {
                        assert forall|c: ReplyModel| !(#[trigger] reply_at(d, start as int, c)) by {
                            if reply_at(d, start as int, c) {
                                lemma_reply_head(d, start as int, c);
                                match c {
                                    ReplyModel::Failure { message } => {
                                        lemma_reply_failure_parts(d, start as int, message);
                                        assert(str_region(d, end0 as int, message));
                                    },
                                    _ => {},
                                }
                            }
                        }
                    }
                    ReplyParse::Partial
                },
                StrParse::Mismatch => {
                    proof {
                        assert forall|c: ReplyModel| !(#[trigger] reply_at(d, start as int, c)) by {
                            if reply_at(d, start as int, c) {
                                lemma_reply_head(d, start as int, c);
                                match c {
                                    ReplyModel::Failure { message } => {
                                        lemma_reply_failure_parts(d, start as int, message);
                                        assert(str_region(d, end0 as int, message));
                                    },
                                    _ => {},
                                }
                            }
                        }
                    }
                    ReplyParse::Corrupt
                },
            }
        } else {
            let on = ok_null_vec();
            let r2 = match_lit(data, start, &on);
            match r2 {
                LitParse::Hit { end } => {
                    proof {
                        lemma_lit_char(d, start as int, ok_null(), 2);
                        lemma_lit_char(d, start as int, ok_null(), 6);
                        assert(d.subrange(start as int, start + 11) == ok_null());
                        assert(reply_at(d, start as int, ReplyModel::Nothing));
                        assert forall|c: ReplyModel| #[trigger] reply_at(
                            d,
                            start as int,
                            c,
                        ) implies c == ReplyModel::Nothing && start + spec_encode_reply(c).len()
                            == end by {
                            lemma_reply_head(d, start as int, c);
                            lemma_reply_len(c);
                        }
                    }
                    ReplyParse::Found { reply: Reply::Nothing, end }
                },
                _ => {
                    proof {
                        assert forall|c: ReplyModel| !(#[trigger] reply_at(d, start as int, c)) by {
                            if reply_at(d, start as int, c) {
                                lemma_reply_head(d, start as int, c);
                                match c {
                                    ReplyModel::Value { value } => {
                                        lemma_reply_value_parts(d, start as int, value);
                                        if (r1 matches LitParse::Mismatch) {
                                            let j = choose|m: int|
                                                0 <= m < oo@.len() && start + m < d.len()
                                                    && d[start + m] != oo@[m];
                                            lemma_lit_char(d, start as int, ok_open(), j);
                                        }
                                    },
                                    ReplyModel::Nothing => {
                                        assert(lit_region(d, start as int, ok_null()));
                                        if (r2 matches LitParse::Mismatch) {
                                            let j = choose|m: int|
                                                0 <= m < on@.len() && start + m < d.len()
                                                    && d[start + m] != on@[m];
                                            lemma_lit_char(d, start as int, ok_null(), j);
                                        }
                                    },
                                    ReplyModel::Failure { message } => {
                                        lemma_reply_failure_parts(d, start as int, message);
                                        if (r3 matches LitParse::Mismatch) {
                                            let j = choose|m: int|
                                                0 <= m < eo@.len() && start + m < d.len()
                                                    && d[start + m] != eo@[m];
                                            lemma_lit_char(d, start as int, err_open(), j);
                                        }
                                    },
                                }
                            }
                        }
                    }
                    let short = matches!(r1, LitParse::Short) || matches!(r3, LitParse::Short)
                        || matches!(r2, LitParse::Short);
                    if short {
                        ReplyParse::Partial
                    } else {
                        ReplyParse::Corrupt
                    }
                },
            }
        }
    }
}

fn reply_close_vec() -> (v: Vec<char>)
    ensures
        v@ == reply_close(),
{
    let v = vec!['}'];
    proof {
        assert(v@ =~= reply_close());
    }
    v
}

fn ok_open_vec() -> (v: Vec<char>)
    ensures
        v@ == ok_open(),
{
    let v = vec!['{', '"', 'O', 'k', '"', ':', '"'];
    proof {
        assert(v@ =~= ok_open());
    }
    v
}

fn ok_null_vec() -> (v: Vec<char>)
    ensures
        v@ == ok_null(),
{
    let v = vec!['{', '"', 'O', 'k', '"', ':', 'n', 'u', 'l', 'l', '}'];
    proof {
        assert(v@ =~= ok_null());
    }
    v
}

fn err_open_vec() -> (v: Vec<char>)
    ensures
        v@ == err_open(),
{
    let v = vec!['{', '"', 'E', 'r', 'r', '"', ':', '"'];
    proof {
        assert(v@ =~= err_open());
    }
    v
}

fn get_open_vec() -> (v: Vec<char>)
    ensures
        v@ == get_open(),
{
    let v = vec!['{', '"', 'G', 'e', 't', '"', ':', '{', '"', 'k', 'e', 'y', '"', ':', '"'];
    proof {
        assert(v@ =~= get_open());
    }
    v
}

fn req_close_vec() -> (v: Vec<char>)
    ensures
        v@ == req_close(),
{
    let v = vec!['}', '}'];
    proof {
        assert(v@ =~= req_close());
    }
    v
}

} // verus!
