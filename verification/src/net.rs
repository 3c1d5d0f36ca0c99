//! The wire protocol: one self-delimiting text line per message, read
//! by decoding exactly one value from the stream.  A `Put` request
//! reuses the log's record form; every other message is a single
//! tagged field.

use vstd::prelude::*;

use crate::codec::{
    decode_record, enc_record, lemma_parse_record_enc, lemma_parse_record_sound, parse_record,
    Command,
};
use crate::text::{
    chars_to_string, decode_field, esc, is_delim, lemma_parse_field_esc, lemma_parse_field_ends,
    lemma_parse_field_sound, parse_field, push_escaped,
};

verus! {

/// One request: decoded from a connection, one per exchange.
#[derive(Debug)]
pub enum Request {
    Get { key: String },
    Put { key: String, value: String },
    Remove { key: String },
}

/// One response: success carries a `Get`'s optional value and nothing
/// for the mutations; failure carries its message.
#[derive(Debug)]
pub enum Response {
    Success(Option<String>),
    Failure(String),
}

/// A single-field protocol line: tag, space, escaped field, newline.
pub open spec fn enc_line(tag: char, f: Seq<char>) -> Seq<char> {
    Seq::empty().push(tag).push(' ') + esc(f) + Seq::empty().push('\n')
}

/// Reads one single-field line of `s` at `i`: its tag, its field, and
/// the position past its newline.
pub open spec fn parse_line(s: Seq<char>, i: int) -> Option<(char, Seq<char>, int)> {
    if 0 <= i && i + 2 <= s.len() && s[i + 1] == ' ' {
        match parse_field(s, i + 2) {
            Some((t, j)) => if s[j] == '\n' {
                Some((s[i], t, j + 1))
            } else {
                None
            },
            None => None,
        }
    } else {
        None
    }
}

/// Parsing inverts `enc_line`.
pub proof fn lemma_parse_line_enc(tag: char, f: Seq<char>, s: Seq<char>, i: int)
    requires
        0 <= i,
        i + enc_line(tag, f).len() <= s.len(),
        s.subrange(i, i + enc_line(tag, f).len() as int) == enc_line(tag, f),
    ensures
        parse_line(s, i) == Some((tag, f, i + enc_line(tag, f).len() as int)),
{
    let e = enc_line(tag, f);
    assert forall|x: int| 0 <= x < e.len() implies s[i + x] == e[x] by {
        assert(s.subrange(i, i + e.len() as int)[x] == s[i + x]);
    }
    let k = esc(f);
    let nk = k.len() as int;
    let tg = Seq::<char>::empty().push(tag).push(' ');
    let nl = Seq::<char>::empty().push('\n');
    let q1 = tg + k;
    let q2 = q1 + nl;
    assert(e == q2);
    assert(q1.len() == 2 + nk);
    assert(q2.len() == 3 + nk);
    assert(e[0] == tag) by {
        assert(q1[0] == tg[0]);
        assert(q2[0] == q1[0]);
    }
    assert(e[1] == ' ') by {
        assert(q1[1] == tg[1]);
        assert(q2[1] == q1[1]);
    }
    assert forall|x: int| 0 <= x < nk implies e[2 + x] == k[x] by {
        assert(q1[2 + x] == k[x]);
        assert(q2[2 + x] == q1[2 + x]);
    }
    assert(e[2 + nk] == '\n') by {
        assert(q2[2 + nk] == nl[0]);
    }
    assert(s[i + 0] == tag);
    assert(s[i + 1] == ' ');
    assert(s.subrange(i + 2, i + 2 + nk) =~= esc(f)) by {
        assert forall|x: int| 0 <= x < nk implies s.subrange(i + 2, i + 2 + nk)[x] == esc(f)[x] by {
            assert(s[i + (2 + x)] == e[2 + x]);
        }
    }
    assert(s[i + (2 + nk)] == e[2 + nk]);
    assert(is_delim(s[i + 2 + nk]));
    lemma_parse_field_esc(f, s, i + 2);
    let j = i + 2 + nk;
    assert(s[j] == '\n');
}

/// A parsed line re-encodes to exactly the characters consumed.
pub proof fn lemma_parse_line_sound(s: Seq<char>, i: int)
    requires
        parse_line(s, i) is Some,
    ensures
        ({
            let (tag, f, e) = parse_line(s, i)->Some_0;
            s.subrange(i, e) == enc_line(tag, f)
        }),
{
    let (tag, f, end) = parse_line(s, i)->Some_0;
    let (k, j) = parse_field(s, i + 2)->Some_0;
    lemma_parse_field_sound(s, i + 2);
    lemma_parse_field_ends(s, i + 2);
    let e = enc_line(tag, f);
    let nk = esc(f).len() as int;
    assert(esc(k) == s.subrange(i + 2, j));
    assert(nk == j - i - 2);
    let tg = Seq::<char>::empty().push(tag).push(' ');
    let nl = Seq::<char>::empty().push('\n');
    let q1 = tg + esc(f);
    assert(s.subrange(i, end) =~= e) by {
        assert(q1.len() == 2 + nk);
        assert(e == q1 + nl);
        assert forall|x: int| 0 <= x < e.len() implies s.subrange(i, end)[x] == e[x] by {
            assert(s.subrange(i, end)[x] == s[i + x]);
            if x == 0 {
                assert(e[0] == tag) by {
                    assert(q1[0] == tg[0]);
                }
            } else if x == 1 {
                assert(e[1] == ' ') by {
                    assert(q1[1] == tg[1]);
                }
            } else if x < 2 + nk {
                assert(e[x] == esc(f)[x - 2]) by {
                    assert(q1[x] == esc(f)[x - 2]);
                }
                assert(esc(f)[x - 2] == s.subrange(i + 2, j)[x - 2]);
                assert(s.subrange(i + 2, j)[x - 2] == s[i + x]);
            } else {
                assert(e[x] == nl[0]);
                assert(i + x == j);
                assert(s[j] == '\n');
            }
        }
    }
}

/// The encoding of a request.
pub open spec fn req_enc(r: Request) -> Seq<char> {
    match r {
        Request::Get { key } => enc_line('G', key@),
        Request::Put { key, value } => enc_record(true, key@, value@),
        Request::Remove { key } => enc_line('R', key@),
    }
}

/// The encoding of a response.
pub open spec fn resp_enc(r: Response) -> Seq<char> {
    match r {
        Response::Success(v) => match v {
            Some(s) => enc_line('V', s@),
            None => enc_line('N', Seq::empty()),
        },
        Response::Failure(m) => enc_line('E', m@),
    }
}

/// Encodes one single-field line.
fn encode_line(tag: char, f: &String) -> (out: Vec<char>)
    ensures
        out@ == enc_line(tag, f@),
{
    let mut out: Vec<char> = Vec::new();
    out.push(tag);
    out.push(' ');
    push_escaped(&mut out, f);
    out.push('\n');
    proof {
        assert(out@ =~= enc_line(tag, f@));
    }
    out
}

/// Encodes one request as its message line.
pub fn encode_request(r: &Request) -> (out: Vec<char>)
    ensures
        out@ == req_enc(*r),
{
    match r {
        Request::Get { key } => encode_line('G', key),
        Request::Put { key, value } => {
            let mut out: Vec<char> = Vec::new();
            out.push('S');
            out.push(' ');
            push_escaped(&mut out, key);
            out.push(' ');
            push_escaped(&mut out, value);
            out.push('\n');
            proof {
                assert(out@ =~= enc_record(true, key@, value@));
            }
            out
        },
        Request::Remove { key } => encode_line('R', key),
    }
}

/// Encodes one response as its message line.
pub fn encode_response(r: &Response) -> (out: Vec<char>)
    ensures
        out@ == resp_enc(*r),
{
    match r {
        Response::Success(v) => match v {
            Some(s) => encode_line('V', s),
            None => {
                let mut out: Vec<char> = Vec::new();
                out.push('N');
                out.push(' ');
                out.push('\n');
                proof {
                    assert(esc(Seq::<char>::empty()) =~= Seq::<char>::empty());
                    assert(out@ =~= enc_line('N', Seq::empty()));
                }
                out
            },
        },
        Response::Failure(m) => encode_line('E', m),
    }
}

/// Decodes one single-field line, as `parse_line` describes it.
fn decode_line(text: &Vec<char>, from: usize) -> (r: Option<(char, Vec<char>, usize)>)
    ensures
        match parse_line(text@, from as int) {
            Some((tag, f, e)) => r matches Some((tag2, v, e2)) && tag2 == tag && v@ == f && e2
                as int == e,
            None => r is None,
        },
{
    if text.len() < 2 || from > text.len() - 2 {
        return None;
    }
    let t0 = text[from];
    let t1 = text[from + 1];
    if t1 != ' ' {
        return None;
    }
    match decode_field(text, from + 2) {
        None => None,
        Some((v, j)) => {
            proof {
                lemma_parse_field_ends(text@, from as int + 2);
            }
            if text[j] == '\n' {
                Some((t0, v, j + 1))
            } else {
                None
            }
        },
    }
}

/// Decodes a whole message as one request.  `Some` exactly when the
/// text is the encoding of a request, which it then returns.
pub fn decode_request(text: &Vec<char>) -> (r: Option<Request>)
    ensures
        r matches Some(q) ==> req_enc(q) == text@,
        r is None ==> forall|q: Request| req_enc(q) != text@,
{
    if text.len() == 0 {
        proof {
            assert forall|q: Request| req_enc(q) != text@ by {
                lemma_req_enc_len(q);
            }
        }
        return None;
    }
    let t0 = text[0];
    if t0 == 'S' {
        match decode_record(text, 0) {
            Some((cmd, end)) => {
                if end == text.len() {
                    match cmd {
                        Command::Put { key, val } => {
                            proof {
                                lemma_parse_record_sound(text@, 0);
                                assert(text@.subrange(0, text@.len() as int) =~= text@);
                            }
                            Some(Request::Put { key, value: val })
                        },
                        Command::Rm { .. } => {
                            proof {
                                assert(false);
                            }
                            None
                        },
                    }
                } else {
                    proof {
                        assert forall|q: Request| req_enc(q) != text@ by {
                            if req_enc(q) == text@ {
                                lemma_req_complete(text@, q);
                            }
                        }
                    }
                    None
                }
            },
            None => {
                proof {
                    assert forall|q: Request| req_enc(q) != text@ by {
                        if req_enc(q) == text@ {
                            lemma_req_complete(text@, q);
                        }
                    }
                }
                None
            },
        }
    } else if t0 == 'G' || t0 == 'R' {
        match decode_line(text, 0) {
            Some((tag, v, end)) => {
                if end == text.len() {
                    let key = chars_to_string(&v);
                    proof {
                        lemma_parse_line_sound(text@, 0);
                        assert(text@.subrange(0, text@.len() as int) =~= text@);
                    }
                    if t0 == 'G' {
                        Some(Request::Get { key })
                    } else {
                        Some(Request::Remove { key })
                    }
                } else {
                    proof {
                        assert forall|q: Request| req_enc(q) != text@ by {
                            if req_enc(q) == text@ {
                                lemma_req_complete(text@, q);
                            }
                        }
                    }
                    None
                }
            },
            None => {
                proof {
                    assert forall|q: Request| req_enc(q) != text@ by {
                        if req_enc(q) == text@ {
                            lemma_req_complete(text@, q);
                        }
                    }
                }
                None
            },
        }
    } else {
        proof {
            assert forall|q: Request| req_enc(q) != text@ by {
                if req_enc(q) == text@ {
                    lemma_req_complete(text@, q);
                }
            }
        }
        None
    }
}

/// Every request encoding is non-empty.
proof fn lemma_req_enc_len(q: Request)
    ensures
        req_enc(q).len() >= 3,
        req_enc(q)[0] == (match q {
            Request::Get { .. } => 'G',
            Request::Put { .. } => 'S',
            Request::Remove { .. } => 'R',
        }),
{
    match q {
        Request::Get { key } => {
            lemma_line_shape('G', key@);
        },
        Request::Put { key, value } => {
            crate::codec::lemma_enc_record_len(true, key@, value@);
            crate::codec::lemma_enc_record_chars(true, key@, value@);
        },
        Request::Remove { key } => {
            lemma_line_shape('R', key@);
        },
    }
}

/// A line's length and first character.
proof fn lemma_line_shape(tag: char, f: Seq<char>)
    ensures
        enc_line(tag, f).len() == 3 + esc(f).len(),
        enc_line(tag, f)[0] == tag,
        enc_line(tag, f)[1] == ' ',
{
    let e = enc_line(tag, f);
    let k = esc(f);
    let nk = k.len() as int;
    let tg = Seq::<char>::empty().push(tag).push(' ');
    let nl = Seq::<char>::empty().push('\n');
    let q1 = tg + k;
    let q2 = q1 + nl;
    assert(e == q2);
    assert(q1.len() == 2 + nk);
    assert(q2.len() == 3 + nk);
    assert(e[0] == tag) by {
        assert(q1[0] == tg[0]);
        assert(q2[0] == q1[0]);
    }
    assert(e[1] == ' ') by {
        assert(q1[1] == tg[1]);
        assert(q2[1] == q1[1]);
    }
}

/// What must hold of `s` when it is the encoding of `q`: the parse at
/// the start succeeds and consumes the whole text.
proof fn lemma_req_complete(s: Seq<char>, q: Request)
    requires
        req_enc(q) == s,
    ensures
        s.len() >= 3,
        q matches Request::Put { .. } ==> s[0] == 'S' && parse_record(s, 0) is Some
            && parse_record(s, 0)->Some_0.end == s.len() && parse_record(s, 0)->Some_0.is_set,
        q matches Request::Get { .. } ==> s[0] == 'G' && parse_line(s, 0) is Some && parse_line(
            s,
            0,
        )->Some_0.2 == s.len(),
        q matches Request::Remove { .. } ==> s[0] == 'R' && parse_line(s, 0) is Some && parse_line(
            s,
            0,
        )->Some_0.2 == s.len(),
{
    assert(s.subrange(0, s.len() as int) =~= s);
    match q {
        Request::Get { key } => {
            lemma_line_shape('G', key@);
            lemma_parse_line_enc('G', key@, s, 0);
        },
        Request::Put { key, value } => {
            crate::codec::lemma_enc_record_len(true, key@, value@);
            crate::codec::lemma_enc_record_chars(true, key@, value@);
            lemma_parse_record_enc(true, key@, value@, s, 0);
        },
        Request::Remove { key } => {
            lemma_line_shape('R', key@);
            lemma_parse_line_enc('R', key@, s, 0);
        },
    }
}

/// What must hold of `s` when it is the encoding of a response.
proof fn lemma_resp_complete(s: Seq<char>, p: Response)
    requires
        resp_enc(p) == s,
    ensures
        s.len() >= 3,
        p matches Response::Success(v) ==> ((v matches Some(t) ==> s[0] == 'V' && parse_line(s, 0)
            is Some && parse_line(s, 0)->Some_0.2 == s.len()) && (v is None ==> s[0] == 'N'
            && parse_line(s, 0) is Some && parse_line(s, 0)->Some_0.2 == s.len() && parse_line(
            s,
            0,
        )->Some_0.1 == Seq::<char>::empty())),
        p matches Response::Failure(m) ==> s[0] == 'E' && parse_line(s, 0) is Some && parse_line(
            s,
            0,
        )->Some_0.2 == s.len(),
{
    assert(s.subrange(0, s.len() as int) =~= s);
    match p {
        Response::Success(v) => match v {
            Some(t) => {
                lemma_line_shape('V', t@);
                lemma_parse_line_enc('V', t@, s, 0);
            },
            None => {
                lemma_line_shape('N', Seq::empty());
                lemma_parse_line_enc('N', Seq::empty(), s, 0);
            },
        },
        Response::Failure(m) => {
            lemma_line_shape('E', m@);
            lemma_parse_line_enc('E', m@, s, 0);
        },
    }
}

/// Decodes a whole message as one response.  `Some` exactly when the
/// text is the encoding of a response, which it then returns.
pub fn decode_response(text: &Vec<char>) -> (r: Option<Response>)
    ensures
        r matches Some(p) ==> resp_enc(p) == text@,
        r is None ==> forall|p: Response| resp_enc(p) != text@,
{
    if text.len() == 0 {
        proof {
            assert forall|p: Response| resp_enc(p) != text@ by {
                if resp_enc(p) == text@ {
                    lemma_resp_complete(text@, p);
                }
            }
        }
        return None;
    }
    let t0 = text[0];
    if t0 == 'V' || t0 == 'N' || t0 == 'E' {
        match decode_line(text, 0) {
            Some((tag, v, end)) => {
                if end == text.len() {
                    proof {
                        lemma_parse_line_sound(text@, 0);
                        assert(text@.subrange(0, text@.len() as int) =~= text@);
                    }
                    if t0 == 'V' {
                        Some(Response::Success(Some(chars_to_string(&v))))
                    } else if t0 == 'N' {
                        if v.len() == 0 {
                            proof {
                                assert(parse_line(text@, 0)->Some_0.1 =~= Seq::<char>::empty());
                            }
                            Some(Response::Success(None))
                        } else {
                            proof {
                                assert forall|p: Response| resp_enc(p) != text@ by {
                                    if resp_enc(p) == text@ {
                                        lemma_resp_complete(text@, p);
                                    }
                                }
                            }
                            None
                        }
                    } else {
                        Some(Response::Failure(chars_to_string(&v)))
                    }
                } else {
                    proof {
                        assert forall|p: Response| resp_enc(p) != text@ by {
                            if resp_enc(p) == text@ {
                                lemma_resp_complete(text@, p);
                            }
                        }
                    }
                    None
                }
            },
            None => {
                proof {
                    assert forall|p: Response| resp_enc(p) != text@ by {
                        if resp_enc(p) == text@ {
                            lemma_resp_complete(text@, p);
                        }
                    }
                }
                None
            },
        }
    } else {
        proof {
            assert forall|p: Response| resp_enc(p) != text@ by {
                if resp_enc(p) == text@ {
                    lemma_resp_complete(text@, p);
                }
            }
        }
        None
    }
}

} // verus!
