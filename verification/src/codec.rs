//! The on-log record format.  A command is one line: a tag, then its
//! escaped fields separated by single spaces, closed by a newline.  The
//! encoding is self-delimiting, so generation files are read back as a
//! plain sequence of records with no other framing.

use vstd::prelude::*;

use crate::text::{
    chars_to_string, decode_field, esc, is_delim, lemma_parse_field_esc, lemma_parse_field_ends,
    lemma_parse_field_sound, parse_field, push_escaped,
};

verus! {

/// One durable mutation record: written once, never updated in place.
#[derive(Debug)]
pub enum Command {
    Put { key: String, val: String },
    Rm { key: String },
}

pub open spec fn cmd_key(c: Command) -> Seq<char> {
    match c {
        Command::Put { key, .. } => key@,
        Command::Rm { key } => key@,
    }
}

pub open spec fn cmd_val(c: Command) -> Seq<char> {
    match c {
        Command::Put { val, .. } => val@,
        Command::Rm { .. } => Seq::empty(),
    }
}

/// The encoded text of a record with the given tag and fields.
pub open spec fn enc_record(is_set: bool, key: Seq<char>, val: Seq<char>) -> Seq<char> {
    if is_set {
        Seq::empty().push('S').push(' ') + esc(key) + Seq::empty().push(' ') + esc(val)
            + Seq::empty().push('\n')
    } else {
        Seq::empty().push('R').push(' ') + esc(key) + Seq::empty().push('\n')
    }
}

/// The encoded text of a command.
pub open spec fn enc_cmd(c: Command) -> Seq<char> {
    enc_record(c is Put, cmd_key(c), cmd_val(c))
}

/// The length, in characters, of a command's encoding.
pub open spec fn enc_len(c: Command) -> int {
    enc_cmd(c).len() as int
}

/// What one record parse of `s` at `i` yields.
pub struct ParsedRec {
    pub is_set: bool,
    pub key: Seq<char>,
    pub val: Seq<char>,
    pub end: int,
}

/// Reads one record of `s` starting at `i`: tag, fields, and the
/// position just past the closing newline.
pub open spec fn parse_record(s: Seq<char>, i: int) -> Option<ParsedRec> {
    if 0 <= i && i + 2 <= s.len() && s[i] == 'S' && s[i + 1] == ' ' {
        match parse_field(s, i + 2) {
            Some((k, j)) => if s[j] == ' ' {
                match parse_field(s, j + 1) {
                    Some((v, m)) => if s[m] == '\n' {
                        Some(ParsedRec { is_set: true, key: k, val: v, end: m + 1 })
                    } else {
                        None
                    },
                    None => None,
                }
            } else {
                None
            },
            None => None,
        }
    } else if 0 <= i && i + 2 <= s.len() && s[i] == 'R' && s[i + 1] == ' ' {
        match parse_field(s, i + 2) {
            Some((k, j)) => if s[j] == '\n' {
                Some(ParsedRec { is_set: false, key: k, val: Seq::empty(), end: j + 1 })
            } else {
                None
            },
            None => None,
        }
    } else {
        None
    }
}

/// A parsed record strictly advances and stays inside the text.
pub proof fn lemma_parse_record_advances(s: Seq<char>, i: int)
    requires
        parse_record(s, i) is Some,
    ensures
        i + 3 <= parse_record(s, i)->Some_0.end <= s.len(),
{
    lemma_parse_field_ends(s, i + 2);
    if s[i] == 'S' {
        let (k, j) = parse_field(s, i + 2)->Some_0;
        lemma_parse_field_ends(s, j + 1);
    }
}

/// Parsing inverts encoding: where `s` holds an encoded record at `i`,
/// the record parse of `s` at `i` yields its tag and fields.
pub proof fn lemma_parse_record_enc(is_set: bool, key: Seq<char>, val: Seq<char>, s: Seq<char>, i: int)
    requires
        0 <= i,
        i + enc_record(is_set, key, val).len() <= s.len(),
        s.subrange(i, i + enc_record(is_set, key, val).len() as int) == enc_record(is_set, key, val),
    ensures
        parse_record(s, i) is Some,
        ({
            let p = parse_record(s, i)->Some_0;
            &&& p.is_set == is_set
            &&& p.key == key
            &&& (is_set ==> p.val == val)
            &&& p.end == i + enc_record(is_set, key, val).len()
        }),
{
    let e = enc_record(is_set, key, val);
    assert forall|x: int| 0 <= x < e.len() implies s[i + x] == e[x] by {
        assert(s.subrange(i, i + e.len() as int)[x] == s[i + x]);
    }
    let k = esc(key);
    let nk = k.len() as int;
    if is_set {
        let v = esc(val);
        let nv = v.len() as int;
        let tag = Seq::<char>::empty().push('S').push(' ');
        let sp = Seq::<char>::empty().push(' ');
        let nl = Seq::<char>::empty().push('\n');
        let p1 = tag + k;
        let p2 = p1 + sp;
        let p3 = p2 + v;
        let p4 = p3 + nl;
        assert(e == p4);
        assert(p1.len() == 2 + nk);
        assert(p2.len() == 3 + nk);
        assert(p3.len() == 3 + nk + nv);
        assert(p4.len() == 4 + nk + nv);
        assert(e[0] == 'S') by {
            assert(p1[0] == tag[0]);
            assert(p2[0] == p1[0]);
            assert(p3[0] == p2[0]);
            assert(p4[0] == p3[0]);
        }
        assert(e[1] == ' ') by {
            assert(p1[1] == tag[1]);
            assert(p2[1] == p1[1]);
            assert(p3[1] == p2[1]);
            assert(p4[1] == p3[1]);
        }
        assert forall|x: int| 0 <= x < nk implies e[2 + x] == k[x] by {
            assert(p1[2 + x] == k[x]);
            assert(p2[2 + x] == p1[2 + x]);
            assert(p3[2 + x] == p2[2 + x]);
            assert(p4[2 + x] == p3[2 + x]);
        }
        assert(e[2 + nk] == ' ') by {
            assert(p2[2 + nk] == sp[0]);
            assert(p3[2 + nk] == p2[2 + nk]);
            assert(p4[2 + nk] == p3[2 + nk]);
        }
        assert forall|x: int| 0 <= x < nv implies e[3 + nk + x] == v[x] by {
            assert(p3[3 + nk + x] == v[x]);
            assert(p4[3 + nk + x] == p3[3 + nk + x]);
        }
        assert(e[3 + nk + nv] == '\n') by {
            assert(p4[3 + nk + nv] == nl[0]);
        }
        assert(s[i + 0] == 'S');
        assert(s[i + 1] == ' ');
        assert(s.subrange(i + 2, i + 2 + nk) =~= esc(key)) by {
            assert forall|x: int| 0 <= x < nk implies s.subrange(i + 2, i + 2 + nk)[x]
                == esc(key)[x] by {
                assert(s[i + (2 + x)] == e[2 + x]);
            }
        }
        assert(s[i + (2 + nk)] == e[2 + nk]);
        assert(is_delim(s[i + 2 + nk]));
        lemma_parse_field_esc(key, s, i + 2);
        let j = i + 2 + nk;
        assert(parse_field(s, i + 2) == Some((key, j)));
        assert(s[j] == ' ');
        assert(s.subrange(j + 1, j + 1 + nv) =~= esc(val)) by {
            assert forall|x: int| 0 <= x < nv implies s.subrange(j + 1, j + 1 + nv)[x]
                == esc(val)[x] by {
                assert(s[i + (3 + nk + x)] == e[3 + nk + x]);
            }
        }
        assert(s[i + (3 + nk + nv)] == e[3 + nk + nv]);
        assert(is_delim(s[j + 1 + nv]));
        lemma_parse_field_esc(val, s, j + 1);
        let m = j + 1 + nv;
        assert(s[m] == '\n');
    } else {
        let tag = Seq::<char>::empty().push('R').push(' ');
        let nl = Seq::<char>::empty().push('\n');
        let q1 = tag + k;
        let q2 = q1 + nl;
        assert(e == q2);
        assert(q1.len() == 2 + nk);
        assert(q2.len() == 3 + nk);
        assert(e[0] == 'R') by {
            assert(q1[0] == tag[0]);
            assert(q2[0] == q1[0]);
        }
        assert(e[1] == ' ') by {
            assert(q1[1] == tag[1]);
            assert(q2[1] == q1[1]);
        }
        assert forall|x: int| 0 <= x < nk implies e[2 + x] == k[x] by {
            assert(q1[2 + x] == k[x]);
            assert(q2[2 + x] == q1[2 + x]);
        }
        assert(e[2 + nk] == '\n') by {
            assert(q2[2 + nk] == nl[0]);
        }
        assert(s[i + 0] == 'R');
        assert(s[i + 1] == ' ');
        assert(s.subrange(i + 2, i + 2 + nk) =~= esc(key)) by {
            assert forall|x: int| 0 <= x < nk implies s.subrange(i + 2, i + 2 + nk)[x]
                == esc(key)[x] by {
                assert(s[i + (2 + x)] == e[2 + x]);
            }
        }
        assert(s[i + (2 + nk)] == e[2 + nk]);
        assert(is_delim(s[i + 2 + nk]));
        lemma_parse_field_esc(key, s, i + 2);
        let j = i + 2 + nk;
        assert(s[j] == '\n');
    }
}

/// The length of an encoded record: tag and space, escaped fields, the
/// separating space of a `Put`, and the closing newline.
pub proof fn lemma_enc_record_len(is_set: bool, key: Seq<char>, val: Seq<char>)
    ensures
        enc_record(is_set, key, val).len() == (if is_set {
            4 + esc(key).len() + esc(val).len()
        } else {
            3 + esc(key).len()
        }),
        enc_record(is_set, key, val).len() >= 3,
{
    let k = esc(key);
    if is_set {
        let v = esc(val);
        let tag = Seq::<char>::empty().push('S').push(' ');
        let sp = Seq::<char>::empty().push(' ');
        let nl = Seq::<char>::empty().push('\n');
        let p1 = tag + k;
        let p2 = p1 + sp;
        let p3 = p2 + v;
        let p4 = p3 + nl;
        assert(enc_record(is_set, key, val) == p4);
        assert(p1.len() == 2 + k.len());
        assert(p2.len() == 3 + k.len());
        assert(p3.len() == 3 + k.len() + v.len());
        assert(p4.len() == 4 + k.len() + v.len());
    } else {
        let tag = Seq::<char>::empty().push('R').push(' ');
        let nl = Seq::<char>::empty().push('\n');
        let q1 = tag + k;
        let q2 = q1 + nl;
        assert(enc_record(is_set, key, val) == q2);
        assert(q1.len() == 2 + k.len());
        assert(q2.len() == 3 + k.len());
    }
}

/// An encoded command is at least three characters long.
pub proof fn lemma_enc_len_min(c: Command)
    ensures
        enc_len(c) >= 3,
{
    lemma_enc_record_len(c is Put, cmd_key(c), cmd_val(c));
}

/// The character at each offset of an encoded record.
pub proof fn lemma_enc_record_chars(is_set: bool, key: Seq<char>, val: Seq<char>)
    ensures
        ({
            let e = enc_record(is_set, key, val);
            let nk = esc(key).len() as int;
            let nv = esc(val).len() as int;
            &&& e[0] == (if is_set {
                'S'
            } else {
                'R'
            })
            &&& e[1] == ' '
            &&& forall|x: int| 0 <= x < nk ==> e[2 + x] == esc(key)[x]
            &&& (is_set ==> e[2 + nk] == ' ' && (forall|x: int|
                0 <= x < nv ==> e[3 + nk + x] == esc(val)[x]) && e[3 + nk + nv] == '\n')
            &&& (!is_set ==> e[2 + nk] == '\n')
        }),
{
    lemma_enc_record_len(is_set, key, val);
    let e = enc_record(is_set, key, val);
    let k = esc(key);
    let nk = k.len() as int;
    if is_set {
        let v = esc(val);
        let nv = v.len() as int;
        let tag = Seq::<char>::empty().push('S').push(' ');
        let sp = Seq::<char>::empty().push(' ');
        let nl = Seq::<char>::empty().push('\n');
        let p1 = tag + k;
        let p2 = p1 + sp;
        let p3 = p2 + v;
        let p4 = p3 + nl;
        assert(e == p4);
        assert(p1.len() == 2 + nk);
        assert(p2.len() == 3 + nk);
        assert(p3.len() == 3 + nk + nv);
        assert(p4.len() == 4 + nk + nv);
        assert(e[0] == 'S') by {
            assert(p1[0] == tag[0]);
            assert(p2[0] == p1[0]);
            assert(p3[0] == p2[0]);
            assert(p4[0] == p3[0]);
        }
        assert(e[1] == ' ') by {
            assert(p1[1] == tag[1]);
            assert(p2[1] == p1[1]);
            assert(p3[1] == p2[1]);
            assert(p4[1] == p3[1]);
        }
        assert forall|x: int| 0 <= x < nk implies e[2 + x] == k[x] by {
            assert(p1[2 + x] == k[x]);
            assert(p2[2 + x] == p1[2 + x]);
            assert(p3[2 + x] == p2[2 + x]);
            assert(p4[2 + x] == p3[2 + x]);
        }
        assert(e[2 + nk] == ' ') by {
            assert(p2[2 + nk] == sp[0]);
            assert(p3[2 + nk] == p2[2 + nk]);
            assert(p4[2 + nk] == p3[2 + nk]);
        }
        assert forall|x: int| 0 <= x < nv implies e[3 + nk + x] == v[x] by {
            assert(p3[3 + nk + x] == v[x]);
            assert(p4[3 + nk + x] == p3[3 + nk + x]);
        }
        assert(e[3 + nk + nv] == '\n') by {
            assert(p4[3 + nk + nv] == nl[0]);
        }
    } else {
        let tag = Seq::<char>::empty().push('R').push(' ');
        let nl = Seq::<char>::empty().push('\n');
        let q1 = tag + k;
        let q2 = q1 + nl;
        assert(e == q2);
        assert(q1.len() == 2 + nk);
        assert(q2.len() == 3 + nk);
        assert(e[0] == 'R') by {
            assert(q1[0] == tag[0]);
            assert(q2[0] == q1[0]);
        }
        assert(e[1] == ' ') by {
            assert(q1[1] == tag[1]);
            assert(q2[1] == q1[1]);
        }
        assert forall|x: int| 0 <= x < nk implies e[2 + x] == k[x] by {
            assert(q1[2 + x] == k[x]);
            assert(q2[2 + x] == q1[2 + x]);
        }
        assert(e[2 + nk] == '\n') by {
            assert(q2[2 + nk] == nl[0]);
        }
    }
}

/// Parsing only accepts canonical text: a parsed record re-encodes to
/// exactly the characters consumed.
pub proof fn lemma_parse_record_sound(s: Seq<char>, i: int)
    requires
        parse_record(s, i) is Some,
    ensures
        ({
            let p = parse_record(s, i)->Some_0;
            s.subrange(i, p.end) == enc_record(p.is_set, p.key, p.val)
        }),
{
    let p = parse_record(s, i)->Some_0;
    let e = enc_record(p.is_set, p.key, p.val);
    lemma_enc_record_len(p.is_set, p.key, p.val);
    lemma_enc_record_chars(p.is_set, p.key, p.val);
    let nk = esc(p.key).len() as int;
    if p.is_set {
        let (k, j) = parse_field(s, i + 2)->Some_0;
        let (v, m) = parse_field(s, j + 1)->Some_0;
        lemma_parse_field_sound(s, i + 2);
        lemma_parse_field_ends(s, i + 2);
        lemma_parse_field_sound(s, j + 1);
        lemma_parse_field_ends(s, j + 1);
        let nv = esc(p.val).len() as int;
        assert(esc(k) == s.subrange(i + 2, j));
        assert(esc(v) == s.subrange(j + 1, m));
        assert(nk == j - i - 2);
        assert(nv == m - j - 1);
        assert(s.subrange(i, p.end) =~= e) by {
            assert forall|x: int| 0 <= x < e.len() implies s.subrange(i, p.end)[x] == e[x] by {
                assert(s.subrange(i, p.end)[x] == s[i + x]);
                if x == 0 {
                } else if x == 1 {
                } else if x < 2 + nk {
                    assert(esc(p.key)[x - 2] == s.subrange(i + 2, j)[x - 2]);
                    assert(s.subrange(i + 2, j)[x - 2] == s[i + x]);
                } else if x == 2 + nk {
                    assert(s[j] == ' ');
                } else if x < 3 + nk + nv {
                    assert(esc(p.val)[x - 3 - nk] == s.subrange(j + 1, m)[x - 3 - nk]);
                    assert(s.subrange(j + 1, m)[x - 3 - nk] == s[i + x]);
                } else {
                    assert(i + x == m);
                    assert(s[m] == '\n');
                }
            }
        }
    } else {
        let (k, j) = parse_field(s, i + 2)->Some_0;
        lemma_parse_field_sound(s, i + 2);
        lemma_parse_field_ends(s, i + 2);
        assert(esc(k) == s.subrange(i + 2, j));
        assert(nk == j - i - 2);
        assert(s.subrange(i, p.end) =~= e) by {
            assert forall|x: int| 0 <= x < e.len() implies s.subrange(i, p.end)[x] == e[x] by {
                assert(s.subrange(i, p.end)[x] == s[i + x]);
                if x == 0 {
                } else if x == 1 {
                } else if x < 2 + nk {
                    assert(esc(p.key)[x - 2] == s.subrange(i + 2, j)[x - 2]);
                    assert(s.subrange(i + 2, j)[x - 2] == s[i + x]);
                } else {
                    assert(i + x == j);
                    assert(s[j] == '\n');
                }
            }
        }
    }
}

/// The whole of `s` from `i` on is a well-formed run of records.
pub open spec fn parses_from(s: Seq<char>, i: int) -> bool
    decreases s.len() - i,
{
    if i < 0 || i > s.len() {
        false
    } else if i == s.len() {
        true
    } else {
        match parse_record(s, i) {
            None => false,
            Some(p) => if i < p.end <= s.len() {
                parses_from(s, p.end)
            } else {
                false
            },
        }
    }
}

/// Encodes one command as its record line.
pub fn encode_command(cmd: &Command) -> (out: Vec<char>)
    ensures
        out@ == enc_cmd(*cmd),
{
    let mut out: Vec<char> = Vec::new();
    match cmd {
        Command::Put { key, val } => {
            out.push('S');
            out.push(' ');
            push_escaped(&mut out, key);
            out.push(' ');
            push_escaped(&mut out, val);
            out.push('\n');
        },
        Command::Rm { key } => {
            out.push('R');
            out.push(' ');
            push_escaped(&mut out, key);
            out.push('\n');
        },
    }
    proof {
        assert(out@ =~= enc_cmd(*cmd));
    }
    out
}

/// Decodes one record of `text` from `from`, as `parse_record`
/// describes it.
pub fn decode_record(text: &Vec<char>, from: usize) -> (r: Option<(Command, usize)>)
    ensures
        match parse_record(text@, from as int) {
            Some(p) => r matches Some((c, e)) && e as int == p.end && c is Put == p.is_set
                && cmd_key(c) == p.key && (p.is_set ==> cmd_val(c) == p.val),
            None => r is None,
        },
{
    if text.len() < 2 || from > text.len() - 2 {
        return None;
    }
    let t0 = text[from];
    let t1 = text[from + 1];
    if t0 == 'S' && t1 == ' ' {
        match decode_field(text, from + 2) {
            None => None,
            Some((k, j)) => {
                proof {
                    lemma_parse_field_ends(text@, from as int + 2);
                }
                if text[j] == ' ' {
                    match decode_field(text, j + 1) {
                        None => None,
                        Some((v, m)) => {
                            proof {
                                lemma_parse_field_ends(text@, j as int + 1);
                            }
                            if text[m] == '\n' {
                                let key = chars_to_string(&k);
                                let val = chars_to_string(&v);
                                Some((Command::Put { key, val }, m + 1))
                            } else {
                                None
                            }
                        },
                    }
                } else {
                    None
                }
            },
        }
    } else if t0 == 'R' && t1 == ' ' {
        match decode_field(text, from + 2) {
            None => None,
            Some((k, j)) => {
                proof {
                    lemma_parse_field_ends(text@, from as int + 2);
                }
                if text[j] == '\n' {
                    let key = chars_to_string(&k);
                    Some((Command::Rm { key }, j + 1))
                } else {
                    None
                }
            },
        }
    } else {
        None
    }
}

} // verus!
